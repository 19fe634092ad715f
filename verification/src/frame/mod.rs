//! Packet kinds and decrypted packet bodies.

pub mod tag;

pub use tag::PacketKind;

use vstd::prelude::*;

use crate::types::{TimestampMs, XferSeq};

verus! {

/// The decrypted body of a packet.
///
/// The sequence number is not here: it rides in the cleartext header, because
/// the receiver needs it to derive the nonce before it can decrypt this.
#[derive(Debug, Clone, PartialEq, Eq)]
pub enum Body {
    /// One Opus frame, to be played at `ts`.
    Data { ts: TimestampMs, payload: Vec<u8> },
    /// No more payload will be produced.
    End { final_seq: XferSeq },
    /// Everything up to the final sequence number arrived.
    EndAck,
    /// The receiver's view of the transfer, in one packet.
    Ack {
        /// Everything up to and including this arrived; the sender may drop that
        /// much of its retransmission ring.
        contiguous: XferSeq,
        /// The highest sequence number seen at all. Gates the send window, so
        /// loss on the unreliable path does not stall the sender.
        highest: XferSeq,
        /// How much audio the receiver is currently holding, in milliseconds.
        buffered_ms: u16,
    },
    /// These sequence numbers are missing.
    Nack { missing: Vec<XferSeq> },
    /// Nothing to say; keeps the NAT mapping alive.
    ///
    /// `lost_below` lets the sender volunteer that frames have already fallen
    /// out of its retransmission ring, so the receiver can give up on the
    /// reliable stream in one round trip.
    Keepalive { lost_below: XferSeq },
}

/// A [`Body`] with its vectors taken as sequences.
#[verifier::ext_equal]
pub enum BodyView {
    Data { ts: TimestampMs, payload: Seq<u8> },
    End { final_seq: XferSeq },
    EndAck,
    Ack { contiguous: XferSeq, highest: XferSeq, buffered_ms: u16 },
    Nack { missing: Seq<XferSeq> },
    Keepalive { lost_below: XferSeq },
}

impl BodyView {
    pub open spec fn kind(self) -> PacketKind {
        match self {
            BodyView::Data { .. } => PacketKind::Data,
            BodyView::End { .. } => PacketKind::End,
            BodyView::EndAck => PacketKind::EndAck,
            BodyView::Ack { .. } => PacketKind::Ack,
            BodyView::Nack { .. } => PacketKind::Nack,
            BodyView::Keepalive { .. } => PacketKind::Keepalive,
        }
    }
}

impl View for Body {
    type V = BodyView;

    open spec fn view(&self) -> BodyView {
        match *self {
            Body::Data { ts, payload } => BodyView::Data { ts, payload: payload@ },
            Body::End { final_seq } => BodyView::End { final_seq },
            Body::EndAck => BodyView::EndAck,
            Body::Ack { contiguous, highest, buffered_ms } => BodyView::Ack {
                contiguous,
                highest,
                buffered_ms,
            },
            Body::Nack { missing } => BodyView::Nack { missing: missing@ },
            Body::Keepalive { lost_below } => BodyView::Keepalive { lost_below },
        }
    }
}

impl Body {
    pub fn kind(&self) -> (k: PacketKind)
        ensures
            k == self@.kind(),
    {
        match self {
            Body::Data { .. } => PacketKind::Data,
            Body::End { .. } => PacketKind::End,
            Body::EndAck => PacketKind::EndAck,
            Body::Ack { .. } => PacketKind::Ack,
            Body::Nack { .. } => PacketKind::Nack,
            Body::Keepalive { .. } => PacketKind::Keepalive,
        }
    }
}

} // verus!
