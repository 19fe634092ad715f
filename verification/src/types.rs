//! Identifiers, sequence numbers and outcomes.

use vstd::prelude::*;

use crate::bytes::{be_bytes, be_value, get_be, lemma_be_bytes_len, lemma_be_bytes_of_value, lemma_be_value_of_bytes, lemma_pow256_values, set_be};

verus! {

/// Identifies one transfer.
///
/// Travels in the clear so that a relay can route a datagram without holding
/// key material, which makes it a routing key, a demultiplexing key and a
/// source-pinning key at once. All three want it unguessable and collision-free
/// across independent minters, so it is a version 4 UUID rather than a counter,
/// held as the 128-bit number that its sixteen bytes spell.
#[derive(Debug, Clone, Copy, PartialEq, Eq, Structural, PartialOrd, Ord, Hash)]
pub struct RequestId(pub u128);

impl RequestId {
    pub const LEN: usize = 16;

    /// The sixteen bytes that stand for this id on the wire.
    pub open spec fn wire(self) -> Seq<u8> {
        be_bytes(self.0 as nat, 16)
    }

    pub fn to_bytes(self) -> (b: [u8; 16])
        ensures
            b@ == self.wire(),
            be_value(b@) == self.0,
    {
        let mut b: [u8; 16] = [0u8; 16];
        set_be(&mut b, 0, self.0, 16);
        proof {
            lemma_be_bytes_len(self.0 as nat, 16);
            lemma_pow256_values();
            lemma_be_value_of_bytes(self.0 as nat, 16);
            assert(b@ =~= self.wire());
        }
        b
    }

    pub fn from_bytes(b: [u8; 16]) -> (id: Self)
        ensures
            id.0 == be_value(b@),
            id.wire() == b@,
    {
        proof {
            lemma_be_bytes_of_value(b@);
            assert(b@.subrange(0, 16) =~= b@);
        }
        RequestId(get_be(b.as_slice(), 0, 16))
    }
}

/// Position of a payload frame within a transfer. Starts at 1.
///
/// Rides in the cleartext header: the receiver needs it to derive the nonce
/// before it can decrypt anything. It is covered by the authentication tag as
/// associated data.
#[derive(Debug, Clone, Copy, PartialEq, Eq, PartialOrd, Ord, Hash)]
pub struct XferSeq(pub u32);

impl XferSeq {
    /// The number of a transfer's first frame.
    pub fn first() -> (s: Self)
        ensures
            s.0 == 1,
    {
        XferSeq(1)
    }

    pub fn next(self) -> (s: Self)
        ensures
            s.0 == if self.0 < u32::MAX {
                self.0 + 1
            } else {
                self.0 as int
            },
    {
        XferSeq(self.0.saturating_add(1))
    }
}

/// Monotonic counter for control packets, kept per direction.
///
/// Control packets have a counter space of their own rather than borrowing
/// [`XferSeq`]: a `Data` packet and an `Ack` must never derive the same nonce.
/// It also drives the replay window.
#[derive(Debug, Clone, Copy, PartialEq, Eq, PartialOrd, Ord, Hash)]
pub struct ControlSeq(pub u32);

impl ControlSeq {
    /// The counter of a direction's first control packet.
    pub fn first() -> (s: Self)
        ensures
            s.0 == 0,
    {
        ControlSeq(0)
    }

    pub fn next(self) -> (s: Self)
        ensures
            s.0 == if self.0 < u32::MAX {
                self.0 + 1
            } else {
                0
            },
    {
        ControlSeq(self.0.wrapping_add(1))
    }
}

/// Playback timestamp of a payload frame, in milliseconds from the start of the
/// transfer.
#[derive(Debug, Clone, Copy, PartialEq, Eq, PartialOrd, Ord, Hash)]
pub struct TimestampMs(pub u64);

/// Which end a packet came from.
///
/// Both directions share one key, so this goes into the nonce to keep their
/// counter spaces apart. It is a property of the role, never read off the wire.
#[derive(Debug, Clone, Copy, PartialEq, Eq, Structural, Hash)]
pub enum Direction {
    /// Tap to sink: payload, plus `End` and `Keepalive`.
    Send,
    /// Sink to tap: `Ack`, `Nack`, `EndAck`.
    Recv,
}

impl Direction {
    pub open spec fn byte(self) -> u8 {
        match self {
            Direction::Send => 0,
            Direction::Recv => 1,
        }
    }

    pub fn to_u8(self) -> (b: u8)
        ensures
            b == self.byte(),
    {
        match self {
            Direction::Send => 0x00,
            Direction::Recv => 0x01,
        }
    }

    pub open spec fn other(self) -> Direction {
        match self {
            Direction::Send => Direction::Recv,
            Direction::Recv => Direction::Send,
        }
    }

    pub fn peer(self) -> (d: Self)
        ensures
            d == self.other(),
            d != self,
            d.other() == self,
    {
        match self {
            Direction::Send => Direction::Recv,
            Direction::Recv => Direction::Send,
        }
    }
}

/// Nonce counter space. Separates payload from control within one direction.
#[derive(Debug, Clone, Copy, PartialEq, Eq, Structural, Hash)]
pub enum SeqClass {
    Data,
    Control,
}

impl SeqClass {
    pub open spec fn byte(self) -> u8 {
        match self {
            SeqClass::Data => 0,
            SeqClass::Control => 1,
        }
    }

    pub fn to_u8(self) -> (b: u8)
        ensures
            b == self.byte(),
    {
        match self {
            SeqClass::Data => 0x00,
            SeqClass::Control => 0x01,
        }
    }
}

/// How a reliable (cache-bound) stream ended.
#[derive(Debug, Clone, Copy, PartialEq, Eq)]
pub enum RelOutcome {
    /// Every frame up to `final_seq` arrived. Safe to commit to the cache.
    Complete { final_seq: XferSeq },
    /// Gave up. The cache entry must be aborted; playback is unaffected.
    Aborted(RelAbortReason),
}

#[derive(Debug, Clone, Copy, PartialEq, Eq, Structural, Hash)]
pub enum RelAbortReason {
    /// A gap outlived its NACK retry budget.
    UnrecoverableGap,
    /// The reorder buffer hit its byte or frame budget.
    BufferExhausted,
    /// The contiguous prefix stopped advancing while packets were still
    /// arriving.
    Stalled,
    /// The sender said the frames are gone from its retransmission ring.
    SenderDiscarded,
    /// The transfer ended before `End` arrived.
    PeerGone,
    /// The sink declined to buffer this stream at all.
    NotAttempted,
}

} // verus!
