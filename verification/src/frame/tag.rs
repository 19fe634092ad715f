//! Packet kinds.

use vstd::prelude::*;

use crate::error::{Error, Result};
use crate::types::{Direction, SeqClass};

verus! {

/// Packet kind. Six kinds, deliberately.
///
/// There is no handshake kind: a receiver that lacks the key cannot
/// authenticate an opening packet either. There is no kind for a batch of
/// retransmissions: a retransmission is a verbatim resend of a sealed `Data`
/// datagram, so that no nonce ever meets a second plaintext. There is no credit
/// kind, because `Ack` carries the receiver's actual buffer occupancy. And there
/// is no kind that closes a transfer, because that one could be forged and
/// replayed to real effect; a transfer ends by `End`/`EndAck` or a timeout.
#[derive(Debug, Clone, Copy, PartialEq, Eq, Structural, Hash)]
pub enum PacketKind {
    /// One Opus frame. `seq` in the header is its transfer sequence number.
    Data,
    /// No more payload. Carries the final sequence number.
    End,
    /// Every frame up to the declared final sequence number arrived.
    EndAck,
    /// Delivery report: drains the retransmission ring, gates the send window,
    /// and reports buffer occupancy.
    Ack,
    /// These sequence numbers are missing.
    Nack,
    /// Keeps the tap's NAT mapping open while it has nothing to send.
    Keepalive,
}

impl PacketKind {
    /// The byte that stands for this kind on the wire.
    pub open spec fn byte(self) -> u8 {
        match self {
            PacketKind::Data => 0,
            PacketKind::End => 1,
            PacketKind::EndAck => 2,
            PacketKind::Ack => 3,
            PacketKind::Nack => 4,
            PacketKind::Keepalive => 5,
        }
    }

    /// The name used in error reports.
    pub open spec fn label(self) -> &'static str {
        match self {
            PacketKind::Data => "Data",
            PacketKind::End => "End",
            PacketKind::EndAck => "EndAck",
            PacketKind::Ack => "Ack",
            PacketKind::Nack => "Nack",
            PacketKind::Keepalive => "Keepalive",
        }
    }

    /// The direction this kind only ever travels in.
    pub open spec fn travels(self) -> Direction {
        match self {
            PacketKind::Data | PacketKind::End | PacketKind::Keepalive => Direction::Send,
            PacketKind::EndAck | PacketKind::Ack | PacketKind::Nack => Direction::Recv,
        }
    }

    /// Which nonce counter space this kind draws from.
    pub open spec fn class(self) -> SeqClass {
        if self == PacketKind::Data {
            SeqClass::Data
        } else {
            SeqClass::Control
        }
    }

    /// The kind that `v` stands for on the wire.
    pub open spec fn of_byte(v: u8) -> Option<PacketKind> {
        if v == 0 {
            Some(PacketKind::Data)
        } else if v == 1 {
            Some(PacketKind::End)
        } else if v == 2 {
            Some(PacketKind::EndAck)
        } else if v == 3 {
            Some(PacketKind::Ack)
        } else if v == 4 {
            Some(PacketKind::Nack)
        } else if v == 5 {
            Some(PacketKind::Keepalive)
        } else {
            None
        }
    }

    pub fn from_u8(v: u8) -> (r: Result<Self>)
        ensures
            r == (match PacketKind::of_byte(v) {
                Some(k) => Ok::<PacketKind, Error>(k),
                None => Err::<PacketKind, Error>(Error::UnknownKind(v)),
            }),
            r matches Ok(k) ==> k.byte() == v,
    {
        match v {
            0x00 => Ok(PacketKind::Data),
            0x01 => Ok(PacketKind::End),
            0x02 => Ok(PacketKind::EndAck),
            0x03 => Ok(PacketKind::Ack),
            0x04 => Ok(PacketKind::Nack),
            0x05 => Ok(PacketKind::Keepalive),
            other => Err(Error::UnknownKind(other)),
        }
    }

    pub fn to_u8(self) -> (b: u8)
        ensures
            b == self.byte(),
            PacketKind::of_byte(b) == Some(self),
    {
        match self {
            PacketKind::Data => 0x00,
            PacketKind::End => 0x01,
            PacketKind::EndAck => 0x02,
            PacketKind::Ack => 0x03,
            PacketKind::Nack => 0x04,
            PacketKind::Keepalive => 0x05,
        }
    }

    pub fn name(self) -> (s: &'static str)
        ensures
            s == self.label(),
    {
        match self {
            PacketKind::Data => "Data",
            PacketKind::End => "End",
            PacketKind::EndAck => "EndAck",
            PacketKind::Ack => "Ack",
            PacketKind::Nack => "Nack",
            PacketKind::Keepalive => "Keepalive",
        }
    }

    /// The direction this kind only ever travels in. Checked after decryption,
    /// never before.
    pub fn direction(self) -> (d: Direction)
        ensures
            d == self.travels(),
    {
        match self {
            PacketKind::Data | PacketKind::End | PacketKind::Keepalive => Direction::Send,
            PacketKind::EndAck | PacketKind::Ack | PacketKind::Nack => Direction::Recv,
        }
    }

    pub fn seq_class(self) -> (c: SeqClass)
        ensures
            c == self.class(),
    {
        match self {
            PacketKind::Data => SeqClass::Data,
            _ => SeqClass::Control,
        }
    }
}

} // verus!
