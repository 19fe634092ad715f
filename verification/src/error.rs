//! What can be wrong with a datagram, a key or a body.

use vstd::prelude::*;

use crate::types::{RequestId, XferSeq};

verus! {

#[derive(Debug, Clone, Copy, PartialEq, Eq)]
pub enum Error {
    /// The datagram is too short.
    Truncated { need: usize, got: usize },
    /// The first byte names a version this crate does not speak.
    UnsupportedVersion(u8),
    /// The second byte names no packet kind.
    UnknownKind(u8),
    /// The body does not have the layout of its kind.
    MalformedBody { kind: &'static str, reason: &'static str },
    /// There are bytes after the body of this kind.
    TrailingBytes(&'static str),
    /// The authentication tag does not match, or the body cannot be sealed.
    DecryptFailed(RequestId),
    /// The counter was seen before, or is too old to tell.
    Replay(u32),
    /// A key must be 32 bytes long; this is the length that was given.
    BadKeyLength(usize),
    /// More than one packet may carry.
    PayloadTooLarge { got: usize, max: usize },
    /// The retransmission buffer is full.
    RetransBufferFull(usize),
    /// The reorder buffer has used up its budget.
    ReorderBudgetExhausted { bytes: usize, frames: usize },
    /// There is no send credit.
    NoCredit,
    /// The frame is not valid in the current transfer state.
    UnexpectedFrame(&'static str),
    /// A packet of this kind was travelling in the wrong direction.
    WrongDirection(&'static str),
    /// The declared final sequence number contradicts what was sent.
    BadFinalSeq { declared: XferSeq, sent: XferSeq },
}

pub type Result<T> = std::result::Result<T, Error>;

} // verus!
