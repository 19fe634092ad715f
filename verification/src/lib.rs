//! Sans-IO core of a UDP transport that moves one audio transfer from a tap to
//! a sink, and gives the sink two views of it at once: an unreliable stream that
//! yields frames the moment they arrive, for playback, and a reliable stream
//! recovered by retransmission, for the cache.
//!
//! Nothing here touches a socket or a clock. Every function states what it does
//! in its contract; what holds over a whole transfer is proved in
//! [`xfer::send_laws`], [`xfer::recv_laws`], [`xfer::ring_laws`],
//! [`xfer::gap_laws`], [`tap_laws`] and [`sink_laws`]; what each call does, told
//! from the calls before it, in [`xfer::send_history`], [`xfer::recv_history`] and
//! [`sink_history`]; and what the bytes on the wire are in [`wire_laws`].

pub mod bytes;
pub mod codec;
pub mod config;
pub mod crypto;
pub mod error;
pub mod feedback;
pub mod frame;
pub mod guard;
pub mod header;
pub mod mint;
pub mod packet;
pub mod sink;
pub mod sink_history;
pub mod sink_laws;
pub mod tap;
pub mod tap_laws;
pub mod time;
pub mod types;
pub mod wire_laws;
pub mod xfer;

pub use config::{ReceiverConfig, RecvMode, SenderConfig};
pub use crypto::SessionKey;
pub use error::{Error, Result};
pub use feedback::BufferFeedback;
pub use frame::{Body, PacketKind};
pub use header::{Header, HEADER_LEN, VERSION};
pub use mint::random_key;
pub use types::{ControlSeq, Direction, RelAbortReason, RelOutcome, RequestId, SeqClass, TimestampMs, XferSeq};
pub use xfer::{Frame, RecvEvent, SendEvent, SendFailure, XferReceiver, XferSender};
