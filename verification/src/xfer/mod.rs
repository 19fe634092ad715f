//! The two halves of a transfer, as state machines.

pub mod gap_laws;
pub mod gap_tracker;
pub mod receiver;
pub mod recv_history;
pub mod recv_laws;
pub mod retrans;
pub mod ring_laws;
pub mod send_history;
pub mod send_laws;
pub mod sender;

pub use gap_tracker::GapTracker;
pub use receiver::{Frame, RecvEvent, XferReceiver};
pub use retrans::RetransRing;
pub use sender::{SendEvent, SendFailure, XferSender};
