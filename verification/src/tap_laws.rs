//! What holds of a tap over a whole transfer.

use vstd::prelude::*;

use crate::config::SenderConfig;
use crate::crypto::replay::Seen;
use crate::error::Error;
use crate::frame::{BodyView, PacketKind};
use crate::guard::{lemma_what_is_let_through, lets_through, passed};
use crate::header::Header;
use crate::tap::Tap;
use crate::time::Instant;
use crate::types::{RequestId, TimestampMs, XferSeq};
use crate::xfer::send_laws::{as_events, SendInput};
use crate::xfer::sender::{SendEventView, Sending};

verus! {

/// One call of a [`TapSession`](crate::tap::TapSession) that changes its state.
pub enum TapInput {
    Push { ts: TimestampMs, payload: Seq<u8>, now: Instant },
    Record { seq: XferSeq, datagram: Seq<u8> },
    Finish { now: Instant },
    Packet { packet: std::result::Result<(Header, BodyView), Error> },
    Tick { now: Instant },
}

impl Tap {
    /// The state and the events after one call.
    pub open spec fn step(self, input: TapInput) -> (Tap, Seq<SendEventView>) {
        match input {
            TapInput::Push { ts, payload, now } => {
                let (t, e) = self.pushed(ts, payload, now);
                (t, as_events(e))
            },
            TapInput::Record { seq, datagram } => (self.recorded(seq, datagram), Seq::empty()),
            TapInput::Finish { now } => {
                let (t, e) = self.finished(now);
                (t, as_events(e))
            },
            TapInput::Packet { packet } => self.admitted(packet),
            TapInput::Tick { now } => self.ticked(now),
        }
    }

    /// The state after a series of calls, and all events of them in order.
    pub open spec fn run(self, inputs: Seq<TapInput>) -> (Tap, Seq<SendEventView>)
        decreases inputs.len(),
    {
        if inputs.len() == 0 {
            (self, Seq::empty())
        } else {
            let (s, events) = self.run(inputs.drop_last());
            let (t, more) = s.step(inputs.last());
            (t, events + more)
        }
    }
}

/// The headers of the packets that opened, in order.
pub open spec fn headers_of(inputs: Seq<TapInput>) -> Seq<Header>
    decreases inputs.len(),
{
    if inputs.len() == 0 {
        Seq::empty()
    } else {
        let rest = headers_of(inputs.drop_last());
        match inputs.last() {
            TapInput::Packet { packet: Ok((header, _)) } => rest.push(header),
            _ => rest,
        }
    }
}

/// What the calls feed to the state machine: everything, but of the packets only
/// those that opened and are to be let through.
pub open spec fn fed_by(inputs: Seq<TapInput>) -> Seq<SendInput>
    decreases inputs.len(),
{
    if inputs.len() == 0 {
        Seq::empty()
    } else {
        let before = inputs.drop_last();
        let rest = fed_by(before);
        match inputs.last() {
            TapInput::Push { ts, payload, now } => rest.push(SendInput::Push { ts, payload, now }),
            TapInput::Record { seq, datagram } => rest.push(SendInput::Record { seq, datagram }),
            TapInput::Finish { now } => rest.push(SendInput::Finish { now }),
            TapInput::Tick { now } => rest.push(SendInput::Tick { now }),
            TapInput::Packet { packet: Ok((header, body)) } => if lets_through(
                headers_of(before),
                header,
            ) {
                rest.push(SendInput::Handle { body })
            } else {
                rest
            },
            TapInput::Packet { packet: Err(_) } => rest,
        }
    }
}

/// A tap does what its sender does on what it was given: on every frame, every
/// record, every tick and the end, and of the packets on those that opened and
/// are to be let through, and on nothing else. Its events are the sender's, in
/// order, and its key and its request never change.
pub proof fn lemma_a_tap_runs_its_sender(
    key: Seq<u8>,
    id: RequestId,
    cfg: SenderConfig,
    inputs: Seq<TapInput>,
)
    ensures
        ({
            let (t, events) = Tap::armed(key, id, cfg).run(inputs);
            &&& (t.state, events) == Sending::fresh(cfg).run(fed_by(inputs))
            &&& t.key == key
            &&& t.request_id == id
            &&& t.replay == passed(Seen::nothing(), headers_of(inputs))
        }),
    decreases inputs.len(),
{
    if inputs.len() > 0 {
        let before = inputs.drop_last();
        lemma_a_tap_runs_its_sender(key, id, cfg, before);
        let (s, events) = Tap::armed(key, id, cfg).run(before);
        let fed = fed_by(inputs);
        if let TapInput::Packet { packet: Ok((header, body)) } = inputs.last() {
            lemma_what_is_let_through(headers_of(before), header);
            assert(headers_of(inputs).drop_last() =~= headers_of(before));
        }
        if fed.len() > fed_by(before).len() {
            assert(fed.drop_last() =~= fed_by(before));
        } else {
            assert(events + Seq::<SendEventView>::empty() =~= events);
        }
    }
}

/// What a tap puts in front of a packet: the kind of its body, the request it was
/// made for, and the number that the sender gave it.
pub proof fn lemma_what_a_tap_puts_in_a_header(t: Tap, seq: XferSeq, body: BodyView)
    ensures
        t.header(seq, body) == (Header {
            kind: match body {
                BodyView::Data { .. } => PacketKind::Data,
                BodyView::End { .. } => PacketKind::End,
                BodyView::EndAck => PacketKind::EndAck,
                BodyView::Ack { .. } => PacketKind::Ack,
                BodyView::Nack { .. } => PacketKind::Nack,
                BodyView::Keepalive { .. } => PacketKind::Keepalive,
            },
            request_id: t.request_id,
            seq: seq.0,
        }),
{
}

} // verus!
