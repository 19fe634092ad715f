//! The tap side of one transfer: the sender's state machine with its key.

use vstd::prelude::*;

use crate::codec::over_limit;
use crate::config::SenderConfig;
use crate::crypto::replay::Seen;
use crate::crypto::{openable, ReplayWindow, SessionKey};
use crate::error::{Error, Result};
use crate::frame::{Body, BodyView};
use crate::guard::{guard, guarded};
use crate::header::Header;
use crate::packet::{open_body, opened_body, seal_body, sealed_body, MAX_DATAGRAM};
use crate::time::Instant;
use crate::types::{Direction, RequestId, TimestampMs, XferSeq};
use crate::xfer::sender::{contents, sent, SendEvent, SendEventView, SendFailure, Sending, XferSender};

verus! {

/// What the caller is to do with its socket.
#[derive(Debug, Clone, PartialEq, Eq)]
pub enum TapAction {
    /// Send this datagram. If `record` names a frame, hand the datagram to
    /// [`TapSession::record`] once it is out.
    Transmit { datagram: Vec<u8>, record: Option<XferSeq> },
    /// Send these datagrams, which have been sent before, as they are.
    Retransmit { datagrams: Vec<Vec<u8>> },
    /// The transfer is done.
    Completed,
    /// The transfer has failed.
    Failed(SendFailure),
}

/// The state of a [`TapSession`].
#[verifier::ext_equal]
pub struct Tap {
    pub key: Seq<u8>,
    pub request_id: RequestId,
    pub state: Sending,
    pub replay: Seen,
}

impl Tap {
    /// A transfer that nothing has been sent for yet.
    pub open spec fn armed(key: Seq<u8>, request_id: RequestId, cfg: SenderConfig) -> Tap {
        Tap { key, request_id, state: Sending::fresh(cfg), replay: Seen::nothing() }
    }

    /// A frame is offered.
    pub open spec fn pushed(self, ts: TimestampMs, payload: Seq<u8>, now: Instant) -> (
        Tap,
        Option<SendEventView>,
    ) {
        let (state, event) = self.state.pushed(ts, payload, now);
        (Tap { state, ..self }, event)
    }

    /// The end of the payload is declared.
    pub open spec fn finished(self, now: Instant) -> (Tap, Option<SendEventView>) {
        let (state, event) = self.state.finished(now);
        (Tap { state, ..self }, event)
    }

    /// Time passes.
    pub open spec fn ticked(self, now: Instant) -> (Tap, Seq<SendEventView>) {
        let (state, events) = self.state.ticked(now);
        (Tap { state, ..self }, events)
    }

    /// The bytes of a frame went out.
    pub open spec fn recorded(self, seq: XferSeq, datagram: Seq<u8>) -> Tap {
        Tap { state: self.state.recorded(seq, datagram), ..self }
    }

    /// The header of a packet that the sender emits.
    pub open spec fn header(self, seq: XferSeq, body: BodyView) -> Header {
        Header { kind: body.kind(), request_id: self.request_id, seq: seq.0 }
    }

    /// A packet from the sink: it changes nothing unless it opens, is well
    /// formed, and is no replay.
    pub open spec fn admitted(
        self,
        packet: std::result::Result<(Header, BodyView), Error>,
    ) -> (Tap, Seq<SendEventView>) {
        match packet {
            Err(_) => (self, Seq::empty()),
            Ok((header, body)) => match guarded(self.replay, header) {
                None => (self, Seq::empty()),
                Some(replay) => {
                    let (state, events) = self.state.handled(body);
                    (Tap { replay, state, ..self }, events)
                },
            },
        }
    }
}

/// One outbound transfer: the state machine, the key it seals with, and the
/// window that control packets from the sink are checked against.
pub struct TapSession {
    key: SessionKey,
    request_id: RequestId,
    state: XferSender,
    replay: ReplayWindow,
}

impl View for TapSession {
    type V = Tap;

    closed spec fn view(&self) -> Tap {
        Tap {
            key: self.key@,
            request_id: self.request_id,
            state: self.state@,
            replay: self.replay@,
        }
    }
}

impl TapSession {
    pub closed spec fn wf(&self) -> bool {
        self.state.wf()
    }

    pub fn new(request_id: RequestId, key: SessionKey, cfg: SenderConfig) -> (t: Self)
        ensures
            t.wf(),
            t@ == Tap::armed(key@, request_id, cfg),
            t@ == (Tap {
                key: key@,
                request_id,
                state: Sending::fresh(cfg),
                replay: Seen::nothing(),
            }),
    {
        TapSession { key, request_id, state: XferSender::new(cfg), replay: ReplayWindow::new() }
    }

    pub fn is_done(&self) -> (b: bool)
        ensures
            b == (self@.state.state is Done),
    {
        self.state.is_done()
    }

    /// How the transfer ended: `None` while it is going on, `Ok` once the sink
    /// has confirmed the tail, and the failure if the tap gave up.
    pub fn outcome(&self) -> (r: Option<std::result::Result<(), SendFailure>>)
        ensures
            r == self@.state.outcome(),
    {
        self.state.outcome()
    }

    pub fn can_send(&self) -> (b: bool)
        ensures
            b == self@.state.may_send(),
    {
        self.state.can_send()
    }

    /// Offer one frame; see [`XferSender::push_frame`].
    pub fn push_frame(&mut self, ts: TimestampMs, payload: Vec<u8>, now: Instant) -> (r: Option<
        SendEvent,
    >)
        requires
            old(self).wf(),
        ensures
            final(self).wf(),
            final(self)@ == old(self)@.pushed(ts, payload@, now).0,
            final(self)@ == (Tap {
                state: old(self)@.state.pushed(ts, payload@, now).0,
                ..old(self)@
            }),
            match r {
                Some(e) => {
                    &&& old(self)@.pushed(ts, payload@, now).1 == Some(e@)
                    &&& old(self)@.state.pushed(ts, payload@, now).1 == Some(e@)
                },
                None => {
                    &&& old(self)@.pushed(ts, payload@, now).1 is None
                    &&& old(self)@.state.pushed(ts, payload@, now).1 is None
                },
            },
    {
        self.state.push_frame(ts, payload, now)
    }

    /// Declare the end of the payload; see [`XferSender::finish`].
    pub fn finish(&mut self, now: Instant) -> (r: Option<SendEvent>)
        requires
            old(self).wf(),
        ensures
            final(self).wf(),
            final(self)@ == old(self)@.finished(now).0,
            final(self)@ == (Tap { state: old(self)@.state.finished(now).0, ..old(self)@ }),
            match r {
                Some(e) => {
                    &&& old(self)@.finished(now).1 == Some(e@)
                    &&& old(self)@.state.finished(now).1 == Some(e@)
                },
                None => {
                    &&& old(self)@.finished(now).1 is None
                    &&& old(self)@.state.finished(now).1 is None
                },
            },
    {
        self.state.finish(now)
    }

    /// Drive timers; see [`XferSender::tick`].
    pub fn tick(&mut self, now: Instant) -> (out: Vec<SendEvent>)
        requires
            old(self).wf(),
        ensures
            final(self).wf(),
            final(self)@ == old(self)@.ticked(now).0,
            final(self)@ == (Tap { state: old(self)@.state.ticked(now).0, ..old(self)@ }),
            sent(out@) == old(self)@.ticked(now).1,
            sent(out@) == old(self)@.state.ticked(now).1,
    {
        self.state.tick(now)
    }

    /// Turn one event into what is to be done. A packet is sealed here, once;
    /// only a payload frame is to be recorded, as the exact bytes that go out.
    pub fn prepare(&self, event: SendEvent) -> (r: Result<TapAction>)
        ensures
            match event@ {
                SendEventView::Emit { seq, body } => {
                    let header = self@.header(seq, body);
                    match r {
                        Ok(a) => {
                            &&& a matches TapAction::Transmit { datagram, record }
                            &&& sealed_body(self@.key, header, Direction::Send, body) == Ok::<
                                Seq<u8>,
                                Error,
                            >(datagram@)
                            &&& datagram@.len() <= MAX_DATAGRAM
                            &&& record == if body is Data {
                                Some(seq)
                            } else {
                                None
                            }
                            &&& header.kind.travels() is Send ==> opened_body(
                                self@.key,
                                datagram@,
                                Direction::Send,
                            ) == Ok::<(Header, BodyView), Error>((header, body))
                        },
                        Err(e) => sealed_body(self@.key, header, Direction::Send, body) == Err::<
                            Seq<u8>,
                            Error,
                        >(e),
                    }
                },
                SendEventView::Resend { datagrams } => r matches Ok(a)
                    && a matches TapAction::Retransmit { datagrams: ds } && contents(ds@)
                    == datagrams,
                SendEventView::Completed => r matches Ok(a) && a is Completed,
                SendEventView::Failed(f) => r matches Ok(a) && a == TapAction::Failed(f),
            },
            r is Err <==> (event@ matches SendEventView::Emit { body, .. } && over_limit(
                body,
            ) is Some),
    {
        match event {
            SendEvent::Emit { seq, body } => {
                let record = match &body {
                    Body::Data { .. } => Some(seq),
                    _ => None,
                };
                let header = Header::new(body.kind(), self.request_id, seq.0);
                let datagram = seal_body(&self.key, header, Direction::Send, &body)?;
                Ok(TapAction::Transmit { datagram, record })
            },
            SendEvent::Resend { datagrams } => Ok(TapAction::Retransmit { datagrams }),
            SendEvent::Completed => Ok(TapAction::Completed),
            SendEvent::Failed(f) => Ok(TapAction::Failed(f)),
        }
    }

    /// Keep the bytes of a frame that went out, for retransmission.
    pub fn record(&mut self, seq: XferSeq, datagram: Vec<u8>)
        requires
            old(self).wf(),
        ensures
            final(self).wf(),
            final(self)@ == old(self)@.recorded(seq, datagram@),
            final(self)@ == (Tap {
                state: old(self)@.state.recorded(seq, datagram@),
                ..old(self)@
            }),
    {
        self.state.record_sealed(seq, datagram);
    }

    /// A datagram from the sink. One that does not open, is malformed or is a
    /// replay changes nothing.
    pub fn on_datagram(&mut self, datagram: &[u8], now: Instant) -> (out: Vec<SendEvent>)
        requires
            old(self).wf(),
            openable(datagram@),
        ensures
            final(self).wf(),
            ({
                let packet = opened_body(old(self)@.key, datagram@, Direction::Recv);
                &&& final(self)@ == old(self)@.admitted(packet).0
                &&& sent(out@) == old(self)@.admitted(packet).1
            }),
    {
        let packet = open_body(&self.key, datagram, Direction::Recv);
        self.on_packet(packet, now)
    }

    /// A packet from the sink, or the reason why a datagram is none.
    pub fn on_packet(&mut self, packet: Result<(Header, Body)>, now: Instant) -> (out: Vec<SendEvent>)
        requires
            old(self).wf(),
        ensures
            final(self).wf(),
            ({
                let seen = match packet {
                    Ok((h, b)) => Ok::<(Header, BodyView), Error>((h, b@)),
                    Err(e) => Err::<(Header, BodyView), Error>(e),
                };
                &&& final(self)@ == old(self)@.admitted(seen).0
                &&& sent(out@) == old(self)@.admitted(seen).1
            }),
    {
        let none: Vec<SendEvent> = Vec::new();
        assert(sent(none@) =~= Seq::<SendEventView>::empty());
        match packet {
            Err(_) => none,
            Ok((header, body)) => {
                if guard(&mut self.replay, header) {
                    self.state.handle(body, now)
                } else {
                    none
                }
            },
        }
    }
}

} // verus!
