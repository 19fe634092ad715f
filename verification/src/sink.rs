//! The sink side: many transfers, told apart by request id.
//!
//! A sink arms a request *before* it asks anybody to send, which is why there is
//! no handshake: by the time a tap could possibly send a packet, the entry it
//! belongs to already exists.

use std::collections::BTreeMap;

use vstd::prelude::*;
use vstd::std_specs::iter::IteratorSpec;

use crate::codec::over_limit;
use crate::config::ReceiverConfig;
use crate::crypto::replay::Seen;
use crate::crypto::{openable, request_id_of, ReplayWindow, SessionKey};
use crate::error::{Error, Result};
use crate::feedback::{ack_buffered_ms, occupancy, BufferFeedback, Playhead};
use crate::frame::{Body, BodyView};
use crate::guard::{guard, guarded};
use crate::header::{id_field, prefix_error, Header};
use crate::packet::{open_body, opened_body, seal_body, sealed_body, MAX_DATAGRAM};
use crate::time::{elapsed, Duration, Instant, NANOS_PER_SEC};
use crate::types::{ControlSeq, Direction, RelOutcome, RequestId, XferSeq};
use crate::xfer::receiver::{seen, Frame, FrameView, Receiving, RecvEvent, RecvEventView, XferReceiver};

verus! {

/// What the caller is to do with one of its outputs.
#[derive(Debug, Clone, PartialEq, Eq)]
pub enum SinkAction {
    /// Offer this frame to playback. If playback has no room for it, drop it and
    /// say so with [`SinkSession::note_dropped`]: playback must never be held up
    /// by a slow consumer, and a frame that it has no room for is already stale.
    Playback(Frame),
    /// Give this frame to the cache.
    Cache(Frame),
    /// Send this datagram to the peer.
    Reply(Vec<u8>),
    /// Tell the cache how its stream ended.
    Outcome(RelOutcome),
}

/// A [`SinkAction`] with its vectors taken as sequences.
#[verifier::ext_equal]
pub enum SinkActionView {
    Playback(FrameView),
    Cache(FrameView),
    Reply(Seq<u8>),
    Outcome(RelOutcome),
}

impl View for SinkAction {
    type V = SinkActionView;

    open spec fn view(&self) -> SinkActionView {
        match *self {
            SinkAction::Playback(f) => SinkActionView::Playback(f@),
            SinkAction::Cache(f) => SinkActionView::Cache(f@),
            SinkAction::Reply(d) => SinkActionView::Reply(d@),
            SinkAction::Outcome(o) => SinkActionView::Outcome(o),
        }
    }
}

/// The views of a list of actions.
pub open spec fn done(actions: Seq<SinkAction>) -> Seq<SinkActionView> {
    actions.map_values(|a: SinkAction| a@)
}

/// How often dropped playback frames may be complained about, in seconds.
pub const DROP_WARN_SECS: u64 = 5;

/// The state of a [`SinkSession`].
#[verifier::ext_equal]
pub struct Sink<A> {
    pub key: Seq<u8>,
    pub state: Receiving,
    pub replay: Seen,
    /// Where replies go.
    pub peer: Option<A>,
    /// Counter of the next reply.
    pub control_seq: u32,
    /// Whether the outcome of the reliable stream has been handed up.
    pub outcome_told: bool,
    /// Timestamp of the newest frame received.
    pub newest_data_ms: u64,
    /// Playback frames that were dropped.
    pub dropped_unrel: u64,
    pub last_drop_warn: Option<Instant>,
}

impl<A> Sink<A> {
    /// A transfer that nothing has arrived for yet.
    pub open spec fn armed(key: Seq<u8>, cfg: ReceiverConfig, now: Instant) -> Sink<A> {
        Sink {
            key,
            state: Receiving::fresh(cfg, now),
            replay: Seen::nothing(),
            peer: None,
            control_seq: 0,
            outcome_told: false,
            newest_data_ms: 0,
            dropped_unrel: 0,
            last_drop_warn: None,
        }
    }

    /// A packet from the tap: it changes nothing unless it opens, is well
    /// formed, and is no replay. The first that does fixes where replies go.
    pub open spec fn admitted(
        self,
        packet: std::result::Result<(Header, BodyView), Error>,
        from: A,
        now: Instant,
    ) -> (Sink<A>, Option<Seq<RecvEventView>>) {
        match packet {
            Err(_) => (self, None),
            Ok((header, body)) => match guarded(self.replay, header) {
                None => (self, None),
                Some(replay) => {
                    let (state, events) = self.state.handled(XferSeq(header.seq), body, now);
                    (
                        Sink {
                            replay,
                            state,
                            peer: if self.peer is None {
                                Some(from)
                            } else {
                                self.peer
                            },
                            ..self
                        },
                        Some(events),
                    )
                },
            },
        }
    }

    /// The timers of the transfer are driven.
    pub open spec fn driven(self, now: Instant) -> (Sink<A>, Seq<RecvEventView>) {
        let (state, events) = self.state.ticked(now);
        (Sink { state, ..self }, events)
    }

    /// The header of the next reply.
    pub open spec fn reply_header(self, id: RequestId, body: BodyView) -> Header {
        Header { kind: body.kind(), request_id: id, seq: self.control_seq }
    }

    /// A reply: it is sealed under the next counter, which is used up.
    pub open spec fn replied(self, id: RequestId, body: BodyView) -> (Sink<A>, Option<Seq<u8>>) {
        (
            Sink {
                control_seq: if self.control_seq < u32::MAX {
                    (self.control_seq + 1) as u32
                } else {
                    0
                },
                ..self
            },
            match sealed_body(self.key, self.reply_header(id, body), Direction::Recv, body) {
                Ok(d) => Some(d),
                Err(_) => None,
            },
        )
    }

    /// Note the timestamp of a frame. A maximum rather than the latest: the
    /// unreliable stream reorders, and a late arrival must not make the sender
    /// look further ahead than it is.
    pub open spec fn noted(self, f: FrameView) -> Sink<A> {
        Sink {
            newest_data_ms: if self.newest_data_ms < f.ts.0 {
                f.ts.0
            } else {
                self.newest_data_ms
            },
            ..self
        }
    }

    /// What a reply says: the occupancy comes from the sink's report, not from
    /// the state machine.
    pub open spec fn reply_to(
        self,
        e: RecvEventView,
        feedback: Playhead,
        now: Instant,
    ) -> Option<BodyView> {
        match e {
            RecvEventView::SendNack { missing } => Some(BodyView::Nack { missing }),
            RecvEventView::SendAck { contiguous, highest, buffered_ms } => Some(
                BodyView::Ack {
                    contiguous,
                    highest,
                    buffered_ms: occupancy(feedback, buffered_ms, self.newest_data_ms, now),
                },
            ),
            RecvEventView::SendEndAck => Some(BodyView::EndAck),
            _ => None,
        }
    }

    /// What one event of the state machine leads to.
    pub open spec fn applied_one(
        self,
        id: RequestId,
        e: RecvEventView,
        feedback: Playhead,
        now: Instant,
    ) -> (Sink<A>, Seq<SinkActionView>) {
        match e {
            RecvEventView::Unreliable(f) => (self.noted(f), seq![SinkActionView::Playback(f)]),
            RecvEventView::Reliable(f) => (self.noted(f), seq![SinkActionView::Cache(f)]),
            RecvEventView::RelFinished(o) => if self.outcome_told {
                (self, Seq::empty())
            } else {
                (Sink { outcome_told: true, ..self }, seq![SinkActionView::Outcome(o)])
            },
            RecvEventView::Closed => (self, Seq::empty()),
            RecvEventView::SendNack { .. }
            | RecvEventView::SendAck { .. }
            | RecvEventView::SendEndAck => {
                let (s, d) = self.replied(id, self.reply_to(e, feedback, now)->0);
                (
                    s,
                    match d {
                        Some(d) => seq![SinkActionView::Reply(d)],
                        None => Seq::empty(),
                    },
                )
            },
        }
    }

    /// What a list of events of the state machine leads to.
    pub open spec fn applied(
        self,
        id: RequestId,
        events: Seq<RecvEventView>,
        feedback: Playhead,
        now: Instant,
    ) -> (Sink<A>, Seq<SinkActionView>)
        decreases events.len(),
    {
        if events.len() == 0 {
            (self, Seq::empty())
        } else {
            let (s, actions) = self.applied(id, events.drop_last(), feedback, now);
            let (t, more) = s.applied_one(id, events.last(), feedback, now);
            (t, actions + more)
        }
    }

    /// Whether it is time to complain about a dropped frame.
    pub open spec fn complains(self, now: Instant) -> bool {
        self.last_drop_warn matches Some(last) ==> elapsed(now@ as int, last@ as int)
            >= DROP_WARN_SECS * NANOS_PER_SEC
    }

    /// What is said about a dropped frame: how many were dropped so far, if it is
    /// time to complain.
    pub open spec fn complaint(self, now: Instant) -> Option<u64> {
        if self.complains(now) {
            Some(self.dropped(now).dropped_unrel)
        } else {
            None
        }
    }

    /// A playback frame was dropped.
    pub open spec fn dropped(self, now: Instant) -> Sink<A> {
        Sink {
            dropped_unrel: if self.dropped_unrel < u64::MAX {
                (self.dropped_unrel + 1) as u64
            } else {
                u64::MAX
            },
            last_drop_warn: if self.complains(now) {
                Some(now)
            } else {
                self.last_drop_warn
            },
            ..self
        }
    }
}

/// One inbound transfer: the state machine, the key it is sealed with, and what
/// the endpoint knows about its two ends.
pub struct SinkSession<A> {
    key: SessionKey,
    state: XferReceiver,
    replay: ReplayWindow,
    /// Learned from the first authentic packet and then fixed, so a later packet
    /// claiming the same request id cannot redirect our replies.
    peer: Option<A>,
    control_seq: ControlSeq,
    /// The cache is told of one outcome and no second.
    outcome_told: bool,
    /// Timestamp of the newest frame this endpoint has received.
    newest_data_ms: u64,
    /// Playback frames that had to be discarded because the sink was not
    /// draining fast enough. Uncounted, such a drop is invisible: the sender is
    /// never told and the application never sees the frame.
    dropped_unrel: u64,
    last_drop_warn: Option<Instant>,
}

impl<A> View for SinkSession<A> {
    type V = Sink<A>;

    closed spec fn view(&self) -> Sink<A> {
        Sink {
            key: self.key@,
            state: self.state@,
            replay: self.replay@,
            peer: self.peer,
            control_seq: self.control_seq.0,
            outcome_told: self.outcome_told,
            newest_data_ms: self.newest_data_ms,
            dropped_unrel: self.dropped_unrel,
            last_drop_warn: self.last_drop_warn,
        }
    }
}

/// Whether `d` is a packet that the tap reads as the reply `body` to `id`.
pub open spec fn reads_as(key: Seq<u8>, d: Seq<u8>, header: Header, body: BodyView) -> bool {
    opened_body(key, d, Direction::Recv) == Ok::<(Header, BodyView), Error>((header, body))
}

/// The datagrams to be sent among `actions`.
pub open spec fn replies(actions: Seq<SinkActionView>) -> Seq<Seq<u8>>
    decreases actions.len(),
{
    if actions.len() == 0 {
        Seq::empty()
    } else {
        let rest = replies(actions.drop_last());
        match actions.last() {
            SinkActionView::Reply(d) => rest.push(d),
            _ => rest,
        }
    }
}

/// Whether the tap reads `datagrams` as `packets`, one for one, and each is short
/// enough to travel in one piece.
pub open spec fn all_read(
    key: Seq<u8>,
    datagrams: Seq<Seq<u8>>,
    packets: Seq<(Header, BodyView)>,
) -> bool {
    &&& datagrams.len() == packets.len()
    &&& forall|i: int|
        0 <= i < datagrams.len() ==> (#[trigger] datagrams[i]).len() <= MAX_DATAGRAM && reads_as(
            key,
            datagrams[i],
            packets[i].0,
            packets[i].1,
        )
}

impl<A> Sink<A> {
    /// The replies that `events` lead to, as the tap is to read them, in order. A
    /// reply that is too large to be sent is none.
    pub open spec fn replying(
        self,
        id: RequestId,
        events: Seq<RecvEventView>,
        feedback: Playhead,
        now: Instant,
    ) -> Seq<(Header, BodyView)>
        decreases events.len(),
    {
        if events.len() == 0 {
            Seq::empty()
        } else {
            let rest = self.replying(id, events.drop_last(), feedback, now);
            let s = self.applied(id, events.drop_last(), feedback, now).0;
            match s.reply_to(events.last(), feedback, now) {
                Some(body) => if over_limit(body) is None {
                    rest.push((s.reply_header(id, body), body))
                } else {
                    rest
                },
                None => rest,
            }
        }
    }
}

impl<A: Copy> SinkSession<A> {
    pub closed spec fn wf(&self) -> bool {
        self.state.wf()
    }

    pub fn new(key: SessionKey, cfg: ReceiverConfig, now: Instant) -> (s: Self)
        ensures
            s.wf(),
            s@ == Sink::<A>::armed(key@, cfg, now),
    {
        SinkSession {
            key,
            state: XferReceiver::new(cfg, now),
            replay: ReplayWindow::new(),
            peer: None,
            control_seq: ControlSeq::first(),
            outcome_told: false,
            newest_data_ms: 0,
            dropped_unrel: 0,
            last_drop_warn: None,
        }
    }

    /// Where replies go, once a packet has been authenticated.
    pub fn peer(&self) -> (p: Option<A>)
        ensures
            p == self@.peer,
    {
        self.peer
    }

    pub fn is_closed(&self) -> (b: bool)
        ensures
            b == self@.state.closed,
    {
        self.state.is_closed()
    }

    /// A datagram from the tap. One that does not open, is malformed or is a
    /// replay changes nothing.
    pub fn on_datagram(&mut self, datagram: &[u8], from: A, now: Instant) -> (r: Option<
        Vec<RecvEvent>,
    >)
        requires
            old(self).wf(),
            openable(datagram@),
        ensures
            final(self).wf(),
            ({
                let packet = opened_body(old(self)@.key, datagram@, Direction::Send);
                &&& final(self)@ == old(self)@.admitted(packet, from, now).0
                &&& match r {
                    Some(events) => old(self)@.admitted(packet, from, now).1 == Some(seen(events@)),
                    None => old(self)@.admitted(packet, from, now).1 is None,
                }
            }),
    {
        let packet = open_body(&self.key, datagram, Direction::Send);
        self.on_packet(packet, from, now)
    }

    /// A packet from the tap, or the reason why a datagram is none.
    pub fn on_packet(&mut self, packet: Result<(Header, Body)>, from: A, now: Instant) -> (r: Option<
        Vec<RecvEvent>,
    >)
        requires
            old(self).wf(),
        ensures
            final(self).wf(),
            ({
                let read = match packet {
                    Ok((h, b)) => Ok::<(Header, BodyView), Error>((h, b@)),
                    Err(e) => Err::<(Header, BodyView), Error>(e),
                };
                &&& final(self)@ == old(self)@.admitted(read, from, now).0
                &&& match r {
                    Some(events) => old(self)@.admitted(read, from, now).1 == Some(seen(events@)),
                    None => old(self)@.admitted(read, from, now).1 is None,
                }
            }),
    {
        match packet {
            Err(_) => None,
            Ok((header, body)) => {
                if !guard(&mut self.replay, header) {
                    return None;
                }
                // Only now, past the tag, is the source address worth believing.
                if self.peer.is_none() {
                    self.peer = Some(from);
                }
                Some(self.state.handle(XferSeq(header.seq), body, now))
            },
        }
    }

    /// Drive the timers of the transfer.
    pub fn tick(&mut self, now: Instant) -> (events: Vec<RecvEvent>)
        requires
            old(self).wf(),
        ensures
            final(self).wf(),
            final(self)@ == old(self)@.driven(now).0,
            final(self)@ == (Sink { state: old(self)@.state.ticked(now).0, ..old(self)@ }),
            seen(events@) == old(self)@.driven(now).1,
            seen(events@) == old(self)@.state.ticked(now).1,
    {
        self.state.tick(now)
    }

    /// Seal a reply. It opens, on the other side, to the body it was made of.
    fn seal(&mut self, id: RequestId, body: Body) -> (r: Option<Vec<u8>>)
        requires
            old(self).wf(),
        ensures
            final(self).wf(),
            final(self)@ == old(self)@.replied(id, body@).0,
            match r {
                Some(d) => {
                    &&& old(self)@.replied(id, body@).1 == Some(d@)
                    &&& d@.len() <= MAX_DATAGRAM
                    &&& body@.kind().travels() is Recv ==> reads_as(
                        old(self)@.key,
                        d@,
                        old(self)@.reply_header(id, body@),
                        body@,
                    )
                },
                None => old(self)@.replied(id, body@).1 is None,
            },
            r is Some <==> over_limit(body@) is None,
    {
        let seq = self.control_seq;
        self.control_seq = seq.next();
        let header = Header::new(body.kind(), id, seq.0);
        match seal_body(&self.key, header, Direction::Recv, &body) {
            Ok(d) => Some(d),
            Err(_) => None,
        }
    }

    /// Turn one event of the state machine into what is to be done.
    pub fn apply_one(
        &mut self,
        id: RequestId,
        event: RecvEvent,
        feedback: &BufferFeedback,
        now: Instant,
    ) -> (r: Option<SinkAction>)
        requires
            old(self).wf(),
        ensures
            final(self).wf(),
            final(self)@ == old(self)@.applied_one(id, event@, feedback@, now).0,
            ({
                let actions = old(self)@.applied_one(id, event@, feedback@, now).1;
                match r {
                    Some(a) => actions == seq![a@],
                    None => actions.len() == 0,
                }
            }),
            r matches Some(a) ==> (a@ matches SinkActionView::Reply(d) ==> {
                let body = old(self)@.reply_to(event@, feedback@, now)->0;
                d.len() <= MAX_DATAGRAM && reads_as(
                    old(self)@.key,
                    d,
                    old(self)@.reply_header(id, body),
                    body,
                )
            }),
            old(self)@.reply_to(event@, feedback@, now) matches Some(body) ==> (r is Some
                <==> over_limit(body) is None),
    {
        match event {
            RecvEvent::Unreliable(f) => {
                self.note(&f);
                Some(SinkAction::Playback(f))
            },
            RecvEvent::Reliable(f) => {
                self.note(&f);
                Some(SinkAction::Cache(f))
            },
            RecvEvent::SendNack { missing } => match self.seal(id, Body::Nack { missing }) {
                Some(d) => Some(SinkAction::Reply(d)),
                None => None,
            },
            RecvEvent::SendAck { contiguous, highest, buffered_ms } => {
                let buffered_ms = ack_buffered_ms(
                    feedback,
                    buffered_ms,
                    self.newest_data_ms,
                    now,
                );
                match self.seal(id, Body::Ack { contiguous, highest, buffered_ms }) {
                    Some(d) => Some(SinkAction::Reply(d)),
                    None => None,
                }
            },
            RecvEvent::SendEndAck => match self.seal(id, Body::EndAck) {
                Some(d) => Some(SinkAction::Reply(d)),
                None => None,
            },
            RecvEvent::RelFinished(outcome) => {
                if self.outcome_told {
                    return None;
                }
                self.outcome_told = true;
                Some(SinkAction::Outcome(outcome))
            },
            RecvEvent::Closed => None,
        }
    }

    fn note(&mut self, f: &Frame)
        requires
            old(self).wf(),
        ensures
            final(self).wf(),
            final(self)@ == old(self)@.noted(f@),
    {
        if self.newest_data_ms < f.ts.0 {
            self.newest_data_ms = f.ts.0;
        }
    }

    /// Turn the events of the state machine into what is to be done.
    pub fn apply(
        &mut self,
        id: RequestId,
        events: Vec<RecvEvent>,
        feedback: &BufferFeedback,
        now: Instant,
    ) -> (out: Vec<SinkAction>)
        requires
            old(self).wf(),
        ensures
            final(self).wf(),
            final(self)@ == old(self)@.applied(id, seen(events@), feedback@, now).0,
            done(out@) == old(self)@.applied(id, seen(events@), feedback@, now).1,
            final(self)@.key == old(self)@.key,
            all_read(
                old(self)@.key,
                replies(done(out@)),
                old(self)@.replying(id, seen(events@), feedback@, now),
            ),
    {
        let ghost before = self@;
        let ghost all = seen(events@);
        let mut out: Vec<SinkAction> = Vec::new();
        proof {
            assert(done(out@) =~= Seq::<SinkActionView>::empty());
            assert(all.take(0) =~= Seq::<RecvEventView>::empty());
        }
        for event in it: events
            invariant
                self.wf(),
                self@.key == before.key,
                before == old(self)@,
                all_read(
                    before.key,
                    replies(done(out@)),
                    before.replying(id, all.take(it.index() as int), feedback@, now),
                ),
                all == seen(it.seq()),
                self@ == before.applied(id, all.take(it.index() as int), feedback@, now).0,
                done(out@) == before.applied(id, all.take(it.index() as int), feedback@, now).1,
        {
            let ghost so_far = done(out@);
            let ghost i = it.index() as int;
            proof {
                assert(all.take(i + 1).drop_last() =~= all.take(i));
                assert(all[i] == event@);
            }
            if let Some(a) = self.apply_one(id, event, feedback, now) {
                out.push(a);
                assert(done(out@) =~= so_far + seq![a@]);
                assert(done(out@).drop_last() =~= so_far);
            } else {
                assert(done(out@) =~= so_far + Seq::<SinkActionView>::empty());
            }
        }
        assert(all.take(all.len() as int) =~= all);
        out
    }

    /// Count a dropped playback frame. Returns the count when it is time to
    /// complain about it.
    pub fn note_dropped(&mut self, now: Instant) -> (r: Option<u64>)
        requires
            old(self).wf(),
        ensures
            final(self).wf(),
            final(self)@ == old(self)@.dropped(now),
            r == old(self)@.complaint(now),
            r == if old(self)@.complains(now) {
                Some(final(self)@.dropped_unrel)
            } else {
                None
            },
    {
        self.dropped_unrel = self.dropped_unrel.saturating_add(1);
        let complain = match self.last_drop_warn {
            Some(last) => now.duration_since(last).as_nanos() >= Duration::from_secs(
                DROP_WARN_SECS,
            ).as_nanos(),
            None => true,
        };
        if complain {
            self.last_drop_warn = Some(now);
            Some(self.dropped_unrel)
        } else {
            None
        }
    }
}

/// A request id that is armed already.
#[derive(Debug, Clone, Copy, PartialEq, Eq)]
pub struct DuplicateRequest(pub RequestId);

/// What one packet or one tick of a transfer leads to.
#[derive(Debug, Clone, PartialEq, Eq)]
pub struct SinkStep<A> {
    pub request_id: RequestId,
    pub actions: Vec<SinkAction>,
    /// Where the replies among `actions` go.
    pub peer: Option<A>,
    /// The transfer is over: disarm it once `actions` are done.
    pub finished: bool,
}

/// A [`SinkStep`] with its vectors taken as sequences.
#[verifier::ext_equal]
pub struct SinkStepView<A> {
    pub request_id: RequestId,
    pub actions: Seq<SinkActionView>,
    pub peer: Option<A>,
    pub finished: bool,
}

impl<A> View for SinkStep<A> {
    type V = SinkStepView<A>;

    open spec fn view(&self) -> SinkStepView<A> {
        SinkStepView {
            request_id: self.request_id,
            actions: done(self.actions@),
            peer: self.peer,
            finished: self.finished,
        }
    }
}

/// The transfer that a datagram names, before anything about it is believed.
pub open spec fn routed(datagram: Seq<u8>) -> Option<RequestId> {
    match prefix_error(datagram) {
        Some(_) => None,
        None => Some(id_field(datagram)),
    }
}

impl<A> Sink<A> {
    /// What the events of the state machine lead to, as one step.
    pub open spec fn stepped(
        self,
        id: RequestId,
        events: Seq<RecvEventView>,
        feedback: Playhead,
        now: Instant,
    ) -> (Sink<A>, SinkStepView<A>) {
        let (s, actions) = self.applied(id, events, feedback, now);
        (
            s,
            SinkStepView {
                request_id: id,
                actions,
                peer: s.peer,
                finished: s.state.closed,
            },
        )
    }

    /// A packet from the tap, as one step.
    pub open spec fn received(
        self,
        id: RequestId,
        packet: std::result::Result<(Header, BodyView), Error>,
        from: A,
        feedback: Playhead,
        now: Instant,
    ) -> (Sink<A>, Option<SinkStepView<A>>) {
        let (s, events) = self.admitted(packet, from, now);
        match events {
            None => (s, None),
            Some(events) => {
                let (t, step) = s.stepped(id, events, feedback, now);
                (t, Some(step))
            },
        }
    }

    /// The replies to a packet, as the tap is to read them.
    pub open spec fn received_replies(
        self,
        id: RequestId,
        packet: std::result::Result<(Header, BodyView), Error>,
        from: A,
        feedback: Playhead,
        now: Instant,
    ) -> Seq<(Header, BodyView)> {
        let (s, events) = self.admitted(packet, from, now);
        match events {
            None => Seq::empty(),
            Some(events) => s.replying(id, events, feedback, now),
        }
    }

    /// The replies that a tick leads to, as the tap is to read them.
    pub open spec fn ticked_replies(self, id: RequestId, feedback: Playhead, now: Instant) -> Seq<
        (Header, BodyView),
    > {
        let (s, events) = self.driven(now);
        s.replying(id, events, feedback, now)
    }

    /// A tick, as one step.
    pub open spec fn ticked(self, id: RequestId, feedback: Playhead, now: Instant) -> (
        Sink<A>,
        SinkStepView<A>,
    ) {
        let (s, events) = self.driven(now);
        s.stepped(id, events, feedback, now)
    }
}

/// The transfers after a request has been registered, and whether it was: one that
/// is registered already stays as it is.
pub open spec fn arming<A>(
    all: Map<u128, Sink<A>>,
    id: RequestId,
    key: Seq<u8>,
    cfg: ReceiverConfig,
    now: Instant,
) -> (Map<u128, Sink<A>>, bool) {
    if all.contains_key(id.0) {
        (all, false)
    } else {
        (all.insert(id.0, Sink::armed(key, cfg, now)), true)
    }
}

/// The transfers after a request has been forgotten.
pub open spec fn disarming<A>(all: Map<u128, Sink<A>>, id: RequestId) -> Map<u128, Sink<A>> {
    all.remove(id.0)
}

/// The transfers after a datagram from anywhere, and what it leads to.
pub open spec fn receiving<A>(
    all: Map<u128, Sink<A>>,
    datagram: Seq<u8>,
    from: A,
    feedback: Playhead,
    now: Instant,
) -> (Map<u128, Sink<A>>, Option<SinkStepView<A>>) {
    match routed(datagram) {
        Some(id) if all.contains_key(id.0) => {
            let s = all[id.0];
            let packet = opened_body(s.key, datagram, Direction::Send);
            let (t, step) = s.received(id, packet, from, feedback, now);
            (all.insert(id.0, t), step)
        },
        _ => (all, None),
    }
}

/// The transfers after the timers of one have been driven, and what that leads to.
pub open spec fn ticking<A>(
    all: Map<u128, Sink<A>>,
    id: RequestId,
    feedback: Playhead,
    now: Instant,
) -> (Map<u128, Sink<A>>, Option<SinkStepView<A>>) {
    if all.contains_key(id.0) {
        let (t, step) = all[id.0].ticked(id, feedback, now);
        (all.insert(id.0, t), Some(step))
    } else {
        (all, None)
    }
}

/// The transfers after a playback frame of one was dropped, and what is said of it.
pub open spec fn dropping<A>(all: Map<u128, Sink<A>>, id: RequestId, now: Instant) -> (
    Map<u128, Sink<A>>,
    Option<u64>,
) {
    if all.contains_key(id.0) {
        let s = all[id.0];
        (all.insert(id.0, s.dropped(now)), s.complaint(now))
    } else {
        (all, None)
    }
}

/// Any number of transfers on one socket.
pub struct SinkTable<A> {
    entries: BTreeMap<u128, SinkSession<A>>,
}

impl<A> View for SinkTable<A> {
    type V = Map<u128, Sink<A>>;

    closed spec fn view(&self) -> Map<u128, Sink<A>> {
        self.entries@.map_values(|s: SinkSession<A>| s@)
    }
}

impl<A: Copy> SinkTable<A> {
    pub closed spec fn wf(&self) -> bool {
        forall|k: u128| #[trigger] self.entries@.contains_key(k) ==> self.entries@[k].wf()
    }

    pub fn new() -> (t: Self)
        ensures
            t.wf(),
            t@ == Map::<u128, Sink<A>>::empty(),
    {
        let t = SinkTable { entries: BTreeMap::new() };
        assert(t@ =~= Map::<u128, Sink<A>>::empty());
        t
    }

    pub fn is_armed(&self, id: RequestId) -> (b: bool)
        ensures
            b == self@.contains_key(id.0),
    {
        self.entries.contains_key(&id.0)
    }

    /// Register a request. Call this *before* anybody is asked to send.
    pub fn arm(&mut self, id: RequestId, key: SessionKey, cfg: ReceiverConfig, now: Instant) -> (r:
        std::result::Result<(), DuplicateRequest>)
        requires
            old(self).wf(),
        ensures
            final(self).wf(),
            final(self)@ == arming(old(self)@, id, key@, cfg, now).0,
            r is Ok == arming(old(self)@, id, key@, cfg, now).1,
            match r {
                Ok(_) => {
                    &&& !old(self)@.contains_key(id.0)
                    &&& final(self)@ == old(self)@.insert(id.0, Sink::armed(key@, cfg, now))
                },
                Err(e) => {
                    &&& old(self)@.contains_key(id.0)
                    &&& e == DuplicateRequest(id)
                    &&& final(self)@ == old(self)@
                },
            },
    {
        if self.entries.contains_key(&id.0) {
            return Err(DuplicateRequest(id));
        }
        self.entries.insert(id.0, SinkSession::new(key, cfg, now));
        assert(self@ =~= old(self)@.insert(id.0, Sink::armed(key@, cfg, now)));
        Ok(())
    }

    /// Forget a request, whether or not it was armed.
    pub fn disarm(&mut self, id: RequestId)
        requires
            old(self).wf(),
        ensures
            final(self).wf(),
            final(self)@ == disarming(old(self)@, id),
            final(self)@ == old(self)@.remove(id.0),
    {
        self.entries.remove(&id.0);
        assert(self@ =~= old(self)@.remove(id.0));
    }

    /// A datagram from anywhere. It is routed by the request id in its header,
    /// and believed only once it has been opened with that request's key; a
    /// stray or spoofed one is dropped without ceremony.
    pub fn on_datagram(
        &mut self,
        datagram: &[u8],
        from: A,
        feedback: &BufferFeedback,
        now: Instant,
    ) -> (r: Option<SinkStep<A>>)
        requires
            old(self).wf(),
            openable(datagram@),
        ensures
            final(self).wf(),
            final(self)@ == receiving(old(self)@, datagram@, from, feedback@, now).0,
            match r {
                Some(x) => receiving(old(self)@, datagram@, from, feedback@, now).1 == Some(x@),
                None => receiving(old(self)@, datagram@, from, feedback@, now).1 is None,
            },
            match routed(datagram@) {
                Some(id) if old(self)@.contains_key(id.0) => {
                    let s = old(self)@[id.0];
                    let packet = opened_body(s.key, datagram@, Direction::Send);
                    let (t, step) = s.received(id, packet, from, feedback@, now);
                    &&& final(self)@ == old(self)@.insert(id.0, t)
                    &&& match r {
                        Some(x) => step == Some(x@),
                        None => step is None,
                    }
                },
                _ => r is None && final(self)@ == old(self)@,
            },
            r matches Some(x) ==> {
                let s = old(self)@[x.request_id.0];
                let packet = opened_body(s.key, datagram@, Direction::Send);
                all_read(
                    s.key,
                    replies(x@.actions),
                    s.received_replies(x.request_id, packet, from, feedback@, now),
                )
            },
    {
        let id = match request_id_of(datagram) {
            Ok(id) => id,
            Err(_) => return None,
        };
        match self.entries.remove(&id.0) {
            None => {
                assert(self@ =~= old(self)@);
                None
            },
            Some(mut session) => {
                let mut step: Option<SinkStep<A>> = None;
                if let Some(events) = session.on_datagram(datagram, from, now) {
                    step = Some(Self::perform(&mut session, id, events, feedback, now));
                }
                self.entries.insert(id.0, session);
                assert(self@ =~= old(self)@.insert(id.0, session@));
                step
            },
        }
    }

    /// Drive the timers of one transfer.
    pub fn tick(&mut self, id: RequestId, feedback: &BufferFeedback, now: Instant) -> (r: Option<
        SinkStep<A>,
    >)
        requires
            old(self).wf(),
        ensures
            final(self).wf(),
            final(self)@ == ticking(old(self)@, id, feedback@, now).0,
            match r {
                Some(x) => ticking(old(self)@, id, feedback@, now).1 == Some(x@),
                None => ticking(old(self)@, id, feedback@, now).1 is None,
            },
            if old(self)@.contains_key(id.0) {
                let (t, step) = old(self)@[id.0].ticked(id, feedback@, now);
                &&& final(self)@ == old(self)@.insert(id.0, t)
                &&& r matches Some(x) && x@ == step
            } else {
                r is None && final(self)@ == old(self)@
            },
            r matches Some(x) ==> all_read(
                old(self)@[id.0].key,
                replies(x@.actions),
                old(self)@[id.0].ticked_replies(id, feedback@, now),
            ),
    {
        match self.entries.remove(&id.0) {
            None => {
                assert(self@ =~= old(self)@);
                None
            },
            Some(mut session) => {
                let events = session.tick(now);
                let step = Self::perform(&mut session, id, events, feedback, now);
                self.entries.insert(id.0, session);
                assert(self@ =~= old(self)@.insert(id.0, session@));
                Some(step)
            },
        }
    }

    fn perform(
        session: &mut SinkSession<A>,
        id: RequestId,
        events: Vec<RecvEvent>,
        feedback: &BufferFeedback,
        now: Instant,
    ) -> (step: SinkStep<A>)
        requires
            old(session).wf(),
        ensures
            final(session).wf(),
            final(session)@ == old(session)@.stepped(id, seen(events@), feedback@, now).0,
            step@ == old(session)@.stepped(id, seen(events@), feedback@, now).1,
            all_read(
                old(session)@.key,
                replies(step@.actions),
                old(session)@.replying(id, seen(events@), feedback@, now),
            ),
    {
        let actions = session.apply(id, events, feedback, now);
        SinkStep {
            request_id: id,
            actions,
            peer: session.peer(),
            finished: session.is_closed(),
        }
    }

    /// Count a playback frame of this request that had to be dropped. Returns
    /// the count when it is time to complain about it.
    pub fn note_dropped(&mut self, id: RequestId, now: Instant) -> (r: Option<u64>)
        requires
            old(self).wf(),
        ensures
            final(self).wf(),
            final(self)@ == dropping(old(self)@, id, now).0,
            r == dropping(old(self)@, id, now).1,
            if old(self)@.contains_key(id.0) {
                let s = old(self)@[id.0];
                &&& final(self)@ == old(self)@.insert(id.0, s.dropped(now))
                &&& r == if s.complains(now) {
                    Some(s.dropped(now).dropped_unrel)
                } else {
                    None
                }
            } else {
                r is None && final(self)@ == old(self)@
            },
    {
        match self.entries.remove(&id.0) {
            None => {
                assert(self@ =~= old(self)@);
                None
            },
            Some(mut session) => {
                let r = session.note_dropped(now);
                self.entries.insert(id.0, session);
                assert(self@ =~= old(self)@.insert(id.0, session@));
                r
            },
        }
    }

    /// The requests that are armed, each once.
    pub fn ids(&self) -> (ids: Vec<RequestId>)
        ensures
            ids@.no_duplicates(),
            forall|id: RequestId| #[trigger] ids@.contains(id) <==> self@.contains_key(id.0),
    {
        let ghost order = self.entries.keys().remaining().unref();
        let mut ids: Vec<RequestId> = Vec::new();
        for k in it: self.entries.keys()
            invariant
                it.seq().unref() == order,
                it.seq().len() == order.len(),
                order.to_set() == self.entries@.dom(),
                it.seq().no_duplicates(),
                ids@.len() == it.index(),
                forall|i: int| 0 <= i < ids@.len() ==> (#[trigger] ids@[i]).0 == order[i],
                forall|i: int, j: int|
                    0 <= i < j < order.len() ==> #[trigger] order[i] != #[trigger] order[j],
        {
            assert(order[it.index() as int] == *k);
            ids.push(RequestId(*k));
        }
        proof {
            assert(ids@.len() == order.len());
            assert forall|i: int, j: int|
                0 <= i < ids@.len() && 0 <= j < ids@.len() && i != j implies ids@[i] != ids@[j] by {
                assert(order[i] != order[j]);
            }
            assert forall|id: RequestId| #[trigger]
                ids@.contains(id) <==> self@.contains_key(id.0) by {
                if self@.contains_key(id.0) {
                    assert(order.to_set().contains(id.0));
                    let i = choose|i: int| 0 <= i < order.len() && order[i] == id.0;
                    assert(ids@[i] == id);
                }
                if ids@.contains(id) {
                    let i = choose|i: int| 0 <= i < ids@.len() && ids@[i] == id;
                    assert(order.contains(order[i]));
                    assert(order.to_set().contains(order[i]));
                }
            }
        }
        ids
    }
}

} // verus!
