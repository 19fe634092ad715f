//! What holds of a sink's transfers over many packets.

use vstd::prelude::*;

use crate::config::ReceiverConfig;
use crate::crypto::{lemma_nonce_injective, nonce_of};
use crate::error::Error;
use crate::feedback::Playhead;
use crate::frame::BodyView;
use crate::guard::{guarded, lemma_a_control_packet_passes_once, passed};
use crate::header::Header;
use crate::packet::sealed_body;
use crate::sink::{replies, Sink, SinkActionView, SinkStepView};
use crate::time::Instant;
use crate::types::{Direction, RelOutcome, RequestId, XferSeq};
use crate::xfer::receiver::{FrameView, Receiving, RecvEventView};
use crate::xfer::recv_laws::{account, declared, first_fed, lemma_complete_is_complete, lemma_duplicates_are_played_once, lemma_the_outcome_comes_last, lemma_the_outcome_is_reported_once, lemma_the_reliable_stream_is_gap_free, numbers, outcome_comes_last, RecvInput};

verus! {

/// The frame that an event hands up, if it hands one up.
pub open spec fn handed_up(e: RecvEventView) -> Option<FrameView> {
    match e {
        RecvEventView::Unreliable(f) => Some(f),
        RecvEventView::Reliable(f) => Some(f),
        _ => None,
    }
}

pub proof fn lemma_applied<A>(
    s: Sink<A>,
    id: RequestId,
    events: Seq<RecvEventView>,
    feedback: Playhead,
    now: Instant,
)
    ensures
        ({
            let t = s.applied(id, events, feedback, now).0;
            &&& t.key == s.key
            &&& t.peer == s.peer
            &&& t.replay == s.replay
            &&& t.state == s.state
            &&& t.newest_data_ms >= s.newest_data_ms
            &&& forall|i: int|
                0 <= i < events.len() ==> (handed_up(#[trigger] events[i]) matches Some(f)
                    ==> t.newest_data_ms >= f.ts.0)
        }),
    decreases events.len(),
{
    if events.len() > 0 {
        lemma_applied(s, id, events.drop_last(), feedback, now);
        let t = s.applied(id, events, feedback, now).0;
        assert forall|i: int| 0 <= i < events.len() implies (handed_up(
            #[trigger] events[i],
        ) matches Some(f) ==> t.newest_data_ms >= f.ts.0) by {
            if i < events.len() - 1 {
                assert(events[i] == events.drop_last()[i]);
            }
        }
    }
}

/// The peer is learned from the first authentic packet and then pinned: no later
/// packet, whoever sends it, and no tick changes where replies go.
pub proof fn lemma_the_peer_is_pinned<A>(
    s: Sink<A>,
    id: RequestId,
    packet: std::result::Result<(Header, BodyView), Error>,
    from: A,
    feedback: Playhead,
    now: Instant,
)
    requires
        s.peer is Some,
    ensures
        s.received(id, packet, from, feedback, now).0.peer == s.peer,
        s.ticked(id, feedback, now).0.peer == s.peer,
{
    let (t, events) = s.admitted(packet, from, now);
    if events is Some {
        lemma_applied(t, id, events->0, feedback, now);
    }
    let (state, events) = s.state.ticked(now);
    lemma_applied(Sink { state, ..s }, id, events, feedback, now);
}

/// No state action is taken on a packet that does not open or is malformed: the
/// transfer stays as it was, and nothing is done.
pub proof fn lemma_unauthentic_packets_change_nothing<A>(
    s: Sink<A>,
    id: RequestId,
    e: Error,
    from: A,
    feedback: Playhead,
    now: Instant,
)
    ensures
        s.received(id, Err(e), from, feedback, now) == (s, None::<SinkStepView<A>>),
{
}

/// One call of a [`SinkTable`](crate::sink::SinkTable) that concerns an armed
/// transfer.
pub enum TransferInput<A> {
    Received {
        packet: std::result::Result<(Header, BodyView), Error>,
        from: A,
        feedback: Playhead,
        now: Instant,
    },
    Ticked { feedback: Playhead, now: Instant },
    Dropped { now: Instant },
}

impl<A> Sink<A> {
    /// The state and the actions after one call.
    pub open spec fn transfer_step(self, id: RequestId, input: TransferInput<A>) -> (
        Sink<A>,
        Seq<SinkActionView>,
    ) {
        match input {
            TransferInput::Received { packet, from, feedback, now } => {
                let (t, step) = self.received(id, packet, from, feedback, now);
                (
                    t,
                    match step {
                        Some(x) => x.actions,
                        None => Seq::empty(),
                    },
                )
            },
            TransferInput::Ticked { feedback, now } => {
                let (t, step) = self.ticked(id, feedback, now);
                (t, step.actions)
            },
            TransferInput::Dropped { now } => (self.dropped(now), Seq::empty()),
        }
    }

    /// The state after a series of calls, and all actions of them in order.
    pub open spec fn transfer(self, id: RequestId, inputs: Seq<TransferInput<A>>) -> (
        Sink<A>,
        Seq<SinkActionView>,
    )
        decreases inputs.len(),
    {
        if inputs.len() == 0 {
            (self, Seq::empty())
        } else {
            let (s, actions) = self.transfer(id, inputs.drop_last());
            let (t, more) = s.transfer_step(id, inputs.last());
            (t, actions + more)
        }
    }
}

/// The headers of the packets that opened, in order.
pub open spec fn headers_of<A>(inputs: Seq<TransferInput<A>>) -> Seq<Header>
    decreases inputs.len(),
{
    if inputs.len() == 0 {
        Seq::empty()
    } else {
        let rest = headers_of(inputs.drop_last());
        match inputs.last() {
            TransferInput::Received { packet: Ok((header, _)), .. } => rest.push(header),
            _ => rest,
        }
    }
}

pub proof fn lemma_replay_of_transfer<A>(s: Sink<A>, id: RequestId, inputs: Seq<TransferInput<A>>)
    ensures
        s.transfer(id, inputs).0.replay == passed(s.replay, headers_of(inputs)),
    decreases inputs.len(),
{
    if inputs.len() > 0 {
        let before = inputs.drop_last();
        lemma_replay_of_transfer(s, id, before);
        let t = s.transfer(id, before).0;
        match inputs.last() {
            TransferInput::Received { packet, from, feedback, now } => {
                let (u, events) = t.admitted(packet, from, now);
                if events is Some {
                    lemma_applied(u, id, events->0, feedback, now);
                }
                if packet is Ok {
                    assert(headers_of(inputs).drop_last() =~= headers_of(before));
                }
            },
            TransferInput::Ticked { feedback, now } => {
                let (state, events) = t.state.ticked(now);
                lemma_applied(Sink { state, ..t }, id, events, feedback, now);
            },
            TransferInput::Dropped { now } => {},
        }
    }
}

/// A control packet that has been let through once changes nothing when it comes
/// again, whatever has been received and however much time has passed in between,
/// and whatever source it names.
pub proof fn lemma_replayed_packets_change_nothing<A>(
    s: Sink<A>,
    id: RequestId,
    header: Header,
    body: BodyView,
    from: A,
    feedback: Playhead,
    now: Instant,
    between: Seq<TransferInput<A>>,
    again: BodyView,
    other: A,
    report: Playhead,
    later: Instant,
)
    requires
        !(header.kind is Data),
        s.received(id, Ok((header, body)), from, feedback, now).1 is Some,
    ensures
        ({
            let first = s.received(id, Ok((header, body)), from, feedback, now).0;
            let t = first.transfer(id, between).0;
            t.received(id, Ok((header, again)), other, report, later) == (
                t,
                None::<SinkStepView<A>>,
            )
        }),
{
    let (t, events) = s.admitted(Ok((header, body)), from, now);
    lemma_applied(t, id, events->0, feedback, now);
    let first = s.received(id, Ok((header, body)), from, feedback, now).0;
    lemma_replay_of_transfer(first, id, between);
    lemma_a_control_packet_passes_once(s.replay, header, headers_of(between));
}

/// What the endpoint knows as the newest frame is at least as new as every frame
/// that it has handed up, and never goes back.
pub proof fn lemma_the_newest_frame_is_known<A>(
    s: Sink<A>,
    id: RequestId,
    events: Seq<RecvEventView>,
    feedback: Playhead,
    now: Instant,
)
    ensures
        ({
            let t = s.applied(id, events, feedback, now).0;
            &&& t.newest_data_ms >= s.newest_data_ms
            &&& forall|i: int|
                0 <= i < events.len() ==> (handed_up(#[trigger] events[i]) matches Some(f)
                    ==> t.newest_data_ms >= f.ts.0)
        }),
{
    lemma_applied(s, id, events, feedback, now);
}

/// One call of a [`SinkSession`](crate::sink::SinkSession) that changes its
/// state.
pub enum SinkInput<A> {
    Packet { packet: std::result::Result<(Header, BodyView), Error>, from: A, now: Instant },
    Tick { now: Instant },
    Apply { events: Seq<RecvEventView>, feedback: Playhead, now: Instant },
    Dropped { now: Instant },
}

impl<A> Sink<A> {
    /// The state and the actions after one call.
    pub open spec fn step(self, id: RequestId, input: SinkInput<A>) -> (
        Sink<A>,
        Seq<SinkActionView>,
    ) {
        match input {
            SinkInput::Packet { packet, from, now } => (
                self.admitted(packet, from, now).0,
                Seq::empty(),
            ),
            SinkInput::Tick { now } => (self.driven(now).0, Seq::empty()),
            SinkInput::Apply { events, feedback, now } => self.applied(id, events, feedback, now),
            SinkInput::Dropped { now } => (self.dropped(now), Seq::empty()),
        }
    }

    /// The state after a series of calls, and all actions of them in order.
    pub open spec fn run(self, id: RequestId, inputs: Seq<SinkInput<A>>) -> (
        Sink<A>,
        Seq<SinkActionView>,
    )
        decreases inputs.len(),
    {
        if inputs.len() == 0 {
            (self, Seq::empty())
        } else {
            let (s, actions) = self.run(id, inputs.drop_last());
            let (t, more) = s.step(id, inputs.last());
            (t, actions + more)
        }
    }

    /// What the replies say that `events` ask for, in order.
    pub open spec fn bodies(
        self,
        id: RequestId,
        events: Seq<RecvEventView>,
        feedback: Playhead,
        now: Instant,
    ) -> Seq<BodyView>
        decreases events.len(),
    {
        if events.len() == 0 {
            Seq::empty()
        } else {
            let rest = self.bodies(id, events.drop_last(), feedback, now);
            let s = self.applied(id, events.drop_last(), feedback, now).0;
            match s.reply_to(events.last(), feedback, now) {
                Some(body) => rest.push(body),
                None => rest,
            }
        }
    }

    /// What the replies say that all the calls ask for, in order.
    pub open spec fn all_bodies(self, id: RequestId, inputs: Seq<SinkInput<A>>) -> Seq<BodyView>
        decreases inputs.len(),
    {
        if inputs.len() == 0 {
            Seq::empty()
        } else {
            let rest = self.all_bodies(id, inputs.drop_last());
            match inputs.last() {
                SinkInput::Apply { events, feedback, now } => rest + self.run(
                    id,
                    inputs.drop_last(),
                ).0.bodies(id, events, feedback, now),
                _ => rest,
            }
        }
    }
}

/// The header of the reply that has `n` before it.
pub open spec fn nth_header(id: RequestId, body: BodyView, n: int) -> Header {
    Header { kind: body.kind(), request_id: id, seq: n as u32 }
}

/// The datagrams that carry `bodies`, numbered 0, 1, 2 and so on; a body that is
/// too large has a number but no datagram.
pub open spec fn numbered(key: Seq<u8>, id: RequestId, bodies: Seq<BodyView>) -> Seq<Seq<u8>>
    decreases bodies.len(),
{
    if bodies.len() == 0 {
        Seq::empty()
    } else {
        let rest = numbered(key, id, bodies.drop_last());
        let header = nth_header(id, bodies.last(), bodies.len() - 1);
        match sealed_body(key, header, Direction::Recv, bodies.last()) {
            Ok(d) => rest.push(d),
            Err(_) => rest,
        }
    }
}

proof fn lemma_replies_of_apply<A>(
    s: Sink<A>,
    id: RequestId,
    events: Seq<RecvEventView>,
    feedback: Playhead,
    now: Instant,
    before: Seq<BodyView>,
    actions: Seq<SinkActionView>,
)
    requires
        s.control_seq == before.len() % 0x1_0000_0000,
        replies(actions) == numbered(s.key, id, before),
        (before + s.bodies(id, events, feedback, now)).len() <= 0x1_0000_0000,
    ensures
        ({
            let (t, more) = s.applied(id, events, feedback, now);
            let all = before + s.bodies(id, events, feedback, now);
            &&& t.key == s.key
            &&& t.control_seq == all.len() % 0x1_0000_0000
            &&& replies(actions + more) == numbered(s.key, id, all)
        }),
    decreases events.len(),
{
    let (t, more) = s.applied(id, events, feedback, now);
    let new = s.bodies(id, events, feedback, now);
    if events.len() == 0 {
        assert(actions + more =~= actions);
        assert(before + new =~= before);
    } else {
        let front = events.drop_last();
        lemma_replies_of_apply(s, id, front, feedback, now, before, actions);
        let (u, done) = s.applied(id, front, feedback, now);
        let e = events.last();
        let last = u.applied_one(id, e, feedback, now).1;
        let told = before + s.bodies(id, front, feedback, now);
        assert(actions + more =~= (actions + done) + last);
        if last.len() == 0 {
            assert((actions + done) + last =~= actions + done);
        } else {
            assert(((actions + done) + last).drop_last() =~= actions + done);
        }
        match u.reply_to(e, feedback, now) {
            Some(body) => {
                assert(before + new =~= told.push(body));
                assert(told.push(body).drop_last() =~= told);
            },
            None => {
                assert(before + new =~= told);
            },
        }
    }
}

/// The replies of a session are numbered 0, 1, 2 and so on over all its calls, in
/// the order in which they are asked for, and each is the sealed form of what was
/// asked for under its number: no counter is used twice, as long as there are no
/// more replies than a counter can tell apart.
pub proof fn lemma_replies_are_numbered<A>(
    key: Seq<u8>,
    cfg: ReceiverConfig,
    start: Instant,
    id: RequestId,
    inputs: Seq<SinkInput<A>>,
)
    requires
        Sink::<A>::armed(key, cfg, start).all_bodies(id, inputs).len() <= 0x1_0000_0000,
    ensures
        ({
            let armed = Sink::<A>::armed(key, cfg, start);
            let (s, actions) = armed.run(id, inputs);
            let bodies = armed.all_bodies(id, inputs);
            &&& s.key == key
            &&& s.control_seq == bodies.len() % 0x1_0000_0000
            &&& replies(actions) == numbered(key, id, bodies)
        }),
    decreases inputs.len(),
{
    let armed = Sink::<A>::armed(key, cfg, start);
    if inputs.len() > 0 {
        let before = inputs.drop_last();
        lemma_replies_are_numbered(key, cfg, start, id, before);
        let (s, actions) = armed.run(id, before);
        let bodies = armed.all_bodies(id, before);
        match inputs.last() {
            SinkInput::Apply { events, feedback, now } => {
                lemma_replies_of_apply(s, id, events, feedback, now, bodies, actions);
            },
            _ => {
                assert(actions + Seq::<SinkActionView>::empty() =~= actions);
            },
        }
    }
}

/// The nonce of the reply that has `n` before it.
pub open spec fn reply_nonce(id: RequestId, body: BodyView, n: int) -> Seq<u8> {
    let header = nth_header(id, body, n);
    nonce_of(Direction::Recv, header.kind.class(), header.seq)
}

/// No two replies of a session share a nonce, whichever calls they come from, as
/// long as there are no more of them than a counter can tell apart.
pub proof fn lemma_no_two_replies_share_a_nonce<A>(
    key: Seq<u8>,
    cfg: ReceiverConfig,
    start: Instant,
    id: RequestId,
    inputs: Seq<SinkInput<A>>,
    i: int,
    j: int,
)
    requires
        0 <= i < j < Sink::<A>::armed(key, cfg, start).all_bodies(id, inputs).len(),
        Sink::<A>::armed(key, cfg, start).all_bodies(id, inputs).len() <= 0x1_0000_0000,
    ensures
        ({
            let bodies = Sink::<A>::armed(key, cfg, start).all_bodies(id, inputs);
            reply_nonce(id, bodies[i], i) != reply_nonce(id, bodies[j], j)
        }),
{
    let bodies = Sink::<A>::armed(key, cfg, start).all_bodies(id, inputs);
    let a = nth_header(id, bodies[i], i);
    let b = nth_header(id, bodies[j], j);
    if reply_nonce(id, bodies[i], i) == reply_nonce(id, bodies[j], j) {
        lemma_nonce_injective(
            Direction::Recv,
            a.kind.class(),
            a.seq,
            Direction::Recv,
            b.kind.class(),
            b.seq,
        );
    }
}

/// What a list of actions hands up.
#[verifier::ext_equal]
pub struct Handed {
    pub cache: Seq<FrameView>,
    pub playback: Seq<FrameView>,
    pub outcomes: Seq<RelOutcome>,
}

pub open spec fn handed(actions: Seq<SinkActionView>) -> Handed
    decreases actions.len(),
{
    if actions.len() == 0 {
        Handed { cache: Seq::empty(), playback: Seq::empty(), outcomes: Seq::empty() }
    } else {
        let rest = handed(actions.drop_last());
        match actions.last() {
            SinkActionView::Cache(f) => Handed { cache: rest.cache.push(f), ..rest },
            SinkActionView::Playback(f) => Handed { playback: rest.playback.push(f), ..rest },
            SinkActionView::Outcome(o) => Handed { outcomes: rest.outcomes.push(o), ..rest },
            SinkActionView::Reply(_) => rest,
        }
    }
}

/// The events that all the calls apply, in order.
pub open spec fn all_events<A>(inputs: Seq<SinkInput<A>>) -> Seq<RecvEventView>
    decreases inputs.len(),
{
    if inputs.len() == 0 {
        Seq::empty()
    } else {
        let rest = all_events(inputs.drop_last());
        match inputs.last() {
            SinkInput::Apply { events, .. } => rest + events,
            _ => rest,
        }
    }
}

/// What is to be handed up for `events`: every frame, and the first outcome.
pub open spec fn due_for(events: Seq<RecvEventView>) -> Handed {
    let a = account(events);
    Handed {
        cache: a.reliable,
        playback: a.played,
        outcomes: if a.outcomes.len() == 0 {
            Seq::empty()
        } else {
            seq![a.outcomes[0]]
        },
    }
}

proof fn lemma_handed_by_apply<A>(
    s: Sink<A>,
    id: RequestId,
    events: Seq<RecvEventView>,
    feedback: Playhead,
    now: Instant,
    before: Seq<RecvEventView>,
    actions: Seq<SinkActionView>,
)
    requires
        s.outcome_told == (account(before).outcomes.len() > 0),
        handed(actions) == due_for(before),
    ensures
        ({
            let (t, more) = s.applied(id, events, feedback, now);
            &&& t.outcome_told == (account(before + events).outcomes.len() > 0)
            &&& handed(actions + more) == due_for(before + events)
        }),
    decreases events.len(),
{
    let (t, more) = s.applied(id, events, feedback, now);
    if events.len() == 0 {
        assert(actions + more =~= actions);
        assert(before + events =~= before);
    } else {
        let front = events.drop_last();
        lemma_handed_by_apply(s, id, front, feedback, now, before, actions);
        let (u, done) = s.applied(id, front, feedback, now);
        let last = u.applied_one(id, events.last(), feedback, now).1;
        assert(actions + more =~= (actions + done) + last);
        assert((before + events).drop_last() =~= before + front);
        if last.len() == 0 {
            assert((actions + done) + last =~= actions + done);
        } else {
            assert(((actions + done) + last).drop_last() =~= actions + done);
        }
        assert(handed(actions + more) =~= due_for(before + events));
    }
}

/// A session hands up every frame in the order of the events, and of the outcomes
/// the first and no other, over all its calls.
pub proof fn lemma_everything_is_handed_up_in_order<A>(
    key: Seq<u8>,
    cfg: ReceiverConfig,
    start: Instant,
    id: RequestId,
    inputs: Seq<SinkInput<A>>,
)
    ensures
        ({
            let (s, actions) = Sink::<A>::armed(key, cfg, start).run(id, inputs);
            &&& handed(actions) == due_for(all_events(inputs))
            &&& s.outcome_told == (account(all_events(inputs)).outcomes.len() > 0)
        }),
    decreases inputs.len(),
{
    let armed = Sink::<A>::armed(key, cfg, start);
    if inputs.len() == 0 {
        assert(handed(Seq::empty()) =~= due_for(Seq::empty()));
    } else {
        let before = inputs.drop_last();
        lemma_everything_is_handed_up_in_order(key, cfg, start, id, before);
        let (s, actions) = armed.run(id, before);
        match inputs.last() {
            SinkInput::Apply { events, feedback, now } => {
                lemma_handed_by_apply(
                    s,
                    id,
                    events,
                    feedback,
                    now,
                    all_events(before),
                    actions,
                );
            },
            _ => {
                assert(actions + Seq::<SinkActionView>::empty() =~= actions);
            },
        }
    }
}

impl<A> Sink<A> {
    /// What the calls feed to the state machine: the packets that are let
    /// through, and the ticks.
    pub open spec fn fed_on(self, id: RequestId, inputs: Seq<TransferInput<A>>) -> Seq<RecvInput>
        decreases inputs.len(),
    {
        if inputs.len() == 0 {
            Seq::empty()
        } else {
            let rest = self.fed_on(id, inputs.drop_last());
            match inputs.last() {
                TransferInput::Received { packet: Ok((header, body)), now, .. } => if guarded(
                    self.transfer(id, inputs.drop_last()).0.replay,
                    header,
                ) is Some {
                    rest.push(RecvInput::Handle { seq: XferSeq(header.seq), body, now })
                } else {
                    rest
                },
                TransferInput::Ticked { now, .. } => rest.push(RecvInput::Tick { now }),
                _ => rest,
            }
        }
    }
}

/// Whether nothing goes to the cache after it has been told how its stream ended.
pub open spec fn outcome_is_last(actions: Seq<SinkActionView>) -> bool {
    forall|i: int, j: int|
        0 <= i < j < actions.len() && #[trigger] actions[i] is Outcome ==> !(
        #[trigger] actions[j] is Cache)
}

proof fn lemma_outcome_is_counted(actions: Seq<SinkActionView>, i: int)
    requires
        0 <= i < actions.len(),
        actions[i] is Outcome,
    ensures
        handed(actions).outcomes.len() > 0,
    decreases actions.len(),
{
    if i < actions.len() - 1 {
        assert(actions.drop_last()[i] is Outcome);
        lemma_outcome_is_counted(actions.drop_last(), i);
    }
}

proof fn lemma_outcome_has_an_event(events: Seq<RecvEventView>)
    requires
        account(events).outcomes.len() > 0,
    ensures
        exists|i: int| 0 <= i < events.len() && #[trigger] events[i] is RelFinished,
    decreases events.len(),
{
    let last = events.len() - 1;
    if events[last] is RelFinished {
    } else {
        let rest = events.drop_last();
        lemma_outcome_has_an_event(rest);
        let i = choose|i: int| 0 <= i < rest.len() && #[trigger] rest[i] is RelFinished;
        assert(events[i] is RelFinished);
    }
}

proof fn lemma_order_by_apply<A>(
    s: Sink<A>,
    id: RequestId,
    events: Seq<RecvEventView>,
    feedback: Playhead,
    now: Instant,
    before: Seq<RecvEventView>,
    actions: Seq<SinkActionView>,
)
    requires
        s.outcome_told == (account(before).outcomes.len() > 0),
        handed(actions) == due_for(before),
        outcome_is_last(actions),
        outcome_comes_last(before + events),
    ensures
        outcome_is_last(actions + s.applied(id, events, feedback, now).1),
    decreases events.len(),
{
    let more = s.applied(id, events, feedback, now).1;
    if events.len() == 0 {
        assert(actions + more =~= actions);
    } else {
        let front = events.drop_last();
        let all = before + events;
        assert forall|i: int, j: int|
            0 <= i < j < (before + front).len() && #[trigger] (before
                + front)[i] is RelFinished implies !(#[trigger] (before
            + front)[j] is Reliable) by {
            assert(all[i] == (before + front)[i]);
            assert(all[j] == (before + front)[j]);
        }
        lemma_order_by_apply(s, id, front, feedback, now, before, actions);
        lemma_handed_by_apply(s, id, front, feedback, now, before, actions);
        let (u, done) = s.applied(id, front, feedback, now);
        let last = u.applied_one(id, events.last(), feedback, now).1;
        let so_far = actions + done;
        let total = actions + more;
        assert(total =~= so_far + last);
        assert forall|i: int, j: int|
            0 <= i < j < total.len() && #[trigger] total[i] is Outcome implies !(
        #[trigger] total[j] is Cache) by {
            assert(i < so_far.len());
            assert(so_far[i] == total[i]);
            if j < so_far.len() {
                assert(so_far[j] == total[j]);
            } else if total[j] is Cache {
                assert(last[j - so_far.len()] == total[j]);
                lemma_outcome_is_counted(so_far, i);
                lemma_outcome_has_an_event(before + front);
                let x = choose|x: int|
                    0 <= x < (before + front).len() && #[trigger] (before
                        + front)[x] is RelFinished;
                assert(all[x] is RelFinished);
                assert(all[all.len() - 1] is Reliable);
            }
        }
    }
}

/// What holds of a transfer after any series of calls.
spec fn follows<A>(
    cfg: ReceiverConfig,
    start: Instant,
    fed: Seq<RecvInput>,
    s: Sink<A>,
    actions: Seq<SinkActionView>,
) -> bool {
    let (state, events) = Receiving::fresh(cfg, start).run(fed);
    &&& s.state == state
    &&& s.outcome_told == (account(events).outcomes.len() > 0)
    &&& handed(actions) == due_for(events)
    &&& outcome_is_last(actions)
}

proof fn lemma_follows_one<A>(
    cfg: ReceiverConfig,
    start: Instant,
    fed: Seq<RecvInput>,
    s: Sink<A>,
    actions: Seq<SinkActionView>,
    input: RecvInput,
    t: Sink<A>,
    id: RequestId,
    feedback: Playhead,
    now: Instant,
)
    requires
        follows(cfg, start, fed, s, actions),
        t.state == s.state.step(input).0,
        t.outcome_told == s.outcome_told,
    ensures
        ({
            let (u, more) = t.applied(id, s.state.step(input).1, feedback, now);
            follows(cfg, start, fed.push(input), u, actions + more)
        }),
{
    let fresh = Receiving::fresh(cfg, start);
    let before = fresh.run(fed).1;
    let events = s.state.step(input).1;
    assert(fed.push(input).drop_last() =~= fed);
    lemma_the_outcome_comes_last(cfg, start, fed.push(input));
    lemma_applied(t, id, events, feedback, now);
    lemma_handed_by_apply(t, id, events, feedback, now, before, actions);
    lemma_order_by_apply(t, id, events, feedback, now, before, actions);
}

proof fn lemma_follows<A>(
    key: Seq<u8>,
    cfg: ReceiverConfig,
    start: Instant,
    id: RequestId,
    inputs: Seq<TransferInput<A>>,
)
    ensures
        ({
            let armed = Sink::<A>::armed(key, cfg, start);
            let (s, actions) = armed.transfer(id, inputs);
            follows(cfg, start, armed.fed_on(id, inputs), s, actions)
        }),
    decreases inputs.len(),
{
    let armed = Sink::<A>::armed(key, cfg, start);
    if inputs.len() == 0 {
        assert(handed(Seq::empty()) =~= due_for(Seq::empty()));
    } else {
        let before = inputs.drop_last();
        lemma_follows(key, cfg, start, id, before);
        let (s, actions) = armed.transfer(id, before);
        let fed = armed.fed_on(id, before);
        match inputs.last() {
            TransferInput::Received { packet, from, feedback, now } => {
                let (t, events) = s.admitted(packet, from, now);
                if events is Some {
                    let (header, body) = packet->Ok_0;
                    let input = RecvInput::Handle { seq: XferSeq(header.seq), body, now };
                    lemma_follows_one(
                        cfg,
                        start,
                        fed,
                        s,
                        actions,
                        input,
                        t,
                        id,
                        feedback,
                        now,
                    );
                } else {
                    assert(actions + Seq::<SinkActionView>::empty() =~= actions);
                }
            },
            TransferInput::Ticked { feedback, now } => {
                let t = Sink { state: s.state.ticked(now).0, ..s };
                lemma_follows_one(
                    cfg,
                    start,
                    fed,
                    s,
                    actions,
                    RecvInput::Tick { now },
                    t,
                    id,
                    feedback,
                    now,
                );
            },
            TransferInput::Dropped { now } => {
                assert(actions + Seq::<SinkActionView>::empty() =~= actions);
            },
        }
    }
}

/// A transfer hands up its receiver's own two streams. What goes to the cache is
/// the reliable stream: the frames 1, 2, 3 and so on, each the first that was let
/// through under its number, then at most one outcome, and nothing after it; and
/// if the outcome is `Complete`, every frame up to the declared end is among
/// them. Of what goes to playback, no frame comes twice.
pub proof fn lemma_a_transfer_hands_up_its_streams<A>(
    key: Seq<u8>,
    cfg: ReceiverConfig,
    start: Instant,
    id: RequestId,
    inputs: Seq<TransferInput<A>>,
)
    ensures
        ({
            let armed = Sink::<A>::armed(key, cfg, start);
            let (s, actions) = armed.transfer(id, inputs);
            let fed = armed.fed_on(id, inputs);
            let (state, events) = Receiving::fresh(cfg, start).run(fed);
            let h = handed(actions);
            &&& s.state == state
            &&& h.cache == account(events).reliable
            &&& h.playback == account(events).played
            &&& h.outcomes == account(events).outcomes
            &&& forall|i: int|
                0 <= i < h.cache.len() ==> (#[trigger] h.cache[i]).seq.0 == i + 1 && first_fed(
                    fed,
                    (i + 1) as u32,
                ) == Some(h.cache[i])
            &&& h.outcomes.len() == if s.state.streaming {
                0nat
            } else {
                1
            }
            &&& outcome_is_last(actions)
            &&& h.outcomes.len() == 1 ==> (h.outcomes[0] matches RelOutcome::Complete { final_seq }
                ==> declared(fed, final_seq) && final_seq.0 <= h.cache.len())
            &&& numbers(h.playback).no_duplicates()
        }),
{
    let armed = Sink::<A>::armed(key, cfg, start);
    let (s, actions) = armed.transfer(id, inputs);
    let fed = armed.fed_on(id, inputs);
    let events = Receiving::fresh(cfg, start).run(fed).1;
    lemma_follows(key, cfg, start, id, inputs);
    lemma_the_reliable_stream_is_gap_free(cfg, start, fed);
    lemma_the_outcome_is_reported_once(cfg, start, fed);
    lemma_duplicates_are_played_once(cfg, start, fed);
    let outcomes = account(events).outcomes;
    assert(handed(actions).outcomes =~= outcomes);
    if outcomes.len() == 1 {
        if let RelOutcome::Complete { final_seq } = outcomes[0] {
            assert(outcomes.contains(outcomes[0]));
            lemma_complete_is_complete(cfg, start, fed, final_seq);
        }
    }
}

} // verus!
