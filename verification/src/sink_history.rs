//! What a sink does, told from the calls that were made of it.

use vstd::prelude::*;

use crate::bytes::be_value;
use crate::config::ReceiverConfig;
use crate::error::Error;
use crate::feedback::{occupancy, Playhead};
use crate::frame::{BodyView, PacketKind};
use crate::guard::{lemma_what_is_let_through, lets_through};
use crate::header::Header;
use crate::packet::{opened_body, sealed_body};
use crate::sink::{
    arming, disarming, dropping, receiving, routed, ticking, Sink, SinkActionView, SinkStepView,
};
use crate::sink_laws::{
    all_events, handed_up, headers_of, lemma_a_transfer_hands_up_its_streams, lemma_applied,
    lemma_everything_is_handed_up_in_order, lemma_replay_of_transfer, SinkInput, TransferInput,
};
use crate::time::Instant;
use crate::types::{Direction, RequestId, XferSeq};
use crate::xfer::receiver::{Receiving, RecvEventView};
use crate::xfer::recv_history::last_events;
use crate::xfer::recv_laws::{account, lemma_the_state_follows_the_calls, RecvInput};

verus! {

/// What the calls feed to the state machine: the packets that are to be let
/// through, and the ticks.
pub open spec fn fed_by<A>(inputs: Seq<TransferInput<A>>) -> Seq<RecvInput>
    decreases inputs.len(),
{
    if inputs.len() == 0 {
        Seq::empty()
    } else {
        let before = inputs.drop_last();
        let rest = fed_by(before);
        match inputs.last() {
            TransferInput::Received { packet: Ok((header, body)), now, .. } => if lets_through(
                headers_of(before),
                header,
            ) {
                rest.push(RecvInput::Handle { seq: XferSeq(header.seq), body, now })
            } else {
                rest
            },
            TransferInput::Ticked { now, .. } => rest.push(RecvInput::Tick { now }),
            _ => rest,
        }
    }
}

/// Where the first packet came from that was to be let through.
pub open spec fn first_source<A>(inputs: Seq<TransferInput<A>>) -> Option<A>
    decreases inputs.len(),
{
    if inputs.len() == 0 {
        None
    } else {
        let before = inputs.drop_last();
        match first_source(before) {
            Some(a) => Some(a),
            None => match inputs.last() {
                TransferInput::Received { packet: Ok((header, _)), from, .. } => if lets_through(
                    headers_of(before),
                    header,
                ) {
                    Some(from)
                } else {
                    None
                },
                _ => None,
            },
        }
    }
}

/// A transfer goes by what it was sent: the state machine has been fed exactly the
/// packets that were to be let through, in order, with the number in their header
/// and the time they came at, and the ticks; and replies go where the first of
/// those packets came from.
pub proof fn lemma_a_transfer_goes_by_what_it_was_sent<A>(
    key: Seq<u8>,
    cfg: ReceiverConfig,
    start: Instant,
    id: RequestId,
    inputs: Seq<TransferInput<A>>,
)
    ensures
        ({
            let armed = Sink::<A>::armed(key, cfg, start);
            let s = armed.transfer(id, inputs).0;
            &&& armed.fed_on(id, inputs) == fed_by(inputs)
            &&& s.state == Receiving::fresh(cfg, start).run(fed_by(inputs)).0
            &&& s.peer == first_source(inputs)
            &&& s.key == key
        }),
    decreases inputs.len(),
{
    let armed = Sink::<A>::armed(key, cfg, start);
    lemma_a_transfer_hands_up_its_streams(key, cfg, start, id, inputs);
    if inputs.len() > 0 {
        let before = inputs.drop_last();
        lemma_a_transfer_goes_by_what_it_was_sent(key, cfg, start, id, before);
        lemma_replay_of_transfer(armed, id, before);
        let s = armed.transfer(id, before).0;
        match inputs.last() {
            TransferInput::Received { packet, from, feedback, now } => {
                if let Ok((header, body)) = packet {
                    lemma_what_is_let_through(headers_of(before), header);
                }
                let (t, events) = s.admitted(packet, from, now);
                if events is Some {
                    lemma_applied(t, id, events->0, feedback, now);
                }
            },
            TransferInput::Ticked { feedback, now } => {
                let (t, events) = s.driven(now);
                lemma_applied(t, id, events, feedback, now);
            },
            TransferInput::Dropped { now } => {},
        }
    }
}

/// What a call of the table is answered. A packet is answered exactly if it is to
/// be let through, and a tick always. The answer names the request, says where
/// replies go, and says that the transfer is finished exactly if the state machine
/// has closed it.
pub proof fn lemma_what_a_step_says<A>(
    key: Seq<u8>,
    cfg: ReceiverConfig,
    start: Instant,
    id: RequestId,
    inputs: Seq<TransferInput<A>>,
    packet: std::result::Result<(Header, BodyView), Error>,
    from: A,
    feedback: Playhead,
    now: Instant,
)
    ensures
        ({
            let s = Sink::<A>::armed(key, cfg, start).transfer(id, inputs).0;
            let received = TransferInput::Received { packet, from, feedback, now };
            let ticked = TransferInput::<A>::Ticked { feedback, now };
            let told = |after: Seq<TransferInput<A>>, step: SinkStepView<A>|
                {
                    let events = Receiving::fresh(cfg, start).run(fed_by(after)).1;
                    &&& step.request_id == id
                    &&& step.peer == first_source(after)
                    &&& step.finished <==> account(events).closed > 0
                };
            &&& s.received(id, packet, from, feedback, now).1 is Some <==> (packet is Ok
                && lets_through(headers_of(inputs), packet->Ok_0.0))
            &&& s.received(id, packet, from, feedback, now).1 matches Some(step) ==> told(
                inputs.push(received),
                step,
            )
            &&& told(inputs.push(ticked), s.ticked(id, feedback, now).1)
        }),
{
    let armed = Sink::<A>::armed(key, cfg, start);
    let s = armed.transfer(id, inputs).0;
    let a = inputs.push(TransferInput::Received { packet, from, feedback, now });
    let b = inputs.push(TransferInput::Ticked { feedback, now });
    assert(a.drop_last() =~= inputs);
    assert(b.drop_last() =~= inputs);
    lemma_a_transfer_goes_by_what_it_was_sent(key, cfg, start, id, inputs);
    lemma_a_transfer_goes_by_what_it_was_sent(key, cfg, start, id, a);
    lemma_a_transfer_goes_by_what_it_was_sent(key, cfg, start, id, b);
    lemma_the_state_follows_the_calls(cfg, start, fed_by(a));
    lemma_the_state_follows_the_calls(cfg, start, fed_by(b));
    lemma_replay_of_transfer(armed, id, inputs);
    if let Ok((header, body)) = packet {
        lemma_what_is_let_through(headers_of(inputs), header);
    }
}

/// The timestamp of the newest frame that `events` hand up, or zero.
pub open spec fn newest_of(events: Seq<RecvEventView>) -> u64
    decreases events.len(),
{
    if events.len() == 0 {
        0
    } else {
        let before = newest_of(events.drop_last());
        match handed_up(events.last()) {
            Some(f) => if f.ts.0 > before {
                f.ts.0
            } else {
                before
            },
            None => before,
        }
    }
}

/// How many of `events` ask for a reply.
pub open spec fn replies_asked(events: Seq<RecvEventView>) -> nat
    decreases events.len(),
{
    if events.len() == 0 {
        0
    } else {
        replies_asked(events.drop_last()) + if events.last() is SendNack || events.last() is SendAck
            || events.last() is SendEndAck {
            1nat
        } else {
            0
        }
    }
}

proof fn lemma_counts_of_apply<A>(
    s: Sink<A>,
    id: RequestId,
    events: Seq<RecvEventView>,
    feedback: Playhead,
    now: Instant,
    before: Seq<RecvEventView>,
)
    requires
        s.newest_data_ms == newest_of(before),
        s.control_seq == replies_asked(before) % 0x1_0000_0000,
    ensures
        ({
            let t = s.applied(id, events, feedback, now).0;
            &&& t.newest_data_ms == newest_of(before + events)
            &&& t.control_seq == replies_asked(before + events) % 0x1_0000_0000
            &&& t.dropped_unrel == s.dropped_unrel
            &&& t.last_drop_warn == s.last_drop_warn
        }),
    decreases events.len(),
{
    if events.len() == 0 {
        assert(before + events =~= before);
    } else {
        lemma_counts_of_apply(s, id, events.drop_last(), feedback, now, before);
        assert((before + events).drop_last() =~= before + events.drop_last());
    }
}

proof fn lemma_counts<A>(
    key: Seq<u8>,
    cfg: ReceiverConfig,
    start: Instant,
    id: RequestId,
    inputs: Seq<SinkInput<A>>,
)
    ensures
        ({
            let s = Sink::<A>::armed(key, cfg, start).run(id, inputs).0;
            &&& s.key == key
            &&& s.newest_data_ms == newest_of(all_events(inputs))
            &&& s.control_seq == replies_asked(all_events(inputs)) % 0x1_0000_0000
        }),
    decreases inputs.len(),
{
    if inputs.len() > 0 {
        let before = inputs.drop_last();
        lemma_counts(key, cfg, start, id, before);
        let s = Sink::<A>::armed(key, cfg, start).run(id, before).0;
        if let SinkInput::Apply { events, feedback, now } = inputs.last() {
            lemma_counts_of_apply(s, id, events, feedback, now, all_events(before));
            lemma_applied(s, id, events, feedback, now);
        }
    }
}

/// The datagram that carries `body` as the reply with `n` before it, if there is
/// one.
pub open spec fn carried(key: Seq<u8>, id: RequestId, n: nat, kind: PacketKind, body: BodyView) -> Seq<
    SinkActionView,
> {
    let header = Header { kind, request_id: id, seq: (n % 0x1_0000_0000) as u32 };
    match sealed_body(key, header, Direction::Recv, body) {
        Ok(d) => seq![SinkActionView::Reply(d)],
        Err(_) => Seq::empty(),
    }
}

/// What each event leads to. A frame goes where its stream goes, unchanged. The
/// outcome goes up unless one has gone up before. A request, a report of progress
/// and the confirmation of the tail each become one reply of their own kind, with
/// what they say unchanged, but for the occupancy, which is what is left to play
/// up to the newest frame that any event has handed up. The closing leads to
/// nothing.
pub proof fn lemma_what_an_event_leads_to<A>(
    key: Seq<u8>,
    cfg: ReceiverConfig,
    start: Instant,
    id: RequestId,
    inputs: Seq<SinkInput<A>>,
    e: RecvEventView,
    feedback: Playhead,
    now: Instant,
)
    ensures
        ({
            let s = Sink::<A>::armed(key, cfg, start).run(id, inputs).0;
            let before = all_events(inputs);
            let n = replies_asked(before);
            s.applied(id, seq![e], feedback, now).1 == match e {
                RecvEventView::Unreliable(f) => seq![SinkActionView::Playback(f)],
                RecvEventView::Reliable(f) => seq![SinkActionView::Cache(f)],
                RecvEventView::RelFinished(o) => if account(before).outcomes.len() == 0 {
                    seq![SinkActionView::Outcome(o)]
                } else {
                    Seq::empty()
                },
                RecvEventView::SendNack { missing } => carried(
                    key,
                    id,
                    n,
                    PacketKind::Nack,
                    BodyView::Nack { missing },
                ),
                RecvEventView::SendAck { contiguous, highest, buffered_ms } => carried(
                    key,
                    id,
                    n,
                    PacketKind::Ack,
                    BodyView::Ack {
                        contiguous,
                        highest,
                        buffered_ms: occupancy(feedback, buffered_ms, newest_of(before), now),
                    },
                ),
                RecvEventView::SendEndAck => carried(
                    key,
                    id,
                    n,
                    PacketKind::EndAck,
                    BodyView::EndAck,
                ),
                RecvEventView::Closed => Seq::empty(),
            }
        }),
{
    let s = Sink::<A>::armed(key, cfg, start).run(id, inputs).0;
    lemma_counts(key, cfg, start, id, inputs);
    lemma_everything_is_handed_up_in_order(key, cfg, start, id, inputs);
    reveal_with_fuel(Sink::applied, 2);
    assert(seq![e].drop_last() =~= Seq::<RecvEventView>::empty());
    assert(s.applied(id, seq![e], feedback, now).1 =~= s.applied_one(id, e, feedback, now).1);
}

/// Events are turned into actions one after the other: what a list leads to is
/// what its parts lead to, in turn.
pub proof fn lemma_events_are_applied_in_turn<A>(
    s: Sink<A>,
    id: RequestId,
    a: Seq<RecvEventView>,
    b: Seq<RecvEventView>,
    feedback: Playhead,
    now: Instant,
)
    ensures
        ({
            let (t, first) = s.applied(id, a, feedback, now);
            let (u, second) = t.applied(id, b, feedback, now);
            s.applied(id, a + b, feedback, now) == (u, first + second)
        }),
    decreases b.len(),
{
    let (t, first) = s.applied(id, a, feedback, now);
    if b.len() == 0 {
        assert(a + b =~= a);
        assert(first + Seq::<SinkActionView>::empty() =~= first);
    } else {
        lemma_events_are_applied_in_turn(s, id, a, b.drop_last(), feedback, now);
        assert((a + b).drop_last() =~= a + b.drop_last());
        let (u, second) = t.applied(id, b.drop_last(), feedback, now);
        let last = u.applied_one(id, b.last(), feedback, now).1;
        assert((first + second) + last =~= first + (second + last));
    }
}

/// How many playback frames the calls report as dropped.
pub open spec fn drops<A>(inputs: Seq<SinkInput<A>>) -> nat
    decreases inputs.len(),
{
    if inputs.len() == 0 {
        0
    } else {
        drops(inputs.drop_last()) + if inputs.last() is Dropped {
            1nat
        } else {
            0
        }
    }
}

/// When a drop was last complained about: at the first one, and from then on at
/// the next one that comes at least five seconds later.
pub open spec fn complained_at<A>(inputs: Seq<SinkInput<A>>) -> Option<Instant>
    decreases inputs.len(),
{
    if inputs.len() == 0 {
        None
    } else {
        let before = complained_at(inputs.drop_last());
        match (inputs.last(), before) {
            (SinkInput::Dropped { now }, Some(t)) => if now@ - t@ >= 5_000_000_000 {
                Some(now)
            } else {
                before
            },
            (SinkInput::Dropped { now }, None) => Some(now),
            _ => before,
        }
    }
}

/// Every drop is counted, up to the largest number there is, and complained about
/// with the count of all so far: the first one, and each that comes at least five
/// seconds after the last complaint.
pub proof fn lemma_drops_are_counted<A>(
    key: Seq<u8>,
    cfg: ReceiverConfig,
    start: Instant,
    id: RequestId,
    inputs: Seq<SinkInput<A>>,
    now: Instant,
)
    ensures
        ({
            let s = Sink::<A>::armed(key, cfg, start).run(id, inputs).0;
            s.complaint(now) == match complained_at(inputs) {
                Some(t) if now@ - t@ < 5_000_000_000 => None,
                _ => Some(
                    if drops(inputs) + 1 < u64::MAX {
                        (drops(inputs) + 1) as u64
                    } else {
                        u64::MAX
                    },
                ),
            }
        }),
{
    lemma_drops(key, cfg, start, id, inputs);
}

proof fn lemma_drops<A>(
    key: Seq<u8>,
    cfg: ReceiverConfig,
    start: Instant,
    id: RequestId,
    inputs: Seq<SinkInput<A>>,
)
    ensures
        ({
            let s = Sink::<A>::armed(key, cfg, start).run(id, inputs).0;
            &&& s.dropped_unrel == if drops(inputs) < u64::MAX {
                drops(inputs)
            } else {
                u64::MAX as nat
            }
            &&& s.last_drop_warn == complained_at(inputs)
        }),
    decreases inputs.len(),
{
    if inputs.len() > 0 {
        let before = inputs.drop_last();
        lemma_drops(key, cfg, start, id, before);
        lemma_counts(key, cfg, start, id, before);
        let s = Sink::<A>::armed(key, cfg, start).run(id, before).0;
        if let SinkInput::Apply { events, feedback, now } = inputs.last() {
            lemma_counts_of_apply(s, id, events, feedback, now, all_events(before));
        }
    }
}

/// One call of a [`SinkTable`](crate::sink::SinkTable) that changes its state.
pub enum TableInput<A> {
    Arm { id: RequestId, key: Seq<u8>, cfg: ReceiverConfig, now: Instant },
    Disarm { id: RequestId },
    Datagram { datagram: Seq<u8>, from: A, feedback: Playhead, now: Instant },
    Tick { id: RequestId, feedback: Playhead, now: Instant },
    Dropped { id: RequestId, now: Instant },
}

/// The transfers after one call.
pub open spec fn table_step<A>(all: Map<u128, Sink<A>>, input: TableInput<A>) -> Map<u128, Sink<A>> {
    match input {
        TableInput::Arm { id, key, cfg, now } => arming(all, id, key, cfg, now).0,
        TableInput::Disarm { id } => disarming(all, id),
        TableInput::Datagram { datagram, from, feedback, now } => receiving(
            all,
            datagram,
            from,
            feedback,
            now,
        ).0,
        TableInput::Tick { id, feedback, now } => ticking(all, id, feedback, now).0,
        TableInput::Dropped { id, now } => dropping(all, id, now).0,
    }
}

/// The transfers after a series of calls on an empty table.
pub open spec fn table_after<A>(inputs: Seq<TableInput<A>>) -> Map<u128, Sink<A>>
    decreases inputs.len(),
{
    if inputs.len() == 0 {
        Map::empty()
    } else {
        table_step(table_after(inputs.drop_last()), inputs.last())
    }
}

/// What a request was registered with, and the calls that have concerned it since.
pub struct Life<A> {
    pub key: Seq<u8>,
    pub cfg: ReceiverConfig,
    pub start: Instant,
    pub since: Seq<TransferInput<A>>,
}

impl<A> Life<A> {
    pub open spec fn and(self, input: TransferInput<A>) -> Life<A> {
        Life { since: self.since.push(input), ..self }
    }
}

/// The life of a request as the calls have it: it begins when the request is
/// registered while it is not, ends when it is forgotten, and in between every
/// datagram that names it, every tick of it and every drop of it concerns it.
pub open spec fn life_of<A>(inputs: Seq<TableInput<A>>, id: RequestId) -> Option<Life<A>>
    decreases inputs.len(),
{
    if inputs.len() == 0 {
        None
    } else {
        let before = life_of(inputs.drop_last(), id);
        match inputs.last() {
            TableInput::Arm { id: other, key, cfg, now } => if other == id && before is None {
                Some(Life { key, cfg, start: now, since: Seq::empty() })
            } else {
                before
            },
            TableInput::Disarm { id: other } => if other == id {
                None
            } else {
                before
            },
            TableInput::Datagram { datagram, from, feedback, now } => match before {
                Some(life) if routed(datagram) == Some(id) => Some(
                    life.and(
                        TransferInput::Received {
                            packet: opened_body(life.key, datagram, Direction::Send),
                            from,
                            feedback,
                            now,
                        },
                    ),
                ),
                _ => before,
            },
            TableInput::Tick { id: other, feedback, now } => match before {
                Some(life) if other == id => Some(
                    life.and(TransferInput::Ticked { feedback, now }),
                ),
                _ => before,
            },
            TableInput::Dropped { id: other, now } => match before {
                Some(life) if other == id => Some(life.and(TransferInput::Dropped { now })),
                _ => before,
            },
        }
    }
}

/// Each transfer of a table lives for itself: a request is armed exactly between
/// being registered and being forgotten, and its transfer is where the datagrams
/// that name it, opened with its own key, its ticks and its drops have brought it;
/// nothing that concerns another request changes it.
pub proof fn lemma_each_transfer_lives_for_itself<A>(inputs: Seq<TableInput<A>>, id: RequestId)
    ensures
        table_after(inputs).contains_key(id.0) <==> life_of(inputs, id) is Some,
        life_of(inputs, id) matches Some(life) ==> table_after(inputs)[id.0] == Sink::<A>::armed(
            life.key,
            life.cfg,
            life.start,
        ).transfer(id, life.since).0,
    decreases inputs.len(),
{
    if inputs.len() > 0 {
        let before = inputs.drop_last();
        lemma_each_transfer_lives_for_itself(before, id);
        if let Some(life) = life_of(before, id) {
            let s = table_after(before)[id.0];
            lemma_a_transfer_goes_by_what_it_was_sent(
                life.key,
                life.cfg,
                life.start,
                id,
                life.since,
            );
            if let Some(now) = life_of(inputs, id) {
                assert(now.since == life.since || now.since.drop_last() =~= life.since);
            }
        }
    }
}

/// What a table answers comes from the transfer that is named, and from nothing
/// else: a datagram that names no armed request, or none at all, is answered with
/// nothing and changes nothing, and so is a tick or a drop of a request that is
/// not armed.
pub proof fn lemma_a_table_answers_for_its_transfers<A>(
    all: Map<u128, Sink<A>>,
    id: RequestId,
    datagram: Seq<u8>,
    from: A,
    feedback: Playhead,
    now: Instant,
)
    ensures
        routed(datagram) is None ==> receiving(all, datagram, from, feedback, now) == (
            all,
            None::<SinkStepView<A>>,
        ),
        routed(datagram) == Some(id) && !all.contains_key(id.0) ==> receiving(
            all,
            datagram,
            from,
            feedback,
            now,
        ) == (all, None::<SinkStepView<A>>),
        routed(datagram) == Some(id) && all.contains_key(id.0) ==> receiving(
            all,
            datagram,
            from,
            feedback,
            now,
        ).1 == all[id.0].received(
            id,
            opened_body(all[id.0].key, datagram, Direction::Send),
            from,
            feedback,
            now,
        ).1,
        all.contains_key(id.0) ==> ticking(all, id, feedback, now).1 == Some(
            all[id.0].ticked(id, feedback, now).1,
        ) && dropping(all, id, now).1 == all[id.0].complaint(now),
        !all.contains_key(id.0) ==> ticking(all, id, feedback, now) == (
            all,
            None::<SinkStepView<A>>,
        ) && dropping(all, id, now) == (all, None::<u64>),
        routed(datagram) == if datagram.len() < 22 || datagram[0] != 4 {
            None
        } else {
            Some(RequestId(be_value(datagram.subrange(2, 18)) as u128))
        },
{
}

/// The calls on one transfer, as calls on its session: a packet is handed in, and
/// what the receiver makes of it, if it is to be let through, is applied at once,
/// with the same report and the same time; and so for a tick.
pub open spec fn as_session<A>(
    cfg: ReceiverConfig,
    start: Instant,
    inputs: Seq<TransferInput<A>>,
) -> Seq<SinkInput<A>>
    decreases inputs.len(),
{
    if inputs.len() == 0 {
        Seq::empty()
    } else {
        let before = inputs.drop_last();
        let rest = as_session(cfg, start, before);
        let events = last_events(cfg, start, fed_by(inputs));
        match inputs.last() {
            TransferInput::Received { packet, from, feedback, now } => {
                let handed_in = rest.push(SinkInput::Packet { packet, from, now });
                if fed_by(inputs).len() > fed_by(before).len() {
                    handed_in.push(SinkInput::Apply { events, feedback, now })
                } else {
                    handed_in
                }
            },
            TransferInput::Ticked { feedback, now } => rest.push(SinkInput::Tick { now }).push(
                SinkInput::Apply { events, feedback, now },
            ),
            TransferInput::Dropped { now } => rest.push(SinkInput::Dropped { now }),
        }
    }
}

/// A transfer does what its session does: every event of the receiver is applied,
/// in order, in the call that caused it, and the actions are handed out as they
/// come.
pub proof fn lemma_a_transfer_does_what_its_session_does<A>(
    key: Seq<u8>,
    cfg: ReceiverConfig,
    start: Instant,
    id: RequestId,
    inputs: Seq<TransferInput<A>>,
)
    ensures
        ({
            let armed = Sink::<A>::armed(key, cfg, start);
            armed.transfer(id, inputs) == armed.run(id, as_session(cfg, start, inputs))
        }),
    decreases inputs.len(),
{
    let armed = Sink::<A>::armed(key, cfg, start);
    if inputs.len() > 0 {
        let before = inputs.drop_last();
        lemma_a_transfer_does_what_its_session_does(key, cfg, start, id, before);
        lemma_a_transfer_goes_by_what_it_was_sent(key, cfg, start, id, before);
        lemma_replay_of_transfer(armed, id, before);
        let rest = as_session(cfg, start, before);
        let all = as_session(cfg, start, inputs);
        let (s, actions) = armed.transfer(id, before);
        let none = Seq::<SinkActionView>::empty();
        assert(actions + none =~= actions);
        match inputs.last() {
            TransferInput::Received { packet, from, feedback, now } => {
                if let Ok((header, body)) = packet {
                    lemma_what_is_let_through(headers_of(before), header);
                }
                let one = SinkInput::Packet { packet, from, now };
                assert(rest.push(one).drop_last() =~= rest);
                assert(armed.run(id, rest.push(one)) == (s.admitted(packet, from, now).0, actions));
                if fed_by(inputs).len() > fed_by(before).len() {
                    assert(fed_by(inputs).drop_last() =~= fed_by(before));
                    assert(all.drop_last() =~= rest.push(one));
                }
            },
            TransferInput::Ticked { feedback, now } => {
                let one = SinkInput::<A>::Tick { now };
                assert(rest.push(one).drop_last() =~= rest);
                assert(armed.run(id, rest.push(one)) == (s.driven(now).0, actions));
                assert(fed_by(inputs).drop_last() =~= fed_by(before));
                assert(all.drop_last() =~= rest.push(one));
            },
            TransferInput::Dropped { now } => {
                assert(all.drop_last() =~= rest);
            },
        }
    }
}

} // verus!
