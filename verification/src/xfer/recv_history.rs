//! What a receiver does, told from the calls that were made of it.
//!
//! Every quantity that a law here speaks of is read off the series of calls, or
//! off the events that they caused, and never off the receiver's state.

use vstd::prelude::*;

use super::receiver::{
    held_bytes, lemma_held_insert, lemma_held_none, FrameView, Receiving, RecvEventView, HOUR_NANOS,
};
use super::recv_laws::{
    account, end_of, fed_number, first_fed, frame_of, last_declared,
    lemma_a_packet_asks_for_nothing, lemma_a_whole_stream_has_ended, lemma_account_grown,
    lemma_account_one, lemma_account_plus, lemma_fed_later, lemma_filtered, lemma_rel_finished,
    lemma_reported, lemma_the_books_follow_the_requests, lemma_the_state_follows_the_calls,
    lemma_times_plus, lemma_wound_up, times, whole, Account, RecvInput,
};
use crate::config::{backoff_after, ReceiverConfig};
use crate::frame::BodyView;
use crate::time::{Duration, Instant};
use crate::types::{RelAbortReason, RelOutcome, XferSeq};

verus! {

/// Where the unbroken run of numbers fed in that follows `n` ends.
pub open spec fn prefix_from(inputs: Seq<RecvInput>, n: u32) -> u32
    decreases u32::MAX - n,
{
    if n < u32::MAX && fed_number(inputs, (n + 1) as u32) {
        prefix_from(inputs, (n + 1) as u32)
    } else {
        n
    }
}

/// The greatest `n` such that all of 1 to `n` were fed in.
pub open spec fn prefix(inputs: Seq<RecvInput>) -> u32 {
    prefix_from(inputs, 0)
}

/// The greatest number fed in, or zero.
pub open spec fn highest(inputs: Seq<RecvInput>) -> u32
    decreases inputs.len(),
{
    if inputs.len() == 0 {
        0
    } else {
        let before = highest(inputs.drop_last());
        match frame_of(inputs.last()) {
            Some(f) => if f.seq.0 > before {
                f.seq.0
            } else {
                before
            },
            None => before,
        }
    }
}

/// When the last packet came in, or the start if none has.
pub open spec fn heard_at(start: Instant, inputs: Seq<RecvInput>) -> Instant
    decreases inputs.len(),
{
    if inputs.len() == 0 {
        start
    } else {
        match inputs.last() {
            RecvInput::Handle { now, .. } => now,
            _ => heard_at(start, inputs.drop_last()),
        }
    }
}

/// When the last packet came in that the prefix grew with, or the start if none
/// has.
pub open spec fn progressed_at(start: Instant, inputs: Seq<RecvInput>) -> Instant
    decreases inputs.len(),
{
    if inputs.len() == 0 {
        start
    } else {
        let before = inputs.drop_last();
        match inputs.last() {
            RecvInput::Handle { now, .. } if prefix(inputs) > prefix(before) => now,
            _ => progressed_at(start, before),
        }
    }
}

/// The greatest number up to which a keepalive has reported frames as lost, or
/// zero.
pub open spec fn lost_reported(inputs: Seq<RecvInput>) -> u32
    decreases inputs.len(),
{
    if inputs.len() == 0 {
        0
    } else {
        let before = lost_reported(inputs.drop_last());
        match inputs.last() {
            RecvInput::Handle { body: BodyView::Keepalive { lost_below }, .. } => if lost_below.0
                > before {
                lost_below.0
            } else {
                before
            },
            _ => before,
        }
    }
}

/// The occupancy that the caller reported last, or zero.
pub open spec fn occupancy_reported(inputs: Seq<RecvInput>) -> u64
    decreases inputs.len(),
{
    if inputs.len() == 0 {
        0
    } else {
        match inputs.last() {
            RecvInput::Buffered { ms } => ms,
            _ => occupancy_reported(inputs.drop_last()),
        }
    }
}

/// The frames that were fed in beyond the prefix, by number; of several under one
/// number the first.
pub open spec fn waiting(inputs: Seq<RecvInput>) -> Map<u32, FrameView> {
    Map::new(
        |k: u32| k > prefix(inputs) && fed_number(inputs, k),
        |k: u32| first_fed(inputs, k)->0,
    )
}

/// The numbers below `end`, ascending, that were not fed in.
pub open spec fn missing_below(inputs: Seq<RecvInput>, end: nat) -> Seq<XferSeq>
    decreases end,
{
    if end <= 1 {
        Seq::empty()
    } else {
        let rest = missing_below(inputs, (end - 1) as nat);
        if fed_number(inputs, (end - 1) as u32) {
            rest
        } else {
            rest.push(XferSeq((end - 1) as u32))
        }
    }
}

/// The lowest numbers missing below the greatest one fed in, as many as one
/// request can name.
pub open spec fn first_missing(inputs: Seq<RecvInput>) -> Seq<XferSeq> {
    let all = missing_below(inputs, highest(inputs) as nat);
    if all.len() <= 128 {
        all
    } else {
        all.take(128)
    }
}

/// The time of a call that has one.
pub open spec fn time_of(input: RecvInput) -> Instant {
    match input {
        RecvInput::Handle { now, .. } => now,
        RecvInput::Tick { now } => now,
        RecvInput::Buffered { .. } => arbitrary(),
    }
}

/// The reports of progress among `events`.
pub open spec fn acks(events: Seq<RecvEventView>) -> Seq<RecvEventView>
    decreases events.len(),
{
    if events.len() == 0 {
        Seq::empty()
    } else {
        let rest = acks(events.drop_last());
        if events.last() is SendAck {
            rest.push(events.last())
        } else {
            rest
        }
    }
}

/// The events that the last of the calls caused.
pub open spec fn last_events(
    cfg: ReceiverConfig,
    start: Instant,
    inputs: Seq<RecvInput>,
) -> Seq<RecvEventView> {
    Receiving::fresh(cfg, start).run(inputs.drop_last()).0.step(inputs.last()).1
}

/// When progress was last reported, or the start if it never was.
pub open spec fn acked_at(cfg: ReceiverConfig, start: Instant, inputs: Seq<RecvInput>) -> Instant
    decreases inputs.len(),
{
    if inputs.len() == 0 {
        start
    } else if acks(last_events(cfg, start, inputs)).len() > 0 {
        time_of(inputs.last())
    } else {
        acked_at(cfg, start, inputs.drop_last())
    }
}

/// When the frame numbered `k` was last asked for, if it ever was.
pub open spec fn asked_at(
    cfg: ReceiverConfig,
    start: Instant,
    inputs: Seq<RecvInput>,
    k: u32,
) -> Option<Instant>
    decreases inputs.len(),
{
    if inputs.len() == 0 {
        None
    } else if times(account(last_events(cfg, start, inputs)).requests, k) > 0 {
        Some(time_of(inputs.last()))
    } else {
        asked_at(cfg, start, inputs.drop_last(), k)
    }
}

/// Whether a tick looks for gaps: the transfer is open and its stream going on, the
/// peer is not gone, and there is no stall.
pub open spec fn looks_for_gaps(
    cfg: ReceiverConfig,
    start: Instant,
    inputs: Seq<RecvInput>,
    now: Instant,
) -> bool {
    let before = account(Receiving::fresh(cfg, start).run(inputs).1);
    let heard = heard_at(start, inputs);
    &&& before.closed == 0
    &&& before.outcomes.len() == 0
    &&& now@ - heard@ <= cfg.idle_timeout@
    &&& !(now@ - progressed_at(start, inputs)@ > cfg.rel_stall_timeout@ && now@ - heard@
        <= cfg.rel_stall_timeout@)
}

/// When a tick first looked at the frame numbered `k` as a gap, if one has.
pub open spec fn looked_at(
    cfg: ReceiverConfig,
    start: Instant,
    inputs: Seq<RecvInput>,
    k: u32,
) -> Option<Instant>
    decreases inputs.len(),
{
    if inputs.len() == 0 {
        None
    } else {
        let before = inputs.drop_last();
        match looked_at(cfg, start, before, k) {
            Some(t) => Some(t),
            None => match inputs.last() {
                RecvInput::Tick { now } => if looks_for_gaps(cfg, start, before, now)
                    && first_missing(before).contains(XferSeq(k)) {
                    Some(now)
                } else {
                    None
                },
                _ => None,
            },
        }
    }
}

/// Whether it is time to ask for the frame numbered `k`. If it was asked for
/// before, the wait after that many requests must have passed since the last; if
/// not, it is as if it had been asked for an hour before a tick first looked at
/// it, so that a first wait of up to an hour is no wait at all.
pub open spec fn is_time_for(
    cfg: ReceiverConfig,
    start: Instant,
    inputs: Seq<RecvInput>,
    k: u32,
    now: Instant,
) -> bool {
    let n = times(account(Receiving::fresh(cfg, start).run(inputs).1).requests, k);
    let wait = wait_after(cfg.nack_backoff@, n);
    let since = match asked_at(cfg, start, inputs, k) {
        Some(t) => now@ - t@,
        None => match looked_at(cfg, start, inputs, k) {
            Some(t) => now@ - t@ + 3_600_000_000_000,
            None => 3_600_000_000_000,
        },
    };
    since >= wait || wait == 0
}

proof fn lemma_prefix_from(inputs: Seq<RecvInput>, n: u32)
    ensures
        n <= prefix_from(inputs, n),
        forall|k: u32| n < k <= prefix_from(inputs, n) ==> #[trigger] fed_number(inputs, k),
        prefix_from(inputs, n) < u32::MAX ==> !fed_number(
            inputs,
            (prefix_from(inputs, n) + 1) as u32,
        ),
    decreases u32::MAX - n,
{
    if n < u32::MAX && fed_number(inputs, (n + 1) as u32) {
        lemma_prefix_from(inputs, (n + 1) as u32);
    }
}

/// All numbers from 1 to the prefix were fed in, and the next one was not.
pub proof fn lemma_prefix(inputs: Seq<RecvInput>)
    ensures
        forall|k: u32| 1 <= k <= prefix(inputs) ==> #[trigger] fed_number(inputs, k),
        prefix(inputs) < u32::MAX ==> !fed_number(inputs, (prefix(inputs) + 1) as u32),
{
    lemma_prefix_from(inputs, 0);
}

/// Nothing beyond the highest number was fed in, and it was fed in itself unless
/// it is zero.
pub proof fn lemma_highest(inputs: Seq<RecvInput>)
    ensures
        forall|k: u32| #[trigger] fed_number(inputs, k) ==> k <= highest(inputs),
        highest(inputs) > 0 ==> fed_number(inputs, highest(inputs)),
    decreases inputs.len(),
{
    if inputs.len() > 0 {
        lemma_highest(inputs.drop_last());
        lemma_fed_later(inputs);
    }
}

/// Whether none of `events` reports progress.
spec fn quiet(events: Seq<RecvEventView>) -> bool {
    forall|i: int| 0 <= i < events.len() ==> !(#[trigger] events[i] is SendAck)
}

proof fn lemma_quiet(events: Seq<RecvEventView>)
    requires
        quiet(events),
    ensures
        acks(events).len() == 0,
    decreases events.len(),
{
    if events.len() > 0 {
        let rest = events.drop_last();
        assert forall|i: int| 0 <= i < rest.len() implies !(#[trigger] rest[i] is SendAck) by {
            assert(rest[i] == events[i]);
        }
        lemma_quiet(rest);
        assert(events.last() == events[events.len() - 1]);
    }
}

proof fn lemma_quiet_plus(a: Seq<RecvEventView>, b: Seq<RecvEventView>)
    requires
        quiet(a),
        quiet(b),
    ensures
        quiet(a + b),
{
    assert forall|i: int| 0 <= i < (a + b).len() implies !(#[trigger] (a + b)[i] is SendAck) by {
        if i < a.len() {
            assert((a + b)[i] == a[i]);
        } else {
            assert((a + b)[i] == b[i - a.len()]);
        }
    }
}

proof fn lemma_acks_after(quietly: Seq<RecvEventView>, s: Receiving, now: Instant)
    requires
        quiet(quietly),
    ensures
        acks(quietly + s.reported(now).1) == s.reported(now).1,
{
    let ack = s.reported(now).1;
    lemma_quiet(quietly);
    if ack.len() > 0 {
        assert((quietly + ack).drop_last() =~= quietly);
        assert((quietly + ack).last() == ack[0]);
        assert(acks(quietly + ack) =~= ack);
    } else {
        assert(quietly + ack =~= quietly);
    }
}

proof fn lemma_wound_up_is_quiet(s: Receiving)
    ensures
        quiet(s.wound_up().1),
{
}

proof fn lemma_took_is_quiet(s: Receiving, f: FrameView, now: Instant)
    ensures
        quiet(s.took(f, now).1),
{
    let fresh = s.arrivals.fresh(f.seq.0);
    let r = Receiving { arrivals: s.arrivals.recorded(f.seq.0), ..s };
    let played = if fresh && s.cfg.mode is Dual {
        seq![RecvEventView::Unreliable(f)]
    } else {
        Seq::empty()
    };
    if s.streaming && fresh {
        let held = s.reorder.insert(f.seq.0, f);
        let out = r.aborted(RelAbortReason::BufferExhausted).1;
        lemma_quiet_plus(played, out);
        let (u, grown) = Receiving { reorder: held, ..r }.released(s.arrivals.contiguous, now);
        lemma_quiet_plus(played, grown);
        lemma_wound_up_is_quiet(u);
        lemma_quiet_plus(played + grown, u.wound_up().1);
    }
}

/// The occupancy as a report carries it.
pub open spec fn clamped(ms: u64) -> u16 {
    if ms <= 65_535 {
        ms as u16
    } else {
        65_535
    }
}

/// What a step does to the clocks and to what was reported, in terms of the state
/// after it.
spec fn clocked(s: Receiving, t: Receiving, now: Instant, out: Seq<RecvEventView>) -> bool {
    let due = now@ - s.last_ack_at@ >= s.cfg.ack_interval@ || s.cfg.ack_interval@ == 0;
    &&& t.cfg == s.cfg
    &&& acks(out) == if !t.closed && due && t.arrivals.highest > 0 {
        seq![
            RecvEventView::SendAck {
                contiguous: XferSeq(t.arrivals.contiguous),
                highest: XferSeq(t.arrivals.highest),
                buffered_ms: clamped(t.buffered_ms),
            },
        ]
    } else {
        Seq::empty()
    }
    &&& t.last_ack_at == if acks(out).len() > 0 {
        now
    } else {
        s.last_ack_at
    }
    &&& t.buffered_ms == s.buffered_ms
}

proof fn lemma_handle_clocks(s: Receiving, seq: XferSeq, body: BodyView, now: Instant)
    requires
        s.valid(),
    ensures
        ({
            let (t, out) = s.handled(seq, body, now);
            &&& clocked(s, t, now, out)
            &&& t.last_packet_at == now
            &&& t.sender_lost_below == match body {
                BodyView::Keepalive { lost_below } => if lost_below.0 > s.sender_lost_below {
                    lost_below.0
                } else {
                    s.sender_lost_below
                },
                _ => s.sender_lost_below,
            }
            &&& t.streaming ==> t.last_rel_progress_at == if t.arrivals.contiguous
                > s.arrivals.contiguous {
                now
            } else {
                s.last_rel_progress_at
            }
            &&& t.arrivals == match body {
                BodyView::Data { .. } => s.arrivals.recorded(seq.0),
                _ => s.arrivals,
            }
        }),
{
    let r = Receiving { last_packet_at: now, ..s };
    let (m, out) = match body {
        BodyView::Data { ts, payload } => r.took(FrameView { seq, ts, payload }, now),
        BodyView::End { final_seq } => Receiving { final_seq: Some(final_seq), ..r }.wound_up(),
        BodyView::Keepalive { lost_below } => {
            let (u, warning) = r.warned(lost_below);
            let (v, end) = u.wound_up();
            (v, warning + end)
        },
        _ => (r, Seq::empty()),
    };
    s.arrivals.lemma_recorded(seq.0);
    match body {
        BodyView::Data { ts, payload } => {
            lemma_took_is_quiet(r, FrameView { seq, ts, payload }, now);
        },
        BodyView::End { final_seq } => {
            lemma_wound_up_is_quiet(Receiving { final_seq: Some(final_seq), ..r });
        },
        BodyView::Keepalive { lost_below } => {
            let (u, warning) = r.warned(lost_below);
            lemma_wound_up_is_quiet(u);
            lemma_quiet_plus(warning, u.wound_up().1);
        },
        _ => {},
    }
    assert(quiet(out));
    lemma_acks_after(out, m, now);
    assert(acks(s.handled(seq, body, now).1) == m.reported(now).1);
}

proof fn lemma_tick_clocks(s: Receiving, now: Instant)
    requires
        s.valid(),
    ensures
        ({
            let (t, out) = s.ticked(now);
            &&& clocked(s, t, now, out)
            &&& t.last_packet_at == s.last_packet_at
            &&& t.sender_lost_below == s.sender_lost_below
            &&& t.last_rel_progress_at == s.last_rel_progress_at
            &&& t.arrivals == s.arrivals
        }),
{
    let (t, all) = s.ticked(now);
    if s.closed {
        assert(acks(all) =~= Seq::empty());
    } else if now@ - s.last_packet_at@ > s.cfg.idle_timeout@ {
        assert(quiet(all));
        lemma_quiet(all);
        assert(acks(all) =~= Seq::empty());
    } else {
        let (m, out) = if !s.streaming {
            (s, Seq::empty())
        } else if s.stalled(now) {
            s.aborted(RelAbortReason::Stalled)
        } else {
            s.requested(now)
        };
        assert(quiet(out));
        lemma_acks_after(out, m, now);
        assert(acks(all) == m.reported(now).1);
    }
}

/// What the state is after any series of calls, in terms of the calls.
spec fn mirrors(cfg: ReceiverConfig, start: Instant, inputs: Seq<RecvInput>, s: Receiving) -> bool {
    &&& s.arrivals.contiguous == prefix(inputs)
    &&& s.arrivals.highest == highest(inputs)
    &&& s.last_packet_at == heard_at(start, inputs)
    &&& s.last_ack_at == acked_at(cfg, start, inputs)
    &&& s.buffered_ms == occupancy_reported(inputs)
    &&& s.sender_lost_below == lost_reported(inputs)
    &&& s.streaming ==> s.last_rel_progress_at == progressed_at(start, inputs)
}

proof fn lemma_prefix_is_contiguous(cfg: ReceiverConfig, start: Instant, inputs: Seq<RecvInput>)
    ensures
        Receiving::fresh(cfg, start).run(inputs).0.arrivals.contiguous == prefix(inputs),
{
    lemma_the_state_follows_the_calls(cfg, start, inputs);
    lemma_prefix(inputs);
    let s = Receiving::fresh(cfg, start).run(inputs).0;
    let c = s.arrivals.contiguous;
    let p = prefix(inputs);
    if c < p {
        let k = (c + 1) as u32;
        assert(fed_number(inputs, k));
        assert(s.arrivals.has(k));
    }
    if p < c {
        let k = (p + 1) as u32;
        assert(s.arrivals.has(k));
    }
}

proof fn lemma_mirrors(cfg: ReceiverConfig, start: Instant, inputs: Seq<RecvInput>)
    ensures
        mirrors(cfg, start, inputs, Receiving::fresh(cfg, start).run(inputs).0),
    decreases inputs.len(),
{
    lemma_prefix_is_contiguous(cfg, start, inputs);
    if inputs.len() > 0 {
        let before = inputs.drop_last();
        lemma_mirrors(cfg, start, before);
        lemma_prefix_is_contiguous(cfg, start, before);
        lemma_the_state_follows_the_calls(cfg, start, before);
        let s = Receiving::fresh(cfg, start).run(before).0;
        let (t, out) = s.step(inputs.last());
        assert(out == last_events(cfg, start, inputs));
        match inputs.last() {
            RecvInput::Handle { seq, body, now } => {
                lemma_handle_clocks(s, seq, body, now);
            },
            RecvInput::Tick { now } => {
                lemma_tick_clocks(s, now);
            },
            RecvInput::Buffered { ms } => {},
        }
    }
}

/// As long as the stream goes on, the receiver takes its last progress to be the
/// last call that the prefix grew in, or the start if it has not grown; and it
/// takes the sender to have spoken last at the last packet, or at the start.
pub proof fn lemma_the_clocks_follow_the_calls(
    cfg: ReceiverConfig,
    start: Instant,
    inputs: Seq<RecvInput>,
)
    ensures
        ({
            let (s, events) = Receiving::fresh(cfg, start).run(inputs);
            &&& account(events).outcomes.len() == 0 ==> s.last_rel_progress_at == progressed_at(
                start,
                inputs,
            )
            &&& s.last_packet_at == heard_at(start, inputs)
            &&& s.last_ack_at == acked_at(cfg, start, inputs)
        }),
{
    lemma_mirrors(cfg, start, inputs);
    lemma_the_state_follows_the_calls(cfg, start, inputs);
}

/// Whether one of the gaps of a round is hopeless.
spec fn doomed(s: Receiving, now: Instant) -> bool {
    exists|i: int| 0 <= i < s.gaps().len() && s.hopeless(#[trigger] s.gaps()[i], now)
}

/// The gaps of a round that it is time for.
spec fn asking(s: Receiving, now: Instant) -> Seq<XferSeq> {
    s.gaps().filter(|k: XferSeq| s.wanted(k, now))
}

/// What a tick amounts to.
spec fn tick_account(s: Receiving, t: Receiving, now: Instant, b: Account) -> bool {
    let silent = now@ - s.last_packet_at@ > s.cfg.idle_timeout@;
    let stall = now@ - s.last_rel_progress_at@ > s.cfg.rel_stall_timeout@ && now@
        - s.last_packet_at@ <= s.cfg.rel_stall_timeout@;
    &&& b.reliable.len() == 0
    &&& b.played.len() == 0
    &&& b.confirmed == 0
    &&& s.closed ==> t.closed && b == Account::none()
    &&& !s.closed ==> {
        &&& t.closed == silent
        &&& b.closed == if silent {
            1nat
        } else {
            0
        }
        &&& b.outcomes == if !s.streaming {
            Seq::empty()
        } else if silent {
            seq![RelOutcome::Aborted(RelAbortReason::PeerGone)]
        } else if stall {
            seq![RelOutcome::Aborted(RelAbortReason::Stalled)]
        } else if doomed(s, now) {
            seq![RelOutcome::Aborted(RelAbortReason::UnrecoverableGap)]
        } else {
            Seq::empty()
        }
        &&& b.requests == if s.streaming && !silent && !stall && !doomed(s, now) && asking(
            s,
            now,
        ).len() > 0 {
            seq![asking(s, now)]
        } else {
            Seq::empty()
        }
    }
}

proof fn lemma_tick_account(s: Receiving, now: Instant)
    requires
        s.valid(),
    ensures
        tick_account(s, s.ticked(now).0, now, account(s.ticked(now).1)),
{
    let (t, all) = s.ticked(now);
    let b = account(all);
    let gone = RelOutcome::Aborted(RelAbortReason::PeerGone);
    let stuck = RelOutcome::Aborted(RelAbortReason::Stalled);
    let lost = RelOutcome::Aborted(RelAbortReason::UnrecoverableGap);
    assert forall|o: RelOutcome| #[trigger] Account::none().outcomes.push(o) =~= seq![o] by {}
    lemma_rel_finished(s, gone);
    lemma_rel_finished(s, stuck);
    lemma_rel_finished(s, lost);
    if s.closed {
    } else if now@ - s.last_packet_at@ > s.cfg.idle_timeout@ {
        let out = s.aborted(RelAbortReason::PeerGone).1;
        assert(all.drop_last() =~= out);
    } else {
        let ask = asking(s, now);
        lemma_account_one(RecvEventView::SendNack { missing: ask });
        assert(Account::none().requests.push(ask) =~= seq![ask]);
        let (m, out) = if !s.streaming {
            (s, Seq::empty())
        } else if s.stalled(now) {
            s.aborted(RelAbortReason::Stalled)
        } else {
            s.requested(now)
        };
        lemma_reported(m, now);
        lemma_account_plus(out, m.reported(now).1);
        assert(b =~= account(out));
    }
}

/// Only silence lets a tick close the transfer: a tick closes it exactly if it is
/// open and more than the idle timeout has passed since the last packet, or since
/// the start if none has come, however little the stream itself has progressed.
/// Then a stream that is still going is aborted because the peer is gone, which
/// happens in no other way. A closed transfer has nothing more to say to a tick.
pub proof fn lemma_a_tick_closes_only_a_silent_transfer(
    cfg: ReceiverConfig,
    start: Instant,
    inputs: Seq<RecvInput>,
    now: Instant,
)
    ensures
        ({
            let (s, events) = Receiving::fresh(cfg, start).run(inputs);
            let before = account(events);
            let (t, out) = s.step(RecvInput::Tick { now });
            let gone = RelOutcome::Aborted(RelAbortReason::PeerGone);
            let silent = now@ - heard_at(start, inputs)@ > cfg.idle_timeout@;
            &&& before.closed > 0 ==> out.len() == 0 && t.closed
            &&& before.closed == 0 ==> {
                &&& t.closed <==> silent
                &&& account(out).closed == if silent {
                    1nat
                } else {
                    0
                }
                &&& account(out).outcomes.contains(gone) <==> silent && before.outcomes.len() == 0
            }
        }),
{
    lemma_mirrors(cfg, start, inputs);
    lemma_the_state_follows_the_calls(cfg, start, inputs);
    let s = Receiving::fresh(cfg, start).run(inputs).0;
    lemma_tick_account(s, now);
    let outcomes = account(s.ticked(now).1).outcomes;
    if outcomes.len() > 0 {
        assert(outcomes.contains(outcomes[0]));
    }
}

/// A stall is a prefix that stands still while packets come in: a tick reports
/// one exactly if the stream is going on, the peer is not gone, more than the
/// stall timeout has passed since the last call in which the prefix grew, or
/// since the start if it never has, and no more than that since the last packet.
/// So no tick at most the stall timeout after progress reports a stall.
pub proof fn lemma_a_stall_is_a_prefix_that_stands_still(
    cfg: ReceiverConfig,
    start: Instant,
    inputs: Seq<RecvInput>,
    now: Instant,
)
    ensures
        ({
            let (s, events) = Receiving::fresh(cfg, start).run(inputs);
            let before = account(events);
            let out = s.step(RecvInput::Tick { now }).1;
            account(out).outcomes.contains(RelOutcome::Aborted(RelAbortReason::Stalled)) <==> {
                &&& before.closed == 0
                &&& before.outcomes.len() == 0
                &&& now@ - heard_at(start, inputs)@ <= cfg.idle_timeout@
                &&& now@ - progressed_at(start, inputs)@ > cfg.rel_stall_timeout@
                &&& now@ - heard_at(start, inputs)@ <= cfg.rel_stall_timeout@
            }
        }),
{
    lemma_mirrors(cfg, start, inputs);
    lemma_the_state_follows_the_calls(cfg, start, inputs);
    let s = Receiving::fresh(cfg, start).run(inputs).0;
    lemma_tick_account(s, now);
    let outcomes = account(s.ticked(now).1).outcomes;
    if outcomes.len() > 0 {
        assert(outcomes.contains(outcomes[0]));
    }
}

/// Progress is reported whenever it is due, in either mode: a call that leaves
/// the transfer open, with at least the interval passed since the last report, or
/// since the start if there was none, and a frame received at all, reports once,
/// and no other call does. The report names the end of the prefix and the highest
/// number, both with what this call brought, and the occupancy that was reported
/// last.
pub proof fn lemma_progress_is_reported_when_due(
    cfg: ReceiverConfig,
    start: Instant,
    inputs: Seq<RecvInput>,
    input: RecvInput,
)
    requires
        !(input is Buffered),
    ensures
        ({
            let (s, events) = Receiving::fresh(cfg, start).run(inputs);
            let out = s.step(input).1;
            let after = inputs.push(input);
            let since = time_of(input)@ - acked_at(cfg, start, inputs)@;
            acks(out) == if account(events + out).closed == 0 && highest(after) > 0 && (since
                >= cfg.ack_interval@ || cfg.ack_interval@ == 0) {
                seq![
                    RecvEventView::SendAck {
                        contiguous: XferSeq(prefix(after)),
                        highest: XferSeq(highest(after)),
                        buffered_ms: clamped(occupancy_reported(inputs)),
                    },
                ]
            } else {
                Seq::empty()
            }
        }),
{
    let after = inputs.push(input);
    assert(after.drop_last() =~= inputs);
    lemma_mirrors(cfg, start, inputs);
    lemma_mirrors(cfg, start, after);
    lemma_the_state_follows_the_calls(cfg, start, inputs);
    lemma_the_state_follows_the_calls(cfg, start, after);
    let s = Receiving::fresh(cfg, start).run(inputs).0;
    match input {
        RecvInput::Handle { seq, body, now } => {
            lemma_handle_clocks(s, seq, body, now);
        },
        RecvInput::Tick { now } => {
            lemma_tick_clocks(s, now);
        },
        RecvInput::Buffered { ms } => {},
    }
}

proof fn lemma_missing_are_gaps(
    cfg: ReceiverConfig,
    start: Instant,
    inputs: Seq<RecvInput>,
    end: nat,
)
    requires
        end <= highest(inputs),
    ensures
        Receiving::fresh(cfg, start).run(inputs).0.arrivals.gaps_below(end) == missing_below(
            inputs,
            end,
        ),
    decreases end,
{
    let a = Receiving::fresh(cfg, start).run(inputs).0.arrivals;
    lemma_the_state_follows_the_calls(cfg, start, inputs);
    if end > 0 {
        lemma_missing_are_gaps(cfg, start, inputs, (end - 1) as nat);
        let k = (end - 1) as u32;
        assert(a.has(k) <==> k == 0 || fed_number(inputs, k));
        if !a.has(k) {
            lemma_highest(inputs);
            assert(a.has(highest(inputs)));
            assert(a.ahead.contains(highest(inputs)));
            assert(a.is_gap(k));
        }
    }
}

proof fn lemma_first_missing(cfg: ReceiverConfig, start: Instant, inputs: Seq<RecvInput>)
    ensures
        Receiving::fresh(cfg, start).run(inputs).0.gaps() == first_missing(inputs),
{
    lemma_mirrors(cfg, start, inputs);
    lemma_missing_are_gaps(cfg, start, inputs, highest(inputs) as nat);
}

proof fn lemma_missing_below(inputs: Seq<RecvInput>, end: nat)
    requires
        end <= u32::MAX + 1,
    ensures
        forall|i: int, j: int|
            0 <= i < j < missing_below(inputs, end).len() ==> #[trigger] missing_below(
                inputs,
                end,
            )[i].0 < #[trigger] missing_below(inputs, end)[j].0,
        forall|i: int|
            0 <= i < missing_below(inputs, end).len() ==> {
                let k = (#[trigger] missing_below(inputs, end)[i]).0;
                0 < k < end && !fed_number(inputs, k)
            },
        forall|k: u32|
            0 < k < end && !(#[trigger] fed_number(inputs, k)) ==> missing_below(
                inputs,
                end,
            ).contains(XferSeq(k)),
    decreases end,
{
    if end > 1 {
        let e = (end - 1) as nat;
        lemma_missing_below(inputs, e);
        let g = missing_below(inputs, e);
        let all = missing_below(inputs, end);
        assert forall|k: u32| 0 < k < end && !(#[trigger] fed_number(inputs, k)) implies
            all.contains(XferSeq(k)) by {
            if k < e {
                let i = choose|i: int| 0 <= i < g.len() && g[i] == XferSeq(k);
                assert(all[i] == XferSeq(k));
            } else {
                assert(all[all.len() - 1] == XferSeq(k));
            }
        }
    }
}

/// A round looks at numbers that were not fed in and lie below one that was, in
/// ascending order, at most 128 of them; if it leaves out such a number, it looks
/// at 128 lower ones.
pub proof fn lemma_a_round_looks_at_the_lowest_gaps(inputs: Seq<RecvInput>)
    ensures
        ({
            let g = first_missing(inputs);
            &&& g.len() <= 128
            &&& forall|i: int, j: int|
                0 <= i < j < g.len() ==> (#[trigger] g[i]).0 < (#[trigger] g[j]).0
            &&& forall|i: int|
                0 <= i < g.len() ==> 0 < (#[trigger] g[i]).0 < highest(inputs) && !fed_number(
                    inputs,
                    g[i].0,
                )
            &&& forall|k: u32|
                0 < k < highest(inputs) && !(#[trigger] fed_number(inputs, k)) && !g.contains(
                    XferSeq(k),
                ) ==> g.len() == 128 && g.last().0 < k
        }),
{
    let end = highest(inputs) as nat;
    lemma_missing_below(inputs, end);
    let all = missing_below(inputs, end);
    let g = first_missing(inputs);
    assert forall|k: u32|
        0 < k < highest(inputs) && !(#[trigger] fed_number(inputs, k)) && !g.contains(
            XferSeq(k),
        ) implies g.len() == 128 && g.last().0 < k by {
        assert(all.contains(XferSeq(k)));
        let i = choose|i: int| 0 <= i < all.len() && all[i] == XferSeq(k);
        if i < g.len() {
            assert(g[i] == XferSeq(k));
        } else {
            assert(all[127].0 < all[i].0);
        }
    }
}

/// How long to wait before a frame that was asked for `n` times is asked for
/// again, in nanoseconds: the entry of the list at that place, the last one from
/// there on, or a tenth of a second if the list is empty.
pub open spec fn wait_after(delays: Seq<Duration>, n: nat) -> nat {
    if delays.len() == 0 {
        100_000_000
    } else {
        delays[if n < delays.len() {
            n as int
        } else {
            delays.len() - 1
        }]@
    }
}

/// What the bookkeeping says of a number, in terms of the requests.
spec fn booked_right(
    cfg: ReceiverConfig,
    start: Instant,
    inputs: Seq<RecvInput>,
    s: Receiving,
    k: u32,
) -> bool {
    s.streaming ==> {
        &&& s.nacks.contains_key(k) && s.nacks[k].0 > 0 ==> (asked_at(
            cfg,
            start,
            inputs,
            k,
        ) matches Some(t) && s.nacks[k].1 == t@)
        &&& s.nacks.contains_key(k) && s.nacks[k].0 == 0 ==> (looked_at(
            cfg,
            start,
            inputs,
            k,
        ) matches Some(t) && s.nacks[k].1 == t@ - HOUR_NANOS)
        &&& !s.nacks.contains_key(k) && k > s.arrivals.contiguous ==> looked_at(
            cfg,
            start,
            inputs,
            k,
        ) is None
    }
}

proof fn lemma_times_one(ask: Seq<XferSeq>, k: u32)
    ensures
        times(seq![ask], k) == if ask.contains(XferSeq(k)) {
            1nat
        } else {
            0
        },
{
    reveal_with_fuel(times, 2);
    assert(seq![ask].drop_last() =~= Seq::<Seq<XferSeq>>::empty());
}

proof fn lemma_round_is_booked(s: Receiving, now: Instant, k: u32)
    requires
        s.valid(),
        s.streaming,
        s.ticked(now).0.streaming,
    ensures
        ({
            let (t, out) = s.ticked(now);
            let n = times(account(out).requests, k);
            &&& n > 0 ==> s.gaps().contains(XferSeq(k)) && s.wanted(XferSeq(k), now)
                && t.nacks.contains_key(k) && t.nacks[k].1 == now@ && t.nacks[k].0 > 0
            &&& n == 0 && t.nacks.contains_key(k) && s.nacks.contains_key(k) ==> t.nacks[k]
                == s.nacks[k]
            &&& n == 0 && t.nacks.contains_key(k) && !s.nacks.contains_key(k) ==> t.nacks[k] == (
                0u8,
                (now@ - HOUR_NANOS) as i128,
            )
            &&& t.nacks.contains_key(k) <==> s.nacks.contains_key(k) || s.gaps().contains(
                XferSeq(k),
            )
            &&& !s.closed
            &&& now@ - s.last_packet_at@ <= s.cfg.idle_timeout@
            &&& !(now@ - s.last_rel_progress_at@ > s.cfg.rel_stall_timeout@ && now@
                - s.last_packet_at@ <= s.cfg.rel_stall_timeout@)
        }),
{
    let (t, out) = s.ticked(now);
    let gaps = s.gaps();
    let pred = |j: XferSeq| s.wanted(j, now);
    let ask = asking(s, now);
    lemma_tick_account(s, now);
    s.lemma_gaps();
    lemma_filtered(gaps, pred);
    lemma_times_one(ask, k);
    now.lemma_bound();
    assert(!doomed(s, now));
    assert(t.nacks == s.rebooked(gaps, now));
    assert(ask.contains(XferSeq(k)) <==> gaps.contains(XferSeq(k)) && s.wanted(XferSeq(k), now));
    if ask.len() == 0 {
        assert(!ask.contains(XferSeq(k)));
    }
    if ask.contains(XferSeq(k)) {
        let i = choose|i: int| 0 <= i < gaps.len() && gaps[i] == XferSeq(k);
        assert(!s.hopeless(gaps[i], now));
    }
}

proof fn lemma_booked_right(cfg: ReceiverConfig, start: Instant, inputs: Seq<RecvInput>, k: u32)
    ensures
        booked_right(cfg, start, inputs, Receiving::fresh(cfg, start).run(inputs).0, k),
    decreases inputs.len(),
{
    if inputs.len() > 0 {
        let before = inputs.drop_last();
        lemma_booked_right(cfg, start, before, k);
        lemma_the_state_follows_the_calls(cfg, start, before);
        let s = Receiving::fresh(cfg, start).run(before).0;
        let (t, out) = s.step(inputs.last());
        assert(out == last_events(cfg, start, inputs));
        if t.streaming {
            match inputs.last() {
                RecvInput::Handle { seq, body, now } => {
                    lemma_handle_asks_nothing(s, seq, body, now);
                    assert(times(account(out).requests, k) == 0);
                    assert(booked_right(cfg, start, inputs, t, k));
                },
                RecvInput::Tick { now } => {
                    lemma_mirrors(cfg, start, before);
                    lemma_first_missing(cfg, start, before);
                    lemma_tick_clocks(s, now);
                    lemma_tick_account(s, now);
                    lemma_round_is_booked(s, now, k);
                    assert(looks_for_gaps(cfg, start, before, now));
                    now.lemma_bound();
                    s.lemma_gaps();
                    if s.gaps().contains(XferSeq(k)) {
                        let i = choose|i: int| 0 <= i < s.gaps().len() && s.gaps()[i] == XferSeq(k);
                        assert(s.arrivals.is_gap(s.gaps()[i].0));
                    }
                    assert(looked_at(cfg, start, inputs, k) == match looked_at(
                        cfg,
                        start,
                        before,
                        k,
                    ) {
                        Some(t) => Some(t),
                        None => if s.gaps().contains(XferSeq(k)) {
                            Some(now)
                        } else {
                            None
                        },
                    });
                    assert(booked_right(cfg, start, inputs, t, k));
                },
                RecvInput::Buffered { ms } => {
                    assert(times(account(out).requests, k) == 0);
                },
            }
        }
    }
}

proof fn lemma_handle_asks_nothing(s: Receiving, seq: XferSeq, body: BodyView, now: Instant)
    requires
        s.valid(),
    ensures
        ({
            let (t, out) = s.handled(seq, body, now);
            &&& account(out).requests.len() == 0
            &&& t.streaming ==> s.streaming && s.arrivals.contiguous <= t.arrivals.contiguous
            &&& t.streaming ==> forall|k: u32| #[trigger]
                t.nacks.contains_key(k) ==> s.nacks.contains_key(k) && t.nacks[k] == s.nacks[k]
            &&& t.streaming ==> forall|k: u32| #[trigger]
                s.nacks.contains_key(k) && k > t.arrivals.contiguous ==> t.nacks.contains_key(k)
        }),
{
    s.arrivals.lemma_recorded(seq.0);
    lemma_a_packet_asks_for_nothing(s, seq, body, now);
}

/// A time at which a frame was last asked for is known exactly if a request has
/// named it.
pub proof fn lemma_asked_at(cfg: ReceiverConfig, start: Instant, inputs: Seq<RecvInput>, k: u32)
    ensures
        asked_at(cfg, start, inputs, k) is Some <==> times(
            account(Receiving::fresh(cfg, start).run(inputs).1).requests,
            k,
        ) > 0,
    decreases inputs.len(),
{
    if inputs.len() > 0 {
        let before = inputs.drop_last();
        lemma_asked_at(cfg, start, before, k);
        let (s, events) = Receiving::fresh(cfg, start).run(before);
        let more = last_events(cfg, start, inputs);
        lemma_account_plus(events, more);
        lemma_times_plus(account(events).requests, account(more).requests, k);
    }
}

/// What one gap of a round is worth, in terms of the requests so far.
proof fn lemma_gap_in_round(
    cfg: ReceiverConfig,
    start: Instant,
    inputs: Seq<RecvInput>,
    now: Instant,
    k: XferSeq,
)
    requires
        first_missing(inputs).contains(k),
        account(Receiving::fresh(cfg, start).run(inputs).1).outcomes.len() == 0,
    ensures
        ({
            let (s, events) = Receiving::fresh(cfg, start).run(inputs);
            let n = times(account(events).requests, k.0);
            &&& s.hopeless(k, now) <==> k.0 <= lost_reported(inputs) || n >= cfg.max_nack_attempts
            &&& s.wanted(k, now) <==> is_time_for(cfg, start, inputs, k.0, now)
        }),
{
    let (s, events) = Receiving::fresh(cfg, start).run(inputs);
    lemma_mirrors(cfg, start, inputs);
    lemma_the_state_follows_the_calls(cfg, start, inputs);
    lemma_first_missing(cfg, start, inputs);
    s.lemma_gaps();
    let i = choose|i: int| 0 <= i < s.gaps().len() && s.gaps()[i] == k;
    assert(s.arrivals.is_gap(s.gaps()[i].0));
    lemma_the_books_follow_the_requests(cfg, start, inputs, k.0);
    lemma_booked_right(cfg, start, inputs, k.0);
    lemma_asked_at(cfg, start, inputs, k.0);
    now.lemma_bound();
    let n = s.attempts(k.0);
    assert(backoff_after(cfg.nack_backoff@, n) == wait_after(cfg.nack_backoff@, n as nat));
    assert(backoff_after(cfg.nack_backoff@, 0) == wait_after(cfg.nack_backoff@, 0));
}

/// What a tick asks for, and when it gives up on a gap. A tick that finds the
/// stream going on, the peer present and no stall looks at the lowest gaps. If
/// the sender has reported one of them as lost, or one has been asked for as
/// often as allowed, the stream ends as unrecoverable, and it ends so in no other
/// way. Otherwise the tick asks, in one request and in ascending order, for each
/// of them that it is time for, and for nothing else.
pub proof fn lemma_gaps_are_asked_for_in_time(
    cfg: ReceiverConfig,
    start: Instant,
    inputs: Seq<RecvInput>,
    now: Instant,
)
    ensures
        ({
            let (s, events) = Receiving::fresh(cfg, start).run(inputs);
            let before = account(events);
            let during = account(s.step(RecvInput::Tick { now }).1);
            let g = first_missing(inputs);
            let looks = looks_for_gaps(cfg, start, inputs, now);
            let lost = exists|i: int|
                0 <= i < g.len() && ((#[trigger] g[i]).0 <= lost_reported(inputs) || times(
                    before.requests,
                    g[i].0,
                ) >= cfg.max_nack_attempts);
            &&& during.outcomes.contains(RelOutcome::Aborted(RelAbortReason::UnrecoverableGap))
                <==> looks && lost
            &&& during.requests.len() <= 1
            &&& during.requests.len() == 1 ==> forall|i: int, j: int|
                0 <= i < j < during.requests[0].len() ==> (#[trigger] during.requests[0][i]).0 < (
                #[trigger] during.requests[0][j]).0
            &&& forall|k: u32| #[trigger]
                times(during.requests, k) == if looks && !lost && g.contains(XferSeq(k))
                    && is_time_for(cfg, start, inputs, k, now) {
                    1nat
                } else {
                    0
                }
        }),
{
    let (s, events) = Receiving::fresh(cfg, start).run(inputs);
    let before = account(events);
    let during = account(s.ticked(now).1);
    let g = first_missing(inputs);
    lemma_mirrors(cfg, start, inputs);
    lemma_the_state_follows_the_calls(cfg, start, inputs);
    lemma_first_missing(cfg, start, inputs);
    lemma_tick_account(s, now);
    s.lemma_gaps();
    let pred = |k: XferSeq| s.wanted(k, now);
    let ask = asking(s, now);
    lemma_filtered(g, pred);
    if during.outcomes.len() > 0 {
        assert(during.outcomes.contains(during.outcomes[0]));
    }
    if before.outcomes.len() == 0 {
        assert forall|i: int| 0 <= i < g.len() implies (s.hopeless(#[trigger] g[i], now) <==> g[i].0
            <= lost_reported(inputs) || times(before.requests, g[i].0) >= cfg.max_nack_attempts) by {
            lemma_gap_in_round(cfg, start, inputs, now, g[i]);
        }
    }
    assert forall|k: u32| #[trigger]
        times(during.requests, k) == if during.requests.len() > 0 && ask.contains(XferSeq(k)) {
            1nat
        } else {
            0
        } by {
        lemma_times_one(ask, k);
    }
    assert forall|k: u32| before.outcomes.len() == 0 && #[trigger] g.contains(XferSeq(k)) implies (
    ask.contains(XferSeq(k)) <==> is_time_for(cfg, start, inputs, k, now)) by {
        lemma_gap_in_round(cfg, start, inputs, now, XferSeq(k));
    }
    if ask.len() == 0 {
        assert(forall|k: u32| !ask.contains(XferSeq(k)));
    }
}

/// A gap that was never asked for is asked for by the first tick that looks at it,
/// if the first wait is no longer than an hour and nothing is lost.
pub proof fn lemma_a_new_gap_is_asked_for_at_once(
    cfg: ReceiverConfig,
    start: Instant,
    inputs: Seq<RecvInput>,
    k: u32,
    now: Instant,
)
    requires
        asked_at(cfg, start, inputs, k) is None,
        looked_at(cfg, start, inputs, k) is None,
        wait_after(cfg.nack_backoff@, 0) <= 3_600_000_000_000,
    ensures
        is_time_for(cfg, start, inputs, k, now),
{
    lemma_asked_at(cfg, start, inputs, k);
}

/// Whether the stream passes one of its limits with a frame.
spec fn overruns(s: Receiving, f: FrameView) -> bool {
    s.arrivals.recorded(f.seq.0).span() > s.cfg.reorder_window || held_bytes(
        s.reorder.insert(f.seq.0, f),
    ) > s.cfg.max_reorder_bytes
}

/// What a payload frame amounts to.
spec fn frame_account(s: Receiving, f: FrameView, b: Account) -> bool {
    let r = s.arrivals.recorded(f.seq.0);
    let news = s.streaming && s.arrivals.fresh(f.seq.0);
    let ends = news && !overruns(s, f) && s.final_seq is Some && (s.final_seq->0).0 <= r.contiguous;
    &&& b.outcomes == if news && overruns(s, f) {
        seq![RelOutcome::Aborted(RelAbortReason::BufferExhausted)]
    } else if ends {
        seq![RelOutcome::Complete { final_seq: s.final_seq->0 }]
    } else {
        Seq::empty()
    }
    &&& b.confirmed == if ends {
        1nat
    } else {
        0
    }
    &&& b.closed == if ends {
        1nat
    } else {
        0
    }
    &&& b.reliable.len() == if news && !overruns(s, f) {
        r.contiguous - s.arrivals.contiguous
    } else {
        0
    }
}

proof fn lemma_frame_account(s: Receiving, f: FrameView, now: Instant)
    requires
        s.valid(),
    ensures
        frame_account(s, f, account(s.took(f, now).1)),
{
    let (t, all) = s.took(f, now);
    let r = Receiving { arrivals: s.arrivals.recorded(f.seq.0), ..s };
    let fresh = s.arrivals.fresh(f.seq.0);
    let played = if fresh && s.cfg.mode is Dual {
        seq![RecvEventView::Unreliable(f)]
    } else {
        Seq::empty()
    };
    lemma_account_one(RecvEventView::Unreliable(f));
    s.arrivals.lemma_recorded(f.seq.0);
    let b = account(all);
    if s.streaming && fresh {
        if overruns(s, f) {
            let o = RelOutcome::Aborted(RelAbortReason::BufferExhausted);
            let out = r.aborted(RelAbortReason::BufferExhausted).1;
            lemma_rel_finished(r, o);
            lemma_account_plus(played, out);
            assert(b.outcomes =~= seq![o]);
        } else {
            s.lemma_release_valid(f, now);
            let held = s.reorder.insert(f.seq.0, f);
            let (u, out) = Receiving { reorder: held, ..r }.released(s.arrivals.contiguous, now);
            let end = u.wound_up().1;
            assert(u.valid());
            lemma_account_grown(held, s.arrivals.contiguous, r.arrivals.contiguous);
            lemma_wound_up(u);
            lemma_account_plus(played, out);
            lemma_account_plus(played + out, end);
            assert(b.outcomes =~= account(end).outcomes);
        }
    } else {
        assert(b.outcomes =~= Seq::empty());
    }
}

/// What a packet without payload amounts to.
spec fn plain_account(s: Receiving, body: BodyView, b: Account) -> bool {
    let declared = match body {
        BodyView::End { final_seq } => Some(final_seq),
        _ => s.final_seq,
    };
    let complete = (body is End || body is Keepalive) && declared is Some && (declared->0).0
        <= s.arrivals.contiguous;
    let warned = match body {
        BodyView::Keepalive { lost_below } => s.streaming && lost_below.0 > s.sender_lost_below
            && lost_below.0 > s.arrivals.contiguous,
        _ => false,
    };
    &&& b.outcomes == if warned {
        seq![RelOutcome::Aborted(RelAbortReason::SenderDiscarded)]
    } else if complete && s.streaming {
        seq![RelOutcome::Complete { final_seq: declared->0 }]
    } else {
        Seq::empty()
    }
    &&& b.confirmed == if complete && !s.end_acked {
        1nat
    } else {
        0
    }
    &&& b.closed == if complete && !s.closed {
        1nat
    } else {
        0
    }
    &&& b.reliable.len() == 0
}

proof fn lemma_handle_account(s: Receiving, seq: XferSeq, body: BodyView, now: Instant)
    requires
        s.valid(),
    ensures
        ({
            let b = account(s.handled(seq, body, now).1);
            match body {
                BodyView::Data { ts, payload } => frame_account(
                    s,
                    FrameView { seq, ts, payload },
                    b,
                ),
                _ => plain_account(s, body, b),
            }
        }),
{
    let r = Receiving { last_packet_at: now, ..s };
    let all = s.handled(seq, body, now).1;
    let (m, out) = match body {
        BodyView::Data { ts, payload } => {
            let f = FrameView { seq, ts, payload };
            lemma_frame_account(r, f, now);
            r.took(f, now)
        },
        BodyView::End { final_seq } => {
            let u = Receiving { final_seq: Some(final_seq), ..r };
            lemma_wound_up(u);
            u.wound_up()
        },
        BodyView::Keepalive { lost_below } => {
            let (u, warning) = r.warned(lost_below);
            let w = Receiving { sender_lost_below: lost_below.0, ..r };
            let o = RelOutcome::Aborted(RelAbortReason::SenderDiscarded);
            lemma_rel_finished(w, o);
            lemma_wound_up(u);
            let (v, end) = u.wound_up();
            lemma_account_plus(warning, end);
            assert(Account::none().outcomes.push(o) =~= seq![o]);
            assert(account(warning + end).outcomes =~= account(warning).outcomes + account(
                end,
            ).outcomes);
            (v, warning + end)
        },
        _ => (r, Seq::empty()),
    };
    lemma_reported(m, now);
    lemma_account_plus(out, m.reported(now).1);
    assert(account(all) =~= account(out));
    match body {
        BodyView::Keepalive { lost_below } => {
            assert(plain_account(s, body, account(out)));
        },
        _ => {},
    }
}

proof fn lemma_waiting(cfg: ReceiverConfig, start: Instant, inputs: Seq<RecvInput>)
    ensures
        ({
            let (s, events) = Receiving::fresh(cfg, start).run(inputs);
            account(events).outcomes.len() == 0 ==> s.reorder == waiting(inputs)
        }),
{
    let (s, events) = Receiving::fresh(cfg, start).run(inputs);
    lemma_the_state_follows_the_calls(cfg, start, inputs);
    lemma_prefix_is_contiguous(cfg, start, inputs);
    if account(events).outcomes.len() == 0 {
        assert forall|k: u32| s.reorder.contains_key(k) <==> #[trigger] waiting(
            inputs,
        ).contains_key(k) by {
            assert(s.arrivals.has(k) <==> k == 0 || fed_number(inputs, k));
        }
        assert(s.reorder =~= waiting(inputs));
    }
}

/// Whether a call brings a frame that is news to a stream that is going on.
pub open spec fn brings_news(before: Account, inputs: Seq<RecvInput>, input: RecvInput) -> bool {
    frame_of(input) matches Some(f) && before.outcomes.len() == 0 && f.seq.0 != 0 && !fed_number(
        inputs,
        f.seq.0,
    )
}

/// Whether a call brings a frame that leaves the highest number further ahead of
/// the prefix than the window allows, or more bytes waiting than the byte limit
/// allows.
pub open spec fn brings_too_much(
    cfg: ReceiverConfig,
    inputs: Seq<RecvInput>,
    input: RecvInput,
) -> bool {
    let after = inputs.push(input);
    frame_of(input) matches Some(f) && (highest(after) - prefix(after) > cfg.reorder_window
        || held_bytes(waiting(inputs).insert(f.seq.0, f)) > cfg.max_reorder_bytes)
}

/// Whether a call brings word of a loss that no keepalive has reported before and
/// that the prefix has not passed.
pub open spec fn brings_word_of_loss(inputs: Seq<RecvInput>, input: RecvInput) -> bool {
    input matches RecvInput::Handle { body: BodyView::Keepalive { lost_below }, .. }
        && lost_below.0 > lost_reported(inputs) && lost_below.0 > prefix(inputs)
}

/// What one call amounts to, in terms of the calls before it.
spec fn step_account(
    cfg: ReceiverConfig,
    inputs: Seq<RecvInput>,
    input: RecvInput,
    before: Account,
    b: Account,
) -> bool {
    let after = inputs.push(input);
    let going = before.outcomes.len() == 0;
    let news = brings_news(before, inputs, input);
    let over = brings_too_much(cfg, inputs, input);
    let warned = going && brings_word_of_loss(inputs, input);
    let ends = whole(after) && (match input {
        RecvInput::Handle { body, .. } => match body {
            BodyView::Data { .. } => news && !over,
            BodyView::End { .. } | BodyView::Keepalive { .. } => true,
            _ => false,
        },
        _ => false,
    });
    &&& input is Handle ==> {
        &&& b.outcomes == if news && over {
            seq![RelOutcome::Aborted(RelAbortReason::BufferExhausted)]
        } else if warned {
            seq![RelOutcome::Aborted(RelAbortReason::SenderDiscarded)]
        } else if going && ends {
            seq![RelOutcome::Complete { final_seq: last_declared(after)->0 }]
        } else {
            Seq::empty()
        }
        &&& b.confirmed == if ends && before.confirmed == 0 {
            1nat
        } else {
            0
        }
        &&& b.closed == if ends && before.closed == 0 {
            1nat
        } else {
            0
        }
        &&& b.reliable.len() == if news && !over {
            prefix(after) - prefix(inputs)
        } else {
            0
        }
    }
}

proof fn lemma_step_account(
    cfg: ReceiverConfig,
    start: Instant,
    inputs: Seq<RecvInput>,
    input: RecvInput,
)
    ensures
        ({
            let (s, events) = Receiving::fresh(cfg, start).run(inputs);
            step_account(cfg, inputs, input, account(events), account(s.step(input).1))
        }),
{
    let after = inputs.push(input);
    assert(after.drop_last() =~= inputs);
    let (s, events) = Receiving::fresh(cfg, start).run(inputs);
    let (t, out) = s.step(input);
    lemma_mirrors(cfg, start, inputs);
    lemma_mirrors(cfg, start, after);
    lemma_waiting(cfg, start, inputs);
    lemma_the_state_follows_the_calls(cfg, start, inputs);
    lemma_the_state_follows_the_calls(cfg, start, after);
    lemma_a_whole_stream_has_ended(cfg, start, inputs);
    lemma_a_whole_stream_has_ended(cfg, start, after);
    if let RecvInput::Handle { seq, body, now } = input {
        lemma_handle_clocks(s, seq, body, now);
        lemma_handle_account(s, seq, body, now);
        assert(s.arrivals.has(seq.0) <==> seq.0 == 0 || fed_number(inputs, seq.0));
        assert(t.complete() <==> t.final_seq is Some && (t.final_seq->0).0
            <= t.arrivals.contiguous);
        if let BodyView::Data { ts, payload } = body {
            let f = FrameView { seq, ts, payload };
            assert(brings_news(account(events), inputs, input) <==> s.streaming
                && s.arrivals.fresh(seq.0));
            if s.streaming {
                assert(brings_too_much(cfg, inputs, input) <==> overruns(s, f));
            }
            assert(t.final_seq == s.final_seq);
        }
    }
}

/// A stream runs out of room exactly when a frame that is news leaves the highest
/// number further ahead of the prefix than the window allows, or more bytes
/// waiting than the byte limit allows.
pub proof fn lemma_only_a_frame_beyond_the_limits_exhausts_the_buffer(
    cfg: ReceiverConfig,
    start: Instant,
    inputs: Seq<RecvInput>,
    input: RecvInput,
)
    ensures
        ({
            let (s, events) = Receiving::fresh(cfg, start).run(inputs);
            account(s.step(input).1).outcomes.contains(
                RelOutcome::Aborted(RelAbortReason::BufferExhausted),
            ) <==> brings_news(account(events), inputs, input) && brings_too_much(
                cfg,
                inputs,
                input,
            )
        }),
{
    lemma_one_outcome(cfg, start, inputs, input);
}

/// A stream ends because the sender has discarded a frame exactly when a
/// keepalive reports a loss that was not reported before and that the prefix has
/// not passed.
pub proof fn lemma_only_word_of_a_loss_discards_the_stream(
    cfg: ReceiverConfig,
    start: Instant,
    inputs: Seq<RecvInput>,
    input: RecvInput,
)
    ensures
        ({
            let (s, events) = Receiving::fresh(cfg, start).run(inputs);
            account(s.step(input).1).outcomes.contains(
                RelOutcome::Aborted(RelAbortReason::SenderDiscarded),
            ) <==> account(events).outcomes.len() == 0 && brings_word_of_loss(inputs, input)
        }),
{
    lemma_one_outcome(cfg, start, inputs, input);
}

/// A stream is complete, up to the end declared last, exactly when a call makes
/// the transfer whole, unless the frame that does so passes one of the limits or
/// the same packet brings word of a loss.
pub proof fn lemma_a_stream_completes_when_it_is_whole(
    cfg: ReceiverConfig,
    start: Instant,
    inputs: Seq<RecvInput>,
    input: RecvInput,
    f: XferSeq,
)
    ensures
        ({
            let (s, events) = Receiving::fresh(cfg, start).run(inputs);
            let after = inputs.push(input);
            account(s.step(input).1).outcomes.contains(RelOutcome::Complete { final_seq: f }) <==> {
                &&& account(events).outcomes.len() == 0
                &&& whole(after)
                &&& last_declared(after) == Some(f)
                &&& !brings_too_much(cfg, inputs, input)
                &&& !brings_word_of_loss(inputs, input)
            }
        }),
{
    lemma_one_outcome(cfg, start, inputs, input);
    let (s, events) = Receiving::fresh(cfg, start).run(inputs);
    let after = inputs.push(input);
    assert(after.drop_last() =~= inputs);
    lemma_a_whole_stream_has_ended(cfg, start, inputs);
    lemma_the_state_follows_the_calls(cfg, start, inputs);
    if account(events).outcomes.len() == 0 && whole(after) {
        assert(!whole(inputs));
        lemma_fed_later(after);
        if let Some(g) = frame_of(input) {
            if fed_number(inputs, g.seq.0) || g.seq.0 == 0 {
                assert forall|k: u32|
                    1 <= k <= (last_declared(inputs)->0).0 implies #[trigger] fed_number(
                    inputs,
                    k,
                ) by {
                    assert(fed_number(after, k));
                }
            }
        } else if end_of(input) is None {
            assert forall|k: u32|
                1 <= k <= (last_declared(inputs)->0).0 implies #[trigger] fed_number(inputs, k) by {
                assert(fed_number(after, k));
            }
        }
    }
}

proof fn lemma_one_outcome(
    cfg: ReceiverConfig,
    start: Instant,
    inputs: Seq<RecvInput>,
    input: RecvInput,
)
    ensures
        ({
            let (s, events) = Receiving::fresh(cfg, start).run(inputs);
            let outcomes = account(s.step(input).1).outcomes;
            &&& step_account(cfg, inputs, input, account(events), account(s.step(input).1))
            &&& outcomes.len() <= 1
            &&& forall|o: RelOutcome| #[trigger]
                outcomes.contains(o) <==> outcomes.len() == 1 && outcomes[0] == o
            &&& input is Tick ==> (outcomes.len() == 1 ==> outcomes[0] == RelOutcome::Aborted(
                RelAbortReason::PeerGone,
            ) || outcomes[0] == RelOutcome::Aborted(RelAbortReason::Stalled) || outcomes[0]
                == RelOutcome::Aborted(RelAbortReason::UnrecoverableGap))
            &&& input is Buffered ==> outcomes.len() == 0
        }),
{
    lemma_step_account(cfg, start, inputs, input);
    lemma_the_state_follows_the_calls(cfg, start, inputs);
    let s = Receiving::fresh(cfg, start).run(inputs).0;
    if let RecvInput::Tick { now } = input {
        lemma_tick_account(s, now);
    }
    let outcomes = account(s.step(input).1).outcomes;
    assert forall|o: RelOutcome| #[trigger] outcomes.contains(o) <==> outcomes.len() == 1
        && outcomes[0] == o by {
        if outcomes.len() == 1 && outcomes[0] == o {
            assert(outcomes[0] == o);
        }
    }
}

/// A packet confirms the tail and closes the transfer exactly when every frame up
/// to the declared end has been fed in with it, and it is an `End`, a keepalive,
/// or the frame that the stream was waiting for; each happens at most once.
pub proof fn lemma_a_packet_closes_only_a_whole_transfer(
    cfg: ReceiverConfig,
    start: Instant,
    inputs: Seq<RecvInput>,
    seq: XferSeq,
    body: BodyView,
    now: Instant,
)
    ensures
        ({
            let (s, events) = Receiving::fresh(cfg, start).run(inputs);
            let before = account(events);
            let input = RecvInput::Handle { seq, body, now };
            let during = account(s.step(input).1);
            let ends = whole(inputs.push(input)) && match body {
                BodyView::Data { .. } => brings_news(before, inputs, input) && !brings_too_much(
                    cfg,
                    inputs,
                    input,
                ),
                BodyView::End { .. } | BodyView::Keepalive { .. } => true,
                _ => false,
            };
            &&& during.confirmed == if ends && before.confirmed == 0 {
                1nat
            } else {
                0
            }
            &&& during.closed == if ends && before.closed == 0 {
                1nat
            } else {
                0
            }
            &&& during.requests.len() == 0
        }),
{
    let s = Receiving::fresh(cfg, start).run(inputs).0;
    lemma_step_account(cfg, start, inputs, RecvInput::Handle { seq, body, now });
    lemma_the_state_follows_the_calls(cfg, start, inputs);
    lemma_handle_asks_nothing(s, seq, body, now);
}

/// The reliable stream hands up at once what the prefix grows over: a frame that
/// is news and passes no limit brings as many frames up as the prefix grows by,
/// and nothing else brings any.
pub proof fn lemma_the_stream_keeps_up_with_the_prefix(
    cfg: ReceiverConfig,
    start: Instant,
    inputs: Seq<RecvInput>,
    input: RecvInput,
)
    ensures
        ({
            let (s, events) = Receiving::fresh(cfg, start).run(inputs);
            account(s.step(input).1).reliable.len() == if brings_news(
                account(events),
                inputs,
                input,
            ) && !brings_too_much(cfg, inputs, input) {
                prefix(inputs.push(input)) - prefix(inputs)
            } else {
                0
            }
        }),
{
    let s = Receiving::fresh(cfg, start).run(inputs).0;
    lemma_step_account(cfg, start, inputs, input);
    lemma_the_state_follows_the_calls(cfg, start, inputs);
    if let RecvInput::Tick { now } = input {
        lemma_tick_account(s, now);
    }
}

/// Whether an event may be followed by any other.
spec fn goes_first(e: RecvEventView) -> bool {
    !(e is Closed) && !(e is SendAck) && !(e is SendEndAck)
}

/// Whether the events of one call stand in order: a report of progress or the
/// closing comes last, and after the confirmation comes nothing but the closing.
pub open spec fn in_order(events: Seq<RecvEventView>) -> bool {
    forall|i: int, j: int|
        0 <= i < j < events.len() ==> {
            &&& !(#[trigger] events[i] is Closed)
            &&& !(events[i] is SendAck)
            &&& events[i] is SendEndAck ==> #[trigger] events[j] is Closed
        }
}

proof fn lemma_in_order_plus(a: Seq<RecvEventView>, b: Seq<RecvEventView>)
    requires
        forall|i: int| 0 <= i < a.len() ==> goes_first(#[trigger] a[i]),
        in_order(b),
    ensures
        in_order(a + b),
{
    let c = a + b;
    assert forall|i: int, j: int| 0 <= i < j < c.len() implies {
        &&& !(#[trigger] c[i] is Closed)
        &&& !(c[i] is SendAck)
        &&& c[i] is SendEndAck ==> #[trigger] c[j] is Closed
    } by {
        if i < a.len() {
            assert(c[i] == a[i]);
            assert(goes_first(a[i]));
        } else {
            assert(c[i] == b[i - a.len()]);
            assert(c[j] == b[j - a.len()]);
        }
    }
}

proof fn lemma_first_plus(a: Seq<RecvEventView>, b: Seq<RecvEventView>)
    requires
        forall|i: int| 0 <= i < a.len() ==> goes_first(#[trigger] a[i]),
        forall|i: int| 0 <= i < b.len() ==> goes_first(#[trigger] b[i]),
    ensures
        forall|i: int| 0 <= i < (a + b).len() ==> goes_first(#[trigger] (a + b)[i]),
{
    assert forall|i: int| 0 <= i < (a + b).len() implies goes_first(#[trigger] (a + b)[i]) by {
        if i < a.len() {
            assert((a + b)[i] == a[i]);
        } else {
            assert((a + b)[i] == b[i - a.len()]);
        }
    }
}

proof fn lemma_wound_up_in_order(s: Receiving)
    ensures
        in_order(s.wound_up().1),
        !s.complete() ==> s.wound_up().1.len() == 0,
        s.complete() ==> s.wound_up().0.closed,
{
    if s.complete() {
        let out = s.rel_finished(RelOutcome::Complete { final_seq: s.final_seq->0 }).1;
        let told = if s.end_acked {
            Seq::empty()
        } else {
            seq![RecvEventView::SendEndAck]
        };
        let shut = if s.closed {
            Seq::empty()
        } else {
            seq![RecvEventView::Closed]
        };
        assert(in_order(told + shut));
        lemma_in_order_plus(out, told + shut);
        assert(out + told + shut =~= out + (told + shut));
    }
}

proof fn lemma_took_in_order(s: Receiving, f: FrameView, now: Instant)
    requires
        s.valid(),
    ensures
        in_order(s.took(f, now).1 + s.took(f, now).0.reported(now).1),
{
    let (t, all) = s.took(f, now);
    let fresh = s.arrivals.fresh(f.seq.0);
    let r = Receiving { arrivals: s.arrivals.recorded(f.seq.0), ..s };
    let played = if fresh && s.cfg.mode is Dual {
        seq![RecvEventView::Unreliable(f)]
    } else {
        Seq::empty()
    };
    let ack = t.reported(now).1;
    if s.streaming && fresh && !overruns(s, f) {
        let held = s.reorder.insert(f.seq.0, f);
        let (u, grown) = Receiving { reorder: held, ..r }.released(s.arrivals.contiguous, now);
        let end = u.wound_up().1;
        lemma_first_plus(played, grown);
        lemma_wound_up_in_order(u);
        if u.complete() {
            assert(end + ack =~= end);
        } else {
            assert(end + ack =~= ack);
        }
        lemma_in_order_plus(played + grown, end + ack);
        assert(all + ack =~= played + grown + (end + ack));
    } else {
        let out = if s.streaming && fresh {
            r.aborted(RelAbortReason::BufferExhausted).1
        } else {
            Seq::empty()
        };
        lemma_first_plus(played, out);
        assert(all =~= played + out);
        lemma_in_order_plus(all, ack);
    }
}

/// The events of one call stand in order: what is handed up and the outcome come
/// first, the confirmation of the tail after them, and the closing of the
/// transfer last of all; a report of progress comes last too, and never with a
/// closing.
pub proof fn lemma_the_events_of_a_call_are_in_order(
    cfg: ReceiverConfig,
    start: Instant,
    inputs: Seq<RecvInput>,
    input: RecvInput,
)
    ensures
        in_order(Receiving::fresh(cfg, start).run(inputs).0.step(input).1),
{
    lemma_the_state_follows_the_calls(cfg, start, inputs);
    let s = Receiving::fresh(cfg, start).run(inputs).0;
    match input {
        RecvInput::Handle { seq, body, now } => {
            let r = Receiving { last_packet_at: now, ..s };
            match body {
                BodyView::Data { ts, payload } => {
                    lemma_took_in_order(r, FrameView { seq, ts, payload }, now);
                },
                BodyView::End { final_seq } => {
                    let u = Receiving { final_seq: Some(final_seq), ..r };
                    lemma_wound_up_in_order(u);
                    let (v, end) = u.wound_up();
                    let ack = v.reported(now).1;
                    if u.complete() {
                        assert(end + ack =~= end);
                    } else {
                        assert(end + ack =~= ack);
                    }
                },
                BodyView::Keepalive { lost_below } => {
                    let (u, warning) = r.warned(lost_below);
                    lemma_wound_up_in_order(u);
                    let (v, end) = u.wound_up();
                    let ack = v.reported(now).1;
                    if u.complete() {
                        assert(end + ack =~= end);
                    } else {
                        assert(end + ack =~= ack);
                    }
                    lemma_in_order_plus(warning, end + ack);
                    assert(warning + end + ack =~= warning + (end + ack));
                },
                _ => {},
            }
        },
        RecvInput::Tick { now } => {
            if s.closed {
            } else if s.idle(now) {
            } else {
                let (m, out) = if !s.streaming {
                    (s, Seq::empty())
                } else if s.stalled(now) {
                    s.aborted(RelAbortReason::Stalled)
                } else {
                    s.requested(now)
                };
                lemma_in_order_plus(out, m.reported(now).1);
            }
        },
        RecvInput::Buffered { ms } => {},
    }
}

/// How many bytes wait: none if nothing does, and with each frame its payload
/// more.
pub proof fn lemma_waiting_bytes_add_up(held: Map<u32, FrameView>, k: u32, f: FrameView)
    requires
        !held.contains_key(k),
    ensures
        held_bytes(Map::empty()) == 0,
        held_bytes(held.insert(k, f)) == held_bytes(held) + f.payload.len(),
{
    lemma_held_none((u32::MAX + 1) as nat);
    lemma_held_insert(held, k, f, (u32::MAX + 1) as nat);
}

/// Whether the `i`-th call, and none after it, makes `marks` hold of the calls up
/// to it.
pub open spec fn last_marked(
    inputs: Seq<RecvInput>,
    i: int,
    marks: spec_fn(Seq<RecvInput>) -> bool,
) -> bool {
    &&& 0 <= i < inputs.len()
    &&& marks(inputs.take(i + 1))
    &&& forall|j: int| i < j < inputs.len() ==> !marks(#[trigger] inputs.take(j + 1))
}

/// Whether none of the calls makes `marks` hold of the calls up to it.
pub open spec fn never_marked(
    inputs: Seq<RecvInput>,
    marks: spec_fn(Seq<RecvInput>) -> bool,
) -> bool {
    forall|j: int| 0 <= j < inputs.len() ==> !marks(#[trigger] inputs.take(j + 1))
}

proof fn lemma_marked_later(
    inputs: Seq<RecvInput>,
    marks: spec_fn(Seq<RecvInput>) -> bool,
)
    requires
        inputs.len() > 0,
    ensures
        marks(inputs) ==> last_marked(inputs, inputs.len() - 1, marks),
        !marks(inputs) ==> forall|i: int| #[trigger]
            last_marked(inputs.drop_last(), i, marks) ==> last_marked(inputs, i, marks),
        !marks(inputs) ==> (never_marked(inputs.drop_last(), marks) ==> never_marked(
            inputs,
            marks,
        )),
{
    let before = inputs.drop_last();
    let n = inputs.len() as int;
    assert(inputs.take(n) =~= inputs);
    assert forall|j: int| 0 <= j < before.len() implies #[trigger] inputs.take(j + 1)
        == before.take(j + 1) by {
        assert(inputs.take(j + 1) =~= before.take(j + 1));
    }
}

/// Whether the last of the calls hands in a packet.
pub open spec fn ends_with_packet() -> spec_fn(Seq<RecvInput>) -> bool {
    |calls: Seq<RecvInput>| calls.last() is Handle
}

/// Whether the last of the calls hands in a packet that the prefix grows with.
pub open spec fn ends_with_progress() -> spec_fn(Seq<RecvInput>) -> bool {
    |calls: Seq<RecvInput>|
        calls.last() is Handle && prefix(calls) > prefix(calls.drop_last())
}

/// Whether the last of the calls reports progress.
pub open spec fn ends_with_report(cfg: ReceiverConfig, start: Instant) -> spec_fn(
    Seq<RecvInput>,
) -> bool {
    |calls: Seq<RecvInput>| acks(last_events(cfg, start, calls)).len() > 0
}

/// Whether the last of the calls asks for the frame numbered `k`.
pub open spec fn ends_with_request(cfg: ReceiverConfig, start: Instant, k: u32) -> spec_fn(
    Seq<RecvInput>,
) -> bool {
    |calls: Seq<RecvInput>| times(account(last_events(cfg, start, calls)).requests, k) > 0
}

/// The times that the laws go by are those of calls: of the last that hands in a
/// packet, of the last that the prefix grows with, and of the last that reports
/// progress, each the start if there is none; and of the last that asks for a
/// frame, if there is one.
pub proof fn lemma_the_times_are_those_of_calls(
    cfg: ReceiverConfig,
    start: Instant,
    inputs: Seq<RecvInput>,
    k: u32,
)
    ensures
        never_marked(inputs, ends_with_packet()) && heard_at(start, inputs) == start || exists|
            i: int,
        | #[trigger]
            last_marked(inputs, i, ends_with_packet()) && heard_at(start, inputs) == time_of(
                inputs[i],
            ),
        never_marked(inputs, ends_with_progress()) && progressed_at(start, inputs) == start
            || exists|i: int| #[trigger]
            last_marked(inputs, i, ends_with_progress()) && progressed_at(start, inputs) == time_of(
                inputs[i],
            ),
        never_marked(inputs, ends_with_report(cfg, start)) && acked_at(cfg, start, inputs) == start
            || exists|i: int| #[trigger]
            last_marked(inputs, i, ends_with_report(cfg, start)) && acked_at(cfg, start, inputs)
                == time_of(inputs[i]),
        never_marked(inputs, ends_with_request(cfg, start, k)) && asked_at(cfg, start, inputs, k)
            is None || exists|i: int| #[trigger]
            last_marked(inputs, i, ends_with_request(cfg, start, k)) && asked_at(
                cfg,
                start,
                inputs,
                k,
            ) == Some(time_of(inputs[i])),
    decreases inputs.len(),
{
    if inputs.len() > 0 {
        let before = inputs.drop_last();
        lemma_the_times_are_those_of_calls(cfg, start, before, k);
        lemma_marked_later(inputs, ends_with_packet());
        lemma_marked_later(inputs, ends_with_progress());
        lemma_marked_later(inputs, ends_with_report(cfg, start));
        lemma_marked_later(inputs, ends_with_request(cfg, start, k));
        assert(forall|i: int| 0 <= i < before.len() ==> before[i] == inputs[i]);
    }
}

/// The loss that counts is the greatest that any keepalive has reported.
pub proof fn lemma_the_greatest_loss_counts(inputs: Seq<RecvInput>)
    ensures
        forall|i: int|
            0 <= i < inputs.len() ==> (#[trigger] inputs[i] matches RecvInput::Handle {
                body: BodyView::Keepalive { lost_below },
                ..
            } ==> lost_below.0 <= lost_reported(inputs)),
        lost_reported(inputs) > 0 ==> exists|i: int|
            0 <= i < inputs.len() && reports_loss(#[trigger] inputs[i], lost_reported(inputs)),
    decreases inputs.len(),
{
    if inputs.len() > 0 {
        let before = inputs.drop_last();
        let last = inputs.len() - 1;
        lemma_the_greatest_loss_counts(before);
        assert(inputs[last] == inputs.last());
        assert forall|i: int| 0 <= i < inputs.len() implies (
        #[trigger] inputs[i] matches RecvInput::Handle {
            body: BodyView::Keepalive { lost_below },
            ..
        } ==> lost_below.0 <= lost_reported(inputs)) by {
            if i < last {
                assert(inputs[i] == before[i]);
            }
        }
        let n = lost_reported(inputs);
        if n > 0 {
            if n == lost_reported(before) {
                let i = choose|i: int|
                    0 <= i < before.len() && reports_loss(#[trigger] before[i], n);
                assert(inputs[i] == before[i]);
            } else {
                assert(reports_loss(inputs[last], n));
            }
        }
    }
}

/// Whether a call hands in a keepalive that reports a loss up to `n`.
pub open spec fn reports_loss(input: RecvInput, n: u32) -> bool {
    input matches RecvInput::Handle { body: BodyView::Keepalive { lost_below }, .. }
        && lost_below.0 == n
}

} // verus!
