//! What holds of a receiver over a whole transfer.

use vstd::prelude::*;

use super::gap_tracker::{lemma_run_end, Arrivals};
use super::receiver::{held_bytes, FrameView, Receiving, RecvEventView};
use crate::codec::MAX_NACK_ENTRIES;
use crate::config::ReceiverConfig;
use crate::frame::BodyView;
use crate::time::{elapsed, Instant};
use crate::types::{RelAbortReason, RelOutcome, XferSeq};

verus! {

/// One call of an [`XferReceiver`](super::XferReceiver) that changes its state.
pub enum RecvInput {
    Handle { seq: XferSeq, body: BodyView, now: Instant },
    Tick { now: Instant },
    Buffered { ms: u64 },
}

impl Receiving {
    /// The state and the events after one call.
    pub open spec fn step(self, input: RecvInput) -> (Receiving, Seq<RecvEventView>) {
        match input {
            RecvInput::Handle { seq, body, now } => self.handled(seq, body, now),
            RecvInput::Tick { now } => self.ticked(now),
            RecvInput::Buffered { ms } => (self.buffering(ms), Seq::empty()),
        }
    }

    /// The state after a series of calls, and all events of them in order.
    pub open spec fn run(self, inputs: Seq<RecvInput>) -> (Receiving, Seq<RecvEventView>)
        decreases inputs.len(),
    {
        if inputs.len() == 0 {
            (self, Seq::empty())
        } else {
            let (s, events) = self.run(inputs.drop_last());
            let (t, more) = s.step(inputs.last());
            (t, events + more)
        }
    }
}

/// The frame that a call feeds in, if it feeds one.
pub open spec fn frame_of(input: RecvInput) -> Option<FrameView> {
    match input {
        RecvInput::Handle { seq, body: BodyView::Data { ts, payload }, .. } => Some(
            FrameView { seq, ts, payload },
        ),
        _ => None,
    }
}

/// Whether `f` was fed in by one of the calls.
pub open spec fn fed(inputs: Seq<RecvInput>, f: FrameView) -> bool {
    exists|i: int| 0 <= i < inputs.len() && frame_of(#[trigger] inputs[i]) == Some(f)
}

/// Whether a frame numbered `k` was fed in by one of the calls.
pub open spec fn fed_number(inputs: Seq<RecvInput>, k: u32) -> bool {
    exists|i: int|
        0 <= i < inputs.len() && feeds(#[trigger] inputs[i], k)
}

/// The first frame numbered `k` that the calls feed in.
pub open spec fn first_fed(inputs: Seq<RecvInput>, k: u32) -> Option<FrameView>
    decreases inputs.len(),
{
    if inputs.len() == 0 {
        None
    } else {
        match first_fed(inputs.drop_last(), k) {
            Some(f) => Some(f),
            None => if feeds(inputs.last(), k) {
                frame_of(inputs.last())
            } else {
                None
            },
        }
    }
}

/// There is a first frame numbered `k` exactly if there is one at all, and it is
/// one that was fed in under that number.
pub proof fn lemma_first_fed(inputs: Seq<RecvInput>, k: u32)
    ensures
        first_fed(inputs, k) is Some <==> fed_number(inputs, k),
        first_fed(inputs, k) matches Some(f) ==> f.seq.0 == k && fed(inputs, f),
    decreases inputs.len(),
{
    if inputs.len() > 0 {
        lemma_first_fed(inputs.drop_last(), k);
        lemma_fed_later(inputs);
    }
}

/// The last number that a call declares, if it declares one.
pub open spec fn end_of(input: RecvInput) -> Option<XferSeq> {
    match input {
        RecvInput::Handle { body: BodyView::End { final_seq }, .. } => Some(final_seq),
        _ => None,
    }
}

/// Whether a call declares `f` to be the last number.
pub open spec fn declares(input: RecvInput, f: XferSeq) -> bool {
    end_of(input) == Some(f)
}

/// The last number as the calls have it in the end.
pub open spec fn last_declared(inputs: Seq<RecvInput>) -> Option<XferSeq>
    decreases inputs.len(),
{
    if inputs.len() == 0 {
        None
    } else {
        match end_of(inputs.last()) {
            Some(f) => Some(f),
            None => last_declared(inputs.drop_last()),
        }
    }
}

/// Whether an end has been declared and every frame up to it fed in, in whatever
/// order.
pub open spec fn whole(inputs: Seq<RecvInput>) -> bool {
    last_declared(inputs) matches Some(f) && forall|k: u32|
        1 <= k <= f.0 ==> #[trigger] fed_number(inputs, k)
}

/// Whether one of the calls declared `f` to be the last number.
pub open spec fn declared(inputs: Seq<RecvInput>, f: XferSeq) -> bool {
    exists|i: int| 0 <= i < inputs.len() && declares(#[trigger] inputs[i], f)
}

/// What a list of events amounts to.
#[verifier::ext_equal]
pub struct Account {
    /// The frames of the reliable stream.
    pub reliable: Seq<FrameView>,
    /// The frames of the unreliable stream.
    pub played: Seq<FrameView>,
    /// The outcomes reported of the reliable stream.
    pub outcomes: Seq<RelOutcome>,
    /// The requests for missing frames.
    pub requests: Seq<Seq<XferSeq>>,
    /// How often the tail was confirmed.
    pub confirmed: nat,
    /// How often the transfer was closed.
    pub closed: nat,
}

impl Account {
    pub open spec fn none() -> Account {
        Account {
            reliable: Seq::empty(),
            played: Seq::empty(),
            outcomes: Seq::empty(),
            requests: Seq::empty(),
            confirmed: 0,
            closed: 0,
        }
    }

    pub open spec fn with(self, e: RecvEventView) -> Account {
        match e {
            RecvEventView::Reliable(f) => Account { reliable: self.reliable.push(f), ..self },
            RecvEventView::Unreliable(f) => Account { played: self.played.push(f), ..self },
            RecvEventView::RelFinished(o) => Account { outcomes: self.outcomes.push(o), ..self },
            RecvEventView::SendNack { missing } => Account {
                requests: self.requests.push(missing),
                ..self
            },
            RecvEventView::SendEndAck => Account { confirmed: self.confirmed + 1, ..self },
            RecvEventView::Closed => Account { closed: self.closed + 1, ..self },
            RecvEventView::SendAck { .. } => self,
        }
    }

    pub open spec fn plus(self, other: Account) -> Account {
        Account {
            reliable: self.reliable + other.reliable,
            played: self.played + other.played,
            outcomes: self.outcomes + other.outcomes,
            requests: self.requests + other.requests,
            confirmed: self.confirmed + other.confirmed,
            closed: self.closed + other.closed,
        }
    }
}

pub open spec fn account(events: Seq<RecvEventView>) -> Account
    decreases events.len(),
{
    if events.len() == 0 {
        Account::none()
    } else {
        account(events.drop_last()).with(events.last())
    }
}

pub proof fn lemma_account_plus(a: Seq<RecvEventView>, b: Seq<RecvEventView>)
    ensures
        account(a + b) == account(a).plus(account(b)),
    decreases b.len(),
{
    if b.len() == 0 {
        assert(a + b =~= a);
        assert(account(a).plus(Account::none()) =~= account(a));
    } else {
        lemma_account_plus(a, b.drop_last());
        assert((a + b).drop_last() =~= a + b.drop_last());
        assert(account(a + b) =~= account(a).plus(account(b)));
    }
}

pub proof fn lemma_account_one(e: RecvEventView)
    ensures
        account(seq![e]) == Account::none().with(e),
{
    reveal_with_fuel(account, 2);
    assert(seq![e].drop_last() =~= Seq::<RecvEventView>::empty());
}

/// The frames that the prefix has grown over, in order.
pub open spec fn grown_frames(held: Map<u32, FrameView>, from: u32, to: u32) -> Seq<FrameView> {
    Seq::new((to - from) as nat, |i: int| held[(from + 1 + i) as u32])
}

pub proof fn lemma_account_grown(held: Map<u32, FrameView>, from: u32, to: u32)
    requires
        from <= to,
    ensures
        account(Receiving::grown_over(held, from, to)) == (Account {
            reliable: grown_frames(held, from, to),
            ..Account::none()
        }),
    decreases to - from,
{
    let all = Receiving::grown_over(held, from, to);
    if from < to {
        let shorter = (to - 1) as u32;
        lemma_account_grown(held, from, shorter);
        assert(all.drop_last() =~= Receiving::grown_over(held, from, shorter));
        assert(grown_frames(held, from, to) =~= grown_frames(held, from, shorter).push(held[to]));
        assert(all.last() == RecvEventView::Reliable(held[to]));
    } else {
        assert(grown_frames(held, from, to) =~= Seq::empty());
    }
}

/// The reliable stream hands up what the prefix grew over, or nothing if it
/// gives up, and ends at most once.
spec fn lawful_stream(s: Receiving, t: Receiving, a: Account) -> bool {
    let grown = t.arrivals.contiguous - s.arrivals.contiguous;
    &&& grown >= 0
    &&& !s.streaming ==> !t.streaming && a.reliable.len() == 0 && a.outcomes.len() == 0
    &&& s.streaming && t.streaming ==> a.outcomes.len() == 0 && a.reliable.len() == grown
    &&& s.streaming && !t.streaming ==> a.outcomes.len() == 1 && match a.outcomes[0] {
        RelOutcome::Complete { final_seq } => a.reliable.len() == grown && final_seq.0
            <= t.arrivals.contiguous && t.final_seq == Some(final_seq),
        RelOutcome::Aborted(_) => a.reliable.len() == 0,
    }
}

/// Whether `f` is held.
spec fn was_held(s: Receiving, f: FrameView) -> bool {
    s.reorder.contains_key(f.seq.0) && s.reorder[f.seq.0] == f
}

/// Whether a call feeds in `f`, and its number is news.
spec fn came_in(s: Receiving, input: RecvInput, f: FrameView) -> bool {
    frame_of(input) == Some(f) && s.arrivals.fresh(f.seq.0)
}

/// What is handed up or held was held before or has just come in as news.
spec fn lawful_frames(s: Receiving, input: RecvInput, t: Receiving, a: Account) -> bool {
    &&& forall|i: int|
        0 <= i < a.reliable.len() ==> {
            let f = #[trigger] a.reliable[i];
            &&& f.seq.0 == s.arrivals.contiguous + 1 + i
            &&& was_held(s, f) || came_in(s, input, f)
        }
    &&& forall|k: u32| #[trigger]
        t.reorder.contains_key(k) ==> t.reorder[k].seq.0 == k && (was_held(s, t.reorder[k])
            || came_in(s, input, t.reorder[k]))
}

/// Whether a call feeds in a frame numbered `k`.
pub open spec fn feeds(input: RecvInput, k: u32) -> bool {
    frame_of(input) matches Some(f) && f.seq.0 == k
}

/// What has come in is on record, and nothing else; the record grows by at most
/// one number.
spec fn lawful_record(s: Receiving, input: RecvInput, t: Receiving) -> bool {
    &&& forall|k: u32| #[trigger]
        t.arrivals.has(k) <==> s.arrivals.has(k) || feeds(input, k)
    &&& t.arrivals.ahead.len() <= s.arrivals.ahead.len() + 1
}

/// Playback gets what is new.
spec fn lawful_play(s: Receiving, input: RecvInput, a: Account) -> bool {
    a.played == match frame_of(input) {
        Some(f) => if s.arrivals.fresh(f.seq.0) && s.cfg.mode is Dual {
            seq![f]
        } else {
            Seq::empty()
        },
        None => Seq::empty(),
    }
}

/// The tail is confirmed once, when everything has arrived, and the transfer is
/// closed once.
spec fn lawful_end(s: Receiving, input: RecvInput, t: Receiving, a: Account) -> bool {
    &&& s.end_acked ==> t.end_acked
    &&& a.confirmed == if t.end_acked && !s.end_acked {
        1nat
    } else {
        0
    }
    &&& a.confirmed > 0 ==> t.complete()
    &&& s.closed ==> t.closed
    &&& a.closed == if t.closed && !s.closed {
        1nat
    } else {
        0
    }
    &&& t.final_seq == match end_of(input) {
        Some(f) => Some(f),
        None => s.final_seq,
    }
}

/// What one step may do, as far as the laws speak of it.
spec fn lawful(s: Receiving, input: RecvInput, t: Receiving, a: Account) -> bool {
    &&& t.valid()
    &&& t.cfg == s.cfg
    &&& lawful_stream(s, t, a)
    &&& lawful_frames(s, input, t, a)
    &&& lawful_record(s, input, t)
    &&& lawful_play(s, input, a)
    &&& lawful_end(s, input, t, a)
}

pub proof fn lemma_rel_finished(s: Receiving, o: RelOutcome)
    ensures
        account(s.rel_finished(o).1) == if s.streaming {
            Account::none().with(RecvEventView::RelFinished(o))
        } else {
            Account::none()
        },
{
    lemma_account_one(RecvEventView::RelFinished(o));
}

pub proof fn lemma_reported(s: Receiving, now: Instant)
    ensures
        account(s.reported(now).1) == Account::none(),
{
    reveal_with_fuel(account, 2);
    let out = s.reported(now).1;
    if out.len() > 0 {
        assert(out.drop_last() =~= Seq::<RecvEventView>::empty());
    }
}

pub proof fn lemma_wound_up(s: Receiving)
    requires
        s.valid(),
    ensures
        ({
            let (t, out) = s.wound_up();
            let a = account(out);
            &&& !s.complete() ==> t == s && a == Account::none()
            &&& s.complete() ==> {
                &&& a.reliable.len() == 0
                &&& a.played.len() == 0
                &&& a.requests.len() == 0
                &&& a.outcomes == if s.streaming {
                    seq![RelOutcome::Complete { final_seq: s.final_seq->0 }]
                } else {
                    Seq::empty()
                }
                &&& a.confirmed == if s.end_acked {
                    0nat
                } else {
                    1
                }
                &&& a.closed == if s.closed {
                    0nat
                } else {
                    1
                }
            }
        }),
{
    if s.complete() {
        let o = RelOutcome::Complete { final_seq: s.final_seq->0 };
        let out = s.rel_finished(o).1;
        let told = if s.end_acked {
            Seq::empty()
        } else {
            seq![RecvEventView::SendEndAck]
        };
        let shut = if s.closed {
            Seq::empty()
        } else {
            seq![RecvEventView::Closed]
        };
        lemma_rel_finished(s, o);
        lemma_account_one(RecvEventView::SendEndAck);
        lemma_account_one(RecvEventView::Closed);
        lemma_account_plus(out, told);
        lemma_account_plus(out + told, shut);
        assert(account(s.wound_up().1).outcomes =~= account(out).outcomes);
        assert(Account::none().with(RecvEventView::RelFinished(o)).outcomes =~= seq![o]);
    }
}

proof fn lemma_took(s: Receiving, input: RecvInput, f: FrameView, now: Instant)
    requires
        s.valid(),
        frame_of(input) == Some(f),
    ensures
        lawful(s, input, s.took(f, now).0, account(s.took(f, now).1)),
        account(s.took(f, now).1).requests.len() == 0,
{
    s.lemma_took_valid(f, now);
    s.arrivals.lemma_recorded(f.seq.0);
    let fresh = s.arrivals.fresh(f.seq.0);
    let r = Receiving { arrivals: s.arrivals.recorded(f.seq.0), ..s };
    let played = if fresh && s.cfg.mode is Dual {
        seq![RecvEventView::Unreliable(f)]
    } else {
        Seq::empty()
    };
    lemma_account_one(RecvEventView::Unreliable(f));
    assert(account(played).played =~= if fresh && s.cfg.mode is Dual {
        seq![f]
    } else {
        Seq::empty()
    });
    let (t, all) = s.took(f, now);
    assert(lawful_record(s, input, t)) by {
        s.arrivals.lemma_recorded_len(f.seq.0);
    }
    if s.streaming && fresh {
        let held = s.reorder.insert(f.seq.0, f);
        if r.arrivals.span() > s.cfg.reorder_window || held_bytes(held) > s.cfg.max_reorder_bytes {
            let out = r.aborted(RelAbortReason::BufferExhausted).1;
            lemma_rel_finished(r, RelOutcome::Aborted(RelAbortReason::BufferExhausted));
            lemma_account_plus(played, out);
            assert(account(all).played =~= account(played).played);
        } else {
            s.lemma_release_valid(f, now);
            let c = s.arrivals.contiguous;
            let d = r.arrivals.contiguous;
            let (u, out) = Receiving { reorder: held, ..r }.released(c, now);
            let end = u.wound_up().1;
            lemma_account_grown(held, c, d);
            lemma_wound_up(u);
            lemma_account_plus(played, out);
            lemma_account_plus(played + out, end);
            let a = account(all);
            assert(a.played =~= account(played).played);
            assert(a.reliable =~= grown_frames(held, c, d));
            assert(a.outcomes =~= account(end).outcomes);
            assert forall|i: int| 0 <= i < a.reliable.len() implies {
                let g = #[trigger] a.reliable[i];
                &&& g.seq.0 == c + 1 + i
                &&& was_held(s, g) || came_in(s, input, g)
            } by {
                let k = (c + 1 + i) as u32;
                lemma_run_end(c, s.arrivals.ahead.insert(f.seq.0));
                assert(held.contains_key(k));
                if k != f.seq.0 {
                    assert(s.reorder.contains_key(k));
                }
            }
            assert(lawful_stream(s, t, a));
            assert(lawful_frames(s, input, t, a));
            assert(lawful_record(s, input, t));
            assert(lawful_play(s, input, a));
            assert(lawful_end(s, input, t, a));
        }
    }
}

proof fn lemma_requested(s: Receiving, now: Instant)
    requires
        s.valid(),
        s.streaming,
    ensures
        ({
            let (t, out) = s.requested(now);
            let a = account(out);
            &&& t.valid()
            &&& a.reliable.len() == 0
            &&& a.played.len() == 0
            &&& a.confirmed == 0
            &&& a.closed == 0
            &&& t.streaming ==> a.outcomes.len() == 0
            &&& !t.streaming ==> a.outcomes == seq![
                RelOutcome::Aborted(RelAbortReason::UnrecoverableGap),
            ]
        }),
{
    s.lemma_requested_valid(now);
    let o = RelOutcome::Aborted(RelAbortReason::UnrecoverableGap);
    lemma_rel_finished(s, o);
    assert(Account::none().with(RecvEventView::RelFinished(o)).outcomes =~= seq![o]);
    let ask = s.gaps().filter(|k: XferSeq| s.wanted(k, now));
    lemma_account_one(RecvEventView::SendNack { missing: ask });
}

proof fn lemma_handle_step(s: Receiving, input: RecvInput)
    requires
        s.valid(),
        input is Handle,
    ensures
        lawful(s, input, s.step(input).0, account(s.step(input).1)),
        account(s.step(input).1).requests.len() == 0,
{
    if let RecvInput::Handle { seq, body, now } = input {
        s.lemma_handled_valid(seq, body, now);
        let r = Receiving { last_packet_at: now, ..s };
        let (t, out) = match body {
            BodyView::Data { ts, payload } => {
                let f = FrameView { seq, ts, payload };
                lemma_took(r, input, f, now);
                r.took(f, now)
            },
            BodyView::End { final_seq } => {
                let u = Receiving { final_seq: Some(final_seq), ..r };
                lemma_wound_up(u);
                u.wound_up()
            },
            BodyView::Keepalive { lost_below } => {
                let (u, warning) = r.warned(lost_below);
                let w = Receiving { sender_lost_below: lost_below.0, ..r };
                let o = RelOutcome::Aborted(RelAbortReason::SenderDiscarded);
                lemma_rel_finished(w, o);
                lemma_wound_up(u);
                let (v, end) = u.wound_up();
                lemma_account_plus(warning, end);
                (v, warning + end)
            },
            _ => (r, Seq::empty()),
        };
        let a = account(out);
        assert(lawful_play(s, input, a)) by {
            if frame_of(input) is None {
                assert(a.played =~= Seq::<FrameView>::empty());
            }
        }
        assert(lawful_stream(s, t, a));
        assert(lawful_frames(s, input, t, a));
        assert(lawful_record(s, input, t));
        assert(lawful_end(s, input, t, a));
        let ack = t.reported(now).1;
        lemma_reported(t, now);
        lemma_account_plus(out, ack);
        assert(account(out + ack) =~= a);
    }
}

proof fn lemma_tick_step(s: Receiving, input: RecvInput)
    requires
        s.valid(),
        input is Tick,
    ensures
        lawful(s, input, s.step(input).0, account(s.step(input).1)),
{
    if let RecvInput::Tick { now } = input {
        s.lemma_ticked_valid(now);
        lemma_rel_finished(s, RelOutcome::Aborted(RelAbortReason::PeerGone));
        lemma_rel_finished(s, RelOutcome::Aborted(RelAbortReason::Stalled));
        if s.closed {
        } else if s.idle(now) {
            let out = s.aborted(RelAbortReason::PeerGone).1;
            assert(out.push(RecvEventView::Closed).drop_last() =~= out);
        } else {
            if s.streaming {
                lemma_requested(s, now);
            }
            let (u, out) = if !s.streaming {
                (s, Seq::empty())
            } else if s.stalled(now) {
                s.aborted(RelAbortReason::Stalled)
            } else {
                s.requested(now)
            };
            lemma_reported(u, now);
            lemma_account_plus(out, u.reported(now).1);
            assert(account(out + u.reported(now).1) =~= account(out));
        }
        assert(account(s.ticked(now).1).played =~= Seq::<FrameView>::empty());
    }
}

proof fn lemma_step(s: Receiving, input: RecvInput)
    requires
        s.valid(),
    ensures
        lawful(s, input, s.step(input).0, account(s.step(input).1)),
{
    match input {
        RecvInput::Handle { .. } => lemma_handle_step(s, input),
        RecvInput::Tick { .. } => lemma_tick_step(s, input),
        RecvInput::Buffered { ms } => {
            assert(account(Seq::empty()).played =~= Seq::<FrameView>::empty());
        },
    }
}

/// A packet never causes a request, whatever it holds.
pub proof fn lemma_a_packet_asks_for_nothing(
    s: Receiving,
    seq: XferSeq,
    body: BodyView,
    now: Instant,
)
    requires
        s.valid(),
    ensures
        account(s.handled(seq, body, now).1).requests.len() == 0,
{
    lemma_handle_step(s, RecvInput::Handle { seq, body, now });
}

pub proof fn lemma_fed_later(inputs: Seq<RecvInput>)
    requires
        inputs.len() > 0,
    ensures
        forall|f: FrameView| fed(inputs.drop_last(), f) ==> #[trigger] fed(inputs, f),
        forall|k: u32|
            #[trigger] fed_number(inputs, k) <==> fed_number(inputs.drop_last(), k) || feeds(
                inputs.last(),
                k,
            ),
        forall|f: XferSeq| declared(inputs.drop_last(), f) ==> #[trigger] declared(inputs, f),
        forall|f: FrameView| frame_of(inputs.last()) == Some(f) ==> #[trigger] fed(inputs, f),
        forall|f: XferSeq| declares(inputs.last(), f) ==> #[trigger] declared(inputs, f),
{
    let before = inputs.drop_last();
    let last = inputs.len() - 1;
    assert(inputs[last] == inputs.last());
    assert forall|f: FrameView| fed(before, f) implies #[trigger] fed(inputs, f) by {
        let i = choose|i: int| 0 <= i < before.len() && frame_of(#[trigger] before[i]) == Some(f);
        assert(inputs[i] == before[i]);
    }
    assert forall|k: u32| #[trigger]
        fed_number(inputs, k) <==> fed_number(before, k) || feeds(inputs.last(), k) by {
        if fed_number(before, k) {
            let i = choose|i: int| 0 <= i < before.len() && feeds(#[trigger] before[i], k);
            assert(inputs[i] == before[i]);
        }
        if fed_number(inputs, k) {
            let i = choose|i: int| 0 <= i < inputs.len() && feeds(#[trigger] inputs[i], k);
            if i < last {
                assert(before[i] == inputs[i]);
            }
        }
    }
    assert forall|f: XferSeq| declared(before, f) implies #[trigger] declared(inputs, f) by {
        let i = choose|i: int| 0 <= i < before.len() && declares(#[trigger] before[i], f);
        assert(inputs[i] == before[i]);
    }
}

/// What holds of the reliable stream after any series of calls.
spec fn kept_stream(inputs: Seq<RecvInput>, s: Receiving, a: Account) -> bool {
    &&& a.reliable.len() <= s.arrivals.contiguous
    &&& s.streaming ==> a.reliable.len() == s.arrivals.contiguous
    &&& forall|i: int|
        0 <= i < a.reliable.len() ==> (#[trigger] a.reliable[i]).seq.0 == i + 1 && first_fed(
            inputs,
            (i + 1) as u32,
        ) == Some(a.reliable[i])
    &&& forall|k: u32| #[trigger]
        s.reorder.contains_key(k) ==> first_fed(inputs, k) == Some(s.reorder[k])
    &&& a.outcomes.len() == if s.streaming {
        0nat
    } else {
        1
    }
    &&& a.outcomes.len() > 0 ==> (a.outcomes[0] matches RelOutcome::Complete { final_seq }
        ==> final_seq.0 <= a.reliable.len() && declared(inputs, final_seq))
}

/// What holds of the record of arrivals after any series of calls.
spec fn kept_record(inputs: Seq<RecvInput>, s: Receiving) -> bool {
    &&& forall|k: u32| #[trigger] s.arrivals.has(k) <==> k == 0 || fed_number(inputs, k)
    &&& s.arrivals.ahead.len() <= inputs.len()
}

/// What holds of the end of the transfer after any series of calls.
spec fn kept_end(inputs: Seq<RecvInput>, s: Receiving, a: Account) -> bool {
    &&& s.final_seq == last_declared(inputs)
    &&& s.final_seq matches Some(f) ==> declared(inputs, f)
    &&& a.confirmed == if s.end_acked {
        1nat
    } else {
        0
    }
    &&& s.end_acked ==> exists|f: XferSeq| #[trigger]
        declared(inputs, f) && f.0 <= s.arrivals.contiguous
    &&& a.closed == if s.closed {
        1nat
    } else {
        0
    }
}

proof fn lemma_run(cfg: ReceiverConfig, start: Instant, inputs: Seq<RecvInput>)
    ensures
        ({
            let (s, events) = Receiving::fresh(cfg, start).run(inputs);
            let a = account(events);
            &&& s.valid()
            &&& s.cfg == cfg
            &&& kept_stream(inputs, s, a)
            &&& kept_record(inputs, s)
            &&& kept_end(inputs, s, a)
        }),
    decreases inputs.len(),
{
    if inputs.len() == 0 {
        lemma_fresh_valid(cfg, start);
    } else {
        let before = inputs.drop_last();
        lemma_run(cfg, start, before);
        let (s, events) = Receiving::fresh(cfg, start).run(before);
        let (t, more) = s.step(inputs.last());
        lemma_step(s, inputs.last());
        lemma_account_plus(events, more);
        lemma_fed_later(inputs);
        let a = account(events);
        let b = account(more);
        let all = account(events + more);
        assert(kept_record(inputs, t));
        assert forall|f: FrameView| was_held(s, f) || came_in(s, inputs.last(), f) implies (
        #[trigger] first_fed(inputs, f.seq.0)) == Some(f) by {
            lemma_first_fed(before, f.seq.0);
            if !was_held(s, f) {
                assert(!s.arrivals.has(f.seq.0));
            }
        }
        assert(kept_stream(inputs, t, all)) by {
            assert forall|i: int| 0 <= i < all.reliable.len() implies (
            #[trigger] all.reliable[i]).seq.0 == i + 1 && first_fed(inputs, (i + 1) as u32) == Some(
                all.reliable[i],
            ) by {
                if i < a.reliable.len() {
                    assert(all.reliable[i] == a.reliable[i]);
                } else {
                    let f = b.reliable[i - a.reliable.len()];
                    assert(all.reliable[i] == f);
                    assert(first_fed(inputs, f.seq.0) == Some(f));
                }
            }
            assert forall|k: u32| #[trigger] t.reorder.contains_key(k) implies first_fed(inputs, k)
                == Some(t.reorder[k]) by {
                assert(first_fed(inputs, t.reorder[k].seq.0) == Some(t.reorder[k]));
            }
        }
        assert(kept_end(inputs, t, all)) by {
            if t.end_acked {
                if s.end_acked {
                    let f = choose|f: XferSeq| #[trigger]
                        declared(before, f) && f.0 <= s.arrivals.contiguous;
                    assert(declared(inputs, f) && f.0 <= t.arrivals.contiguous);
                } else {
                    assert(declared(inputs, t.final_seq->0));
                }
            }
        }
    }
}

proof fn lemma_fresh_valid(cfg: ReceiverConfig, start: Instant)
    ensures
        Receiving::fresh(cfg, start).valid(),
{
    let s = Receiving::fresh(cfg, start);
    super::receiver::lemma_held_none((u32::MAX + 1) as nat);
    assert(s.reorder.dom() =~= s.arrivals.ahead);
}

/// The state follows the calls: the record holds exactly the numbers that were fed
/// in, what waits is the first frame fed in under its number, the declared end is
/// the last one declared, and whether the stream goes on, the tail was confirmed
/// and the transfer was closed is as the events tell it.
pub proof fn lemma_the_state_follows_the_calls(
    cfg: ReceiverConfig,
    start: Instant,
    inputs: Seq<RecvInput>,
)
    ensures
        ({
            let (s, events) = Receiving::fresh(cfg, start).run(inputs);
            let a = account(events);
            &&& s.valid()
            &&& s.cfg == cfg
            &&& forall|k: u32| #[trigger] s.arrivals.has(k) <==> k == 0 || fed_number(inputs, k)
            &&& forall|k: u32| #[trigger]
                s.reorder.contains_key(k) ==> first_fed(inputs, k) == Some(s.reorder[k])
            &&& s.final_seq == last_declared(inputs)
            &&& s.streaming <==> a.outcomes.len() == 0
            &&& s.end_acked <==> a.confirmed > 0
            &&& s.closed <==> a.closed > 0
        }),
{
    lemma_run(cfg, start, inputs);
}

/// As long as the stream goes on, the bookkeeping says of every number beyond the
/// prefix how many requests have named it.
pub proof fn lemma_the_books_follow_the_requests(
    cfg: ReceiverConfig,
    start: Instant,
    inputs: Seq<RecvInput>,
    k: u32,
)
    ensures
        ({
            let (s, events) = Receiving::fresh(cfg, start).run(inputs);
            s.streaming && k > s.arrivals.contiguous ==> times(account(events).requests, k)
                == s.attempts(k)
        }),
{
    lemma_requests_are_booked(cfg, start, inputs, k);
}

/// Whatever arrives and however long it takes, the state stays valid; in
/// particular, what is held stays within the configured limits.
pub proof fn lemma_every_state_is_valid(cfg: ReceiverConfig, start: Instant, inputs: Seq<RecvInput>)
    ensures
        Receiving::fresh(cfg, start).run(inputs).0.valid(),
        Receiving::fresh(cfg, start).run(inputs).0.cfg == cfg,
{
    lemma_run(cfg, start, inputs);
}

/// The reliable stream is in order and gap-free: its frames are numbered 1, 2, 3
/// and so on, and each is the first frame that was received under its number,
/// unchanged. As long as it goes on it has yielded every frame up to the first
/// that has not been received.
pub proof fn lemma_the_reliable_stream_is_gap_free(
    cfg: ReceiverConfig,
    start: Instant,
    inputs: Seq<RecvInput>,
)
    ensures
        ({
            let (s, events) = Receiving::fresh(cfg, start).run(inputs);
            let reliable = account(events).reliable;
            &&& forall|i: int|
                0 <= i < reliable.len() ==> (#[trigger] reliable[i]).seq.0 == i + 1 && first_fed(
                    inputs,
                    (i + 1) as u32,
                ) == Some(reliable[i])
            &&& s.streaming ==> {
                &&& reliable.len() <= u32::MAX
                &&& forall|k: u32|
                    1 <= k <= reliable.len() ==> #[trigger] fed_number(inputs, k)
                &&& reliable.len() < u32::MAX ==> !fed_number(inputs, (reliable.len() + 1) as u32)
            }
        }),
{
    lemma_run(cfg, start, inputs);
    let (s, events) = Receiving::fresh(cfg, start).run(inputs);
    let n = account(events).reliable.len();
    if s.streaming {
        assert forall|k: u32| 1 <= k <= n implies #[trigger] fed_number(inputs, k) by {
            assert(s.arrivals.has(k));
        }
        if n < u32::MAX {
            assert(!s.arrivals.has((n + 1) as u32));
        }
    }
}

/// The reliable stream never merely stops: it is going on, or exactly one
/// outcome has been reported. A closed transfer has reported one.
pub proof fn lemma_the_outcome_is_reported_once(
    cfg: ReceiverConfig,
    start: Instant,
    inputs: Seq<RecvInput>,
)
    ensures
        ({
            let (s, events) = Receiving::fresh(cfg, start).run(inputs);
            &&& account(events).outcomes.len() == if s.streaming {
                0nat
            } else {
                1
            }
            &&& s.closed ==> account(events).outcomes.len() == 1
        }),
{
    lemma_run(cfg, start, inputs);
}

/// A truncated stream is never taken for a complete one: if the outcome is
/// `Complete`, the sender declared that end, and every frame up to it has been
/// handed up.
pub proof fn lemma_complete_is_complete(
    cfg: ReceiverConfig,
    start: Instant,
    inputs: Seq<RecvInput>,
    f: XferSeq,
)
    requires
        account(Receiving::fresh(cfg, start).run(inputs).1).outcomes.contains(
            RelOutcome::Complete { final_seq: f },
        ),
    ensures
        declared(inputs, f),
        account(Receiving::fresh(cfg, start).run(inputs).1).reliable.len() >= f.0,
{
    lemma_run(cfg, start, inputs);
    let outcomes = account(Receiving::fresh(cfg, start).run(inputs).1).outcomes;
    let i = choose|i: int|
        0 <= i < outcomes.len() && outcomes[i] == (RelOutcome::Complete { final_seq: f });
    assert(outcomes[i] == outcomes[0]);
}

/// The cache copy is exact: if only frames of `sent` arrive, in whatever order,
/// however often and with whatever loss on the way, and the stream is complete up
/// to the last of them, then the reliable stream has yielded `sent` and nothing
/// else.
pub proof fn lemma_the_cache_copy_is_exact(
    cfg: ReceiverConfig,
    start: Instant,
    inputs: Seq<RecvInput>,
    sent: Seq<FrameView>,
)
    requires
        sent.len() <= u32::MAX,
        forall|f: FrameView| #[trigger]
            fed(inputs, f) ==> 1 <= f.seq.0 <= sent.len() && f == sent[f.seq.0 - 1],
        account(Receiving::fresh(cfg, start).run(inputs).1).outcomes.contains(
            RelOutcome::Complete { final_seq: XferSeq(sent.len() as u32) },
        ),
    ensures
        account(Receiving::fresh(cfg, start).run(inputs).1).reliable == sent,
{
    let reliable = account(Receiving::fresh(cfg, start).run(inputs).1).reliable;
    lemma_run(cfg, start, inputs);
    lemma_complete_is_complete(cfg, start, inputs, XferSeq(sent.len() as u32));
    assert forall|i: int| 0 <= i < reliable.len() implies fed(inputs, #[trigger] reliable[i]) by {
        lemma_first_fed(inputs, (i + 1) as u32);
    }
    if reliable.len() > sent.len() {
        assert(fed(inputs, reliable[sent.len() as int]));
    }
    assert forall|i: int| 0 <= i < sent.len() implies #[trigger] reliable[i] == sent[i] by {
        assert(fed(inputs, reliable[i]));
    }
    assert(reliable =~= sent);
}

/// Playback gets every frame the moment it first arrives, gaps and all, before
/// anything else is done about it, and gets no repeat, whatever has become of the
/// reliable stream.
pub proof fn lemma_playback_gets_every_new_frame(
    cfg: ReceiverConfig,
    start: Instant,
    inputs: Seq<RecvInput>,
    f: FrameView,
    now: Instant,
)
    requires
        cfg.mode is Dual,
    ensures
        ({
            let events = Receiving::fresh(cfg, start).run(inputs).0.handled(
                f.seq,
                BodyView::Data { ts: f.ts, payload: f.payload },
                now,
            ).1;
            if f.seq.0 != 0 && !fed_number(inputs, f.seq.0) {
                &&& account(events).played == seq![f]
                &&& events.len() > 0
                &&& events[0] == RecvEventView::Unreliable(f)
            } else {
                account(events).played.len() == 0
            }
        }),
{
    lemma_run(cfg, start, inputs);
    let s = Receiving::fresh(cfg, start).run(inputs).0;
    let input = RecvInput::Handle {
        seq: f.seq,
        body: BodyView::Data { ts: f.ts, payload: f.payload },
        now,
    };
    lemma_step(s, input);
    assert(s.arrivals.has(f.seq.0) <==> f.seq.0 == 0 || fed_number(inputs, f.seq.0));
    if s.arrivals.fresh(f.seq.0) {
        let r = Receiving { last_packet_at: now, ..s };
        assert(r.took(f, now).1[0] == RecvEventView::Unreliable(f));
    }
}

/// The numbers of `frames`.
pub open spec fn numbers(frames: Seq<FrameView>) -> Seq<u32> {
    frames.map_values(|f: FrameView| f.seq.0)
}

proof fn lemma_played(cfg: ReceiverConfig, start: Instant, inputs: Seq<RecvInput>)
    ensures
        ({
            let played = account(Receiving::fresh(cfg, start).run(inputs).1).played;
            &&& forall|i: int|
                0 <= i < played.len() ==> fed_number(inputs, (#[trigger] played[i]).seq.0)
                    && first_fed(inputs, played[i].seq.0) == Some(played[i])
            &&& cfg.mode is RelOnly ==> played.len() == 0
            &&& forall|i: int, j: int|
                0 <= i < j < played.len() ==> (#[trigger] played[i]).seq.0 != (
                #[trigger] played[j]).seq.0
        }),
    decreases inputs.len(),
{
    if inputs.len() > 0 {
        let before = inputs.drop_last();
        lemma_run(cfg, start, before);
        lemma_played(cfg, start, before);
        let (s, events) = Receiving::fresh(cfg, start).run(before);
        let (t, more) = s.step(inputs.last());
        lemma_step(s, inputs.last());
        lemma_account_plus(events, more);
        lemma_fed_later(inputs);
        let a = account(events);
        let b = account(more);
        let all = account(events + more);
        assert forall|i: int| 0 <= i < all.played.len() implies fed_number(
            inputs,
            (#[trigger] all.played[i]).seq.0,
        ) && first_fed(inputs, all.played[i].seq.0) == Some(all.played[i]) by {
            if i < a.played.len() {
                assert(all.played[i] == a.played[i]);
            } else {
                assert(all.played[i] == b.played[i - a.played.len()]);
                let k = all.played[i].seq.0;
                lemma_first_fed(before, k);
                assert(!s.arrivals.has(k));
            }
        }
        assert forall|i: int, j: int| 0 <= i < j < all.played.len() implies (
        #[trigger] all.played[i]).seq.0 != (#[trigger] all.played[j]).seq.0 by {
            assert(all.played[i] == a.played[i]);
            if j < a.played.len() {
                assert(all.played[j] == a.played[j]);
            } else {
                assert(all.played[j] == b.played[j - a.played.len()]);
                assert(s.arrivals.has(a.played[i].seq.0));
            }
        }
    }
}

/// Playback never sees a duplicate: a frame is played at most once, however often
/// it arrives and whatever has become of the reliable stream. What is played is
/// the first frame that was received under its number.
pub proof fn lemma_duplicates_are_played_once(
    cfg: ReceiverConfig,
    start: Instant,
    inputs: Seq<RecvInput>,
)
    ensures
        ({
            let played = account(Receiving::fresh(cfg, start).run(inputs).1).played;
            &&& numbers(played).no_duplicates()
            &&& forall|i: int|
                0 <= i < played.len() ==> first_fed(inputs, (#[trigger] played[i]).seq.0) == Some(
                    played[i],
                )
        }),
{
    lemma_played(cfg, start, inputs);
    let played = account(Receiving::fresh(cfg, start).run(inputs).1).played;
    assert forall|i: int, j: int|
        0 <= i < numbers(played).len() && 0 <= j < numbers(played).len() && i
            != j implies numbers(played)[i] != numbers(played)[j] by {
        assert(numbers(played)[i] == played[i].seq.0);
        assert(numbers(played)[j] == played[j].seq.0);
    }
}

/// A reliable-only receiver never plays anything.
pub proof fn lemma_rel_only_plays_nothing(
    cfg: ReceiverConfig,
    start: Instant,
    inputs: Seq<RecvInput>,
)
    requires
        cfg.mode is RelOnly,
    ensures
        account(Receiving::fresh(cfg, start).run(inputs).1).played.len() == 0,
{
    lemma_played(cfg, start, inputs);
}

/// The tail is confirmed at most once, and only when the sender has declared an
/// end and every frame up to it has arrived. The transfer closes at most once.
pub proof fn lemma_only_a_whole_transfer_is_confirmed(
    cfg: ReceiverConfig,
    start: Instant,
    inputs: Seq<RecvInput>,
)
    ensures
        ({
            let (s, events) = Receiving::fresh(cfg, start).run(inputs);
            let a = account(events);
            &&& a.confirmed <= 1
            &&& a.closed == if s.closed {
                1nat
            } else {
                0
            }
            &&& a.confirmed > 0 ==> exists|f: XferSeq| #[trigger]
                declared(inputs, f) && forall|k: u32| 1 <= k <= f.0 ==> fed_number(inputs, k)
        }),
{
    lemma_run(cfg, start, inputs);
    let (s, events) = Receiving::fresh(cfg, start).run(inputs);
    if account(events).confirmed > 0 {
        let f = choose|f: XferSeq| #[trigger]
            declared(inputs, f) && f.0 <= s.arrivals.contiguous;
        assert forall|k: u32| 1 <= k <= f.0 implies fed_number(inputs, k) by {
            assert(s.arrivals.has(k));
        }
    }
}

/// How many of `requests` name the frame numbered `k`.
pub open spec fn times(requests: Seq<Seq<XferSeq>>, k: u32) -> nat
    decreases requests.len(),
{
    if requests.len() == 0 {
        0
    } else {
        times(requests.drop_last(), k) + if requests.last().contains(XferSeq(k)) {
            1nat
        } else {
            0
        }
    }
}

pub proof fn lemma_times_plus(a: Seq<Seq<XferSeq>>, b: Seq<Seq<XferSeq>>, k: u32)
    ensures
        times(a + b, k) == times(a, k) + times(b, k),
    decreases b.len(),
{
    if b.len() == 0 {
        assert(a + b =~= a);
    } else {
        lemma_times_plus(a, b.drop_last(), k);
        assert((a + b).drop_last() =~= a + b.drop_last());
    }
}

impl Receiving {
    /// How often a gap has been asked for, by the bookkeeping.
    pub open spec fn attempts(self, k: u32) -> u8 {
        if self.nacks.contains_key(k) {
            self.nacks[k].0
        } else {
            0
        }
    }
}

pub proof fn lemma_filtered(gaps: Seq<XferSeq>, pred: spec_fn(XferSeq) -> bool)
    requires
        forall|i: int, j: int|
            0 <= i < j < gaps.len() ==> #[trigger] gaps[i].0 < #[trigger] gaps[j].0,
    ensures
        gaps.filter(pred).len() <= gaps.len(),
        forall|k: XferSeq| #[trigger]
            gaps.filter(pred).contains(k) <==> gaps.contains(k) && pred(k),
        forall|i: int, j: int|
            0 <= i < j < gaps.filter(pred).len() ==> #[trigger] gaps.filter(pred)[i].0
                < #[trigger] gaps.filter(pred)[j].0,
    decreases gaps.len(),
{
    reveal(Seq::filter);
    if gaps.len() > 0 {
        let rest = gaps.drop_last();
        lemma_filtered(rest, pred);
        let out = gaps.filter(pred);
        let less = rest.filter(pred);
        assert forall|k: XferSeq| #[trigger] out.contains(k) <==> gaps.contains(k) && pred(k) by {
            if out.contains(k) {
                let i = choose|i: int| 0 <= i < out.len() && out[i] == k;
                if i < less.len() {
                    assert(less[i] == k);
                    assert(less.contains(k));
                    let j = choose|j: int| 0 <= j < rest.len() && rest[j] == k;
                    assert(gaps[j] == k);
                } else {
                    assert(gaps[gaps.len() - 1] == k);
                }
            }
            if gaps.contains(k) && pred(k) {
                let j = choose|j: int| 0 <= j < gaps.len() && gaps[j] == k;
                if j < rest.len() {
                    assert(rest[j] == k);
                    assert(less.contains(k));
                    let i = choose|i: int| 0 <= i < less.len() && less[i] == k;
                    assert(out[i] == k);
                } else {
                    assert(out[out.len() - 1] == k);
                }
            }
        }
        assert forall|i: int, j: int| 0 <= i < j < out.len() implies #[trigger] out[i].0
            < #[trigger] out[j].0 by {
            assert(out[i] == less[i]);
            if j < less.len() {
                assert(out[j] == less[j]);
            } else {
                assert(less.contains(less[i]));
                assert(rest.contains(less[i]));
                let x = choose|x: int| 0 <= x < rest.len() && rest[x] == less[i];
                assert(gaps[x].0 < gaps[gaps.len() - 1].0);
            }
        }
    }
}

/// A request names between one and as many frames as fit into one packet, in
/// ascending order, and each is missing, while a later one has arrived, and is
/// not one that the sender has said to have lost.
pub open spec fn sensible(s: Receiving, request: Seq<XferSeq>) -> bool {
    &&& 1 <= request.len() <= MAX_NACK_ENTRIES
    &&& forall|i: int, j: int|
        0 <= i < j < request.len() ==> #[trigger] request[i].0 < #[trigger] request[j].0
    &&& forall|i: int|
        0 <= i < request.len() ==> s.arrivals.is_gap(#[trigger] request[i].0) && request[i].0
            > s.sender_lost_below
}

/// What one step may ask for.
spec fn lawful_requests(s: Receiving, t: Receiving, a: Account) -> bool {
    &&& !s.streaming ==> a.requests.len() == 0
    &&& forall|i: int| 0 <= i < a.requests.len() ==> sensible(s, #[trigger] a.requests[i])
    &&& forall|k: u32|
        (k <= s.arrivals.contiguous ==> #[trigger] times(a.requests, k) == 0) && (s.streaming && k
            > s.arrivals.contiguous ==> s.attempts(k) + times(a.requests, k)
            <= s.cfg.max_nack_attempts)
    &&& t.streaming ==> forall|k: u32|
        k > t.arrivals.contiguous ==> t.attempts(k) == s.attempts(k) + #[trigger] times(
            a.requests,
            k,
        )
}

proof fn lemma_requests_of_round(s: Receiving, now: Instant)
    requires
        s.valid(),
        s.streaming,
    ensures
        lawful_requests(s, s.requested(now).0, account(s.requested(now).1)),
{
    let gaps = s.gaps();
    let pred = |k: XferSeq| s.wanted(k, now);
    let ask = gaps.filter(pred);
    let (t, out) = s.requested(now);
    let a = account(out);
    s.lemma_gaps();
    lemma_filtered(gaps, pred);
    lemma_rel_finished(s, RelOutcome::Aborted(RelAbortReason::UnrecoverableGap));
    lemma_account_one(RecvEventView::SendNack { missing: ask });
    if t.streaming {
        assert forall|k: u32| #[trigger] ask.contains(XferSeq(k)) implies {
            &&& s.arrivals.is_gap(k)
            &&& k > s.sender_lost_below
            &&& s.attempts(k) < s.cfg.max_nack_attempts
        } by {
            let i = choose|i: int| 0 <= i < gaps.len() && gaps[i] == XferSeq(k);
            assert(!s.hopeless(gaps[i], now));
        }
        if ask.len() > 0 {
            assert(a.requests =~= seq![ask]);
            assert forall|i: int| 0 <= i < ask.len() implies s.arrivals.is_gap(
                #[trigger] ask[i].0,
            ) && ask[i].0 > s.sender_lost_below by {
                assert(ask.contains(XferSeq(ask[i].0)));
            }
            assert(sensible(s, ask));
        } else {
            assert(a.requests =~= Seq::empty());
        }
        assert forall|k: u32| #[trigger] times(a.requests, k) == if ask.contains(XferSeq(k)) {
            1nat
        } else {
            0
        } by {
            reveal_with_fuel(times, 2);
            if ask.len() > 0 {
                assert(a.requests.last() == ask);
                assert(a.requests.drop_last() =~= Seq::<Seq<XferSeq>>::empty());
            }
        }
        assert forall|k: u32| k > t.arrivals.contiguous implies t.attempts(k) == s.attempts(k)
            + #[trigger] times(a.requests, k) by {
            if ask.contains(XferSeq(k)) {
                assert(gaps.contains(XferSeq(k)));
            }
        }
    } else {
        assert(a.requests =~= Seq::empty());
    }
}

proof fn lemma_request_step(s: Receiving, input: RecvInput)
    requires
        s.valid(),
    ensures
        lawful_requests(s, s.step(input).0, account(s.step(input).1)),
{
    lemma_step(s, input);
    let (t, out) = s.step(input);
    match input {
        RecvInput::Handle { seq, body, now } => {
            lemma_handle_step(s, input);
            assert(account(out).requests =~= Seq::empty());
        },
        RecvInput::Tick { now } => {
            lemma_rel_finished(s, RelOutcome::Aborted(RelAbortReason::PeerGone));
            lemma_rel_finished(s, RelOutcome::Aborted(RelAbortReason::Stalled));
            if s.closed {
            } else if s.idle(now) {
                let gone = s.aborted(RelAbortReason::PeerGone).1;
                assert(out.drop_last() =~= gone);
                assert(account(out).requests =~= Seq::empty());
            } else {
                if s.streaming {
                    lemma_requests_of_round(s, now);
                }
                let (u, first) = if !s.streaming {
                    (s, Seq::empty())
                } else if s.stalled(now) {
                    s.aborted(RelAbortReason::Stalled)
                } else {
                    s.requested(now)
                };
                lemma_reported(u, now);
                lemma_account_plus(first, u.reported(now).1);
                assert(account(out) =~= account(first));
            }
        },
        RecvInput::Buffered { ms } => {},
    }
}

/// Every request is sensible for the state that it is made in, and once the
/// reliable stream has ended nothing more is requested.
pub proof fn lemma_requests_are_sensible(
    cfg: ReceiverConfig,
    start: Instant,
    inputs: Seq<RecvInput>,
    input: RecvInput,
)
    ensures
        ({
            let s = Receiving::fresh(cfg, start).run(inputs).0;
            let requests = account(s.step(input).1).requests;
            &&& forall|i: int| 0 <= i < requests.len() ==> sensible(s, #[trigger] requests[i])
            &&& !s.streaming ==> requests.len() == 0
        }),
{
    lemma_run(cfg, start, inputs);
    lemma_request_step(Receiving::fresh(cfg, start).run(inputs).0, input);
}

proof fn lemma_requests_are_booked(
    cfg: ReceiverConfig,
    start: Instant,
    inputs: Seq<RecvInput>,
    k: u32,
)
    ensures
        ({
            let (s, events) = Receiving::fresh(cfg, start).run(inputs);
            let n = times(account(events).requests, k);
            &&& n <= cfg.max_nack_attempts
            &&& s.streaming && k > s.arrivals.contiguous ==> n == s.attempts(k)
        }),
    decreases inputs.len(),
{
    if inputs.len() > 0 {
        let before = inputs.drop_last();
        lemma_run(cfg, start, before);
        lemma_requests_are_booked(cfg, start, before, k);
        let (s, events) = Receiving::fresh(cfg, start).run(before);
        let (t, more) = s.step(inputs.last());
        lemma_step(s, inputs.last());
        lemma_request_step(s, inputs.last());
        lemma_account_plus(events, more);
        lemma_times_plus(account(events).requests, account(more).requests, k);
        if !s.streaming {
            assert(account(more).requests =~= Seq::empty());
        }
    }
}

/// No frame is asked for more often than `max_nack_attempts` times.
pub proof fn lemma_requests_are_limited(
    cfg: ReceiverConfig,
    start: Instant,
    inputs: Seq<RecvInput>,
    k: u32,
)
    ensures
        times(account(Receiving::fresh(cfg, start).run(inputs).1).requests, k)
            <= cfg.max_nack_attempts,
{
    lemma_requests_are_booked(cfg, start, inputs, k);
}

/// Memory is bounded: the frames that are held lie within the reorder window
/// beyond the prefix and within the byte limit, and once the reliable stream has
/// ended no frame is held and no request is on the books. The record that keeps
/// duplicates from playback holds numbers only: those received beyond the prefix,
/// each once, and never more of them than packets were received.
pub proof fn lemma_memory_is_bounded(cfg: ReceiverConfig, start: Instant, inputs: Seq<RecvInput>)
    ensures
        ({
            let s = Receiving::fresh(cfg, start).run(inputs).0;
            &&& held_bytes(s.reorder) <= cfg.max_reorder_bytes
            &&& forall|k: u32| #[trigger]
                s.reorder.contains_key(k) ==> s.arrivals.contiguous < k <= s.arrivals.contiguous
                    + cfg.reorder_window
            &&& !s.streaming ==> s.reorder == Map::<u32, FrameView>::empty() && s.nacks == Map::<
                u32,
                (u8, i128),
            >::empty()
            &&& forall|k: u32| #[trigger]
                s.arrivals.ahead.contains(k) ==> fed_number(inputs, k) && s.arrivals.contiguous < k
            &&& s.arrivals.ahead.len() <= inputs.len()
        }),
{
    lemma_run(cfg, start, inputs);
    let s = Receiving::fresh(cfg, start).run(inputs).0;
    assert forall|k: u32| #[trigger] s.arrivals.ahead.contains(k) implies fed_number(inputs, k)
        && s.arrivals.contiguous < k by {
        assert(s.arrivals.has(k));
    }
    super::receiver::lemma_held_none((u32::MAX + 1) as nat);
}

proof fn lemma_in_account(events: Seq<RecvEventView>)
    ensures
        account(events).reliable.len() == 0 ==> forall|i: int|
            0 <= i < events.len() ==> !(#[trigger] events[i] is Reliable),
        account(events).outcomes.len() == 0 ==> forall|i: int|
            0 <= i < events.len() ==> !(#[trigger] events[i] is RelFinished),
    decreases events.len(),
{
    if events.len() > 0 {
        lemma_in_account(events.drop_last());
        assert forall|i: int| 0 <= i < events.len() implies #[trigger] events[i] == if i
            < events.len() - 1 {
            events.drop_last()[i]
        } else {
            events.last()
        } by {}
    }
}

/// Whether no frame of the reliable stream follows its outcome.
pub open spec fn outcome_comes_last(events: Seq<RecvEventView>) -> bool {
    forall|i: int, j: int|
        0 <= i < j < events.len() && #[trigger] events[i] is RelFinished ==> !(
        #[trigger] events[j] is Reliable)
}

proof fn lemma_order_of_step(s: Receiving, input: RecvInput)
    requires
        s.valid(),
    ensures
        outcome_comes_last(s.step(input).1),
{
    lemma_step(s, input);
    let (t, out) = s.step(input);
    lemma_in_account(out);
    if let RecvInput::Handle { seq, body: BodyView::Data { ts, payload }, now } = input {
        let r = Receiving { last_packet_at: now, ..s };
        let f = FrameView { seq, ts, payload };
        let (u, body) = r.took(f, now);
        let ack = u.reported(now).1;
        let fresh = r.arrivals.fresh(seq.0);
        let w = Receiving { arrivals: r.arrivals.recorded(seq.0), ..r };
        let held = r.reorder.insert(seq.0, f);
        if r.streaming && fresh && !(w.arrivals.span() > r.cfg.reorder_window || held_bytes(held)
            > r.cfg.max_reorder_bytes) {
            let played = if r.cfg.mode is Dual {
                seq![RecvEventView::Unreliable(f)]
            } else {
                Seq::empty()
            };
            let (x, grown) = Receiving { reorder: held, ..w }.released(
                r.arrivals.contiguous,
                now,
            );
            let end = x.wound_up().1;
            assert(out == played + grown + end + ack);
            assert forall|i: int, j: int|
                0 <= i < j < out.len() && #[trigger] out[i] is RelFinished implies !(
            #[trigger] out[j] is Reliable) by {
                let n = (played + grown).len();
                if i < n {
                    assert(out[i] == (played + grown)[i]);
                }
            }
        }
    }
}

/// Nothing more comes out of the reliable stream once its outcome has been
/// reported.
pub proof fn lemma_the_outcome_comes_last(
    cfg: ReceiverConfig,
    start: Instant,
    inputs: Seq<RecvInput>,
)
    ensures
        outcome_comes_last(Receiving::fresh(cfg, start).run(inputs).1),
    decreases inputs.len(),
{
    if inputs.len() > 0 {
        let before = inputs.drop_last();
        lemma_run(cfg, start, before);
        lemma_the_outcome_comes_last(cfg, start, before);
        let (s, events) = Receiving::fresh(cfg, start).run(before);
        let (t, more) = s.step(inputs.last());
        lemma_step(s, inputs.last());
        lemma_order_of_step(s, inputs.last());
        lemma_in_account(events);
        lemma_in_account(more);
        let all = events + more;
        assert forall|i: int, j: int|
            0 <= i < j < all.len() && #[trigger] all[i] is RelFinished implies !(
        #[trigger] all[j] is Reliable) by {
            if i < events.len() {
                assert(events[i] is RelFinished);
                if j >= events.len() {
                    assert(all[j] == more[j - events.len()]);
                }
            } else {
                assert(all[i] == more[i - events.len()]);
                assert(all[j] == more[j - events.len()]);
            }
        }
    }
}

/// A closed transfer stays closed, and time alone changes nothing in it.
pub proof fn lemma_closed_is_final(cfg: ReceiverConfig, start: Instant, inputs: Seq<RecvInput>, later: RecvInput)
    requires
        Receiving::fresh(cfg, start).run(inputs).0.closed,
    ensures
        ({
            let s = Receiving::fresh(cfg, start).run(inputs).0;
            let (t, events) = s.step(later);
            &&& t.closed
            &&& later is Tick ==> t == s && events.len() == 0
        }),
{
    lemma_run(cfg, start, inputs);
    lemma_step(Receiving::fresh(cfg, start).run(inputs).0, later);
}

proof fn lemma_complete_iff_whole(cfg: ReceiverConfig, start: Instant, inputs: Seq<RecvInput>)
    ensures
        Receiving::fresh(cfg, start).run(inputs).0.complete() <==> whole(inputs),
{
    lemma_run(cfg, start, inputs);
    let s = Receiving::fresh(cfg, start).run(inputs).0;
    let c = s.arrivals.contiguous;
    if let Some(f) = s.final_seq {
        if f.0 <= c {
            assert forall|k: u32| 1 <= k <= f.0 implies #[trigger] fed_number(inputs, k) by {
                assert(s.arrivals.has(k));
            }
        } else {
            let k = (c + 1) as u32;
            assert(!s.arrivals.has(k));
            assert(!fed_number(inputs, k));
        }
    }
}

proof fn lemma_no_whole_stream_goes_on(
    cfg: ReceiverConfig,
    start: Instant,
    inputs: Seq<RecvInput>,
)
    ensures
        Receiving::fresh(cfg, start).run(inputs).0.streaming ==> !Receiving::fresh(
            cfg,
            start,
        ).run(inputs).0.complete(),
    decreases inputs.len(),
{
    if inputs.len() > 0 {
        let before = inputs.drop_last();
        lemma_run(cfg, start, before);
        lemma_no_whole_stream_goes_on(cfg, start, before);
        lemma_step(Receiving::fresh(cfg, start).run(before).0, inputs.last());
    }
}

/// The reliable stream ends as soon as the transfer is whole, whichever comes
/// last, the declaration of the end or a frame: whenever every frame up to the
/// declared end has arrived, its one outcome has been reported.
pub proof fn lemma_a_whole_stream_has_ended(
    cfg: ReceiverConfig,
    start: Instant,
    inputs: Seq<RecvInput>,
)
    ensures
        ({
            let (s, events) = Receiving::fresh(cfg, start).run(inputs);
            &&& s.streaming ==> !s.complete()
            &&& s.complete() <==> whole(inputs)
            &&& whole(inputs) ==> account(events).outcomes.len() == 1
        }),
{
    lemma_run(cfg, start, inputs);
    lemma_no_whole_stream_goes_on(cfg, start, inputs);
    lemma_complete_iff_whole(cfg, start, inputs);
}

/// Recovering the tail completes the transfer: if the end was declared before,
/// the frame that makes the transfer whole is handed up with what waited for it,
/// the outcome is `Complete`, the tail is confirmed and the transfer closes. This
/// leaves out a frame on which the reliable stream passes one of its limits.
pub proof fn lemma_the_last_frame_completes(
    cfg: ReceiverConfig,
    start: Instant,
    inputs: Seq<RecvInput>,
    f: FrameView,
    now: Instant,
)
    requires
        ({
            let s = Receiving::fresh(cfg, start).run(inputs).0;
            let input = RecvInput::Handle {
                seq: f.seq,
                body: BodyView::Data { ts: f.ts, payload: f.payload },
                now,
            };
            &&& s.streaming
            &&& whole(inputs.push(input))
            &&& s.holding(f).arrivals.span() <= cfg.reorder_window
            &&& held_bytes(s.holding(f).reorder) <= cfg.max_reorder_bytes
        }),
    ensures
        ({
            let s = Receiving::fresh(cfg, start).run(inputs).0;
            let (t, events) = s.handled(
                f.seq,
                BodyView::Data { ts: f.ts, payload: f.payload },
                now,
            );
            &&& account(events).outcomes == seq![
                RelOutcome::Complete { final_seq: last_declared(inputs)->0 },
            ]
            &&& account(events).confirmed == 1
            &&& t.closed
        }),
{
    let input = RecvInput::Handle {
        seq: f.seq,
        body: BodyView::Data { ts: f.ts, payload: f.payload },
        now,
    };
    let after = inputs.push(input);
    assert(after.drop_last() =~= inputs);
    lemma_run(cfg, start, inputs);
    lemma_a_whole_stream_has_ended(cfg, start, inputs);
    lemma_a_whole_stream_has_ended(cfg, start, after);
    let s = Receiving::fresh(cfg, start).run(inputs).0;
    let (t, events) = s.handled(f.seq, BodyView::Data { ts: f.ts, payload: f.payload }, now);
    lemma_step(s, input);
    let r = Receiving { last_packet_at: now, ..s };
    assert(r.holding(f).arrivals == s.holding(f).arrivals);
    assert(r.holding(f).reorder == s.holding(f).reorder);
    assert(s.arrivals.fresh(f.seq.0));
    r.lemma_release_valid(f, now);
    let (u, out) = r.holding(f).released(r.arrivals.contiguous, now);
    lemma_wound_up(u);
    lemma_took(r, input, f, now);
    let (v, all) = r.took(f, now);
    lemma_reported(v, now);
    lemma_account_plus(all, v.reported(now).1);
    assert(account(events) =~= account(all));
    let played = if s.cfg.mode is Dual {
        seq![RecvEventView::Unreliable(f)]
    } else {
        Seq::empty()
    };
    lemma_account_one(RecvEventView::Unreliable(f));
    lemma_account_grown(r.holding(f).reorder, r.arrivals.contiguous, u.arrivals.contiguous);
    lemma_account_plus(played, out);
    lemma_account_plus(played + out, u.wound_up().1);
    assert(account(all).outcomes =~= account(u.wound_up().1).outcomes);
}

/// A transfer whose frames have all arrived completes when its end is declared:
/// the outcome is `Complete`, the tail is confirmed and the transfer closes.
pub proof fn lemma_a_whole_transfer_completes(
    cfg: ReceiverConfig,
    start: Instant,
    inputs: Seq<RecvInput>,
    seq: XferSeq,
    f: XferSeq,
    now: Instant,
)
    requires
        Receiving::fresh(cfg, start).run(inputs).0.streaming,
        forall|k: u32| 1 <= k <= f.0 ==> #[trigger] fed_number(inputs, k),
    ensures
        ({
            let s = Receiving::fresh(cfg, start).run(inputs).0;
            let (t, events) = s.handled(seq, BodyView::End { final_seq: f }, now);
            &&& account(events).outcomes == seq![RelOutcome::Complete { final_seq: f }]
            &&& account(events).confirmed == 1
            &&& t.closed
        }),
{
    lemma_run(cfg, start, inputs);
    let s = Receiving::fresh(cfg, start).run(inputs).0;
    let c = s.arrivals.contiguous;
    if c < f.0 {
        let k = (c + 1) as u32;
        assert(fed_number(inputs, k));
        assert(s.arrivals.has(k));
    }
    let u = Receiving { last_packet_at: now, final_seq: Some(f), ..s };
    let (t, out) = u.wound_up();
    lemma_wound_up(u);
    lemma_reported(t, now);
    lemma_account_plus(out, t.reported(now).1);
    assert(account(out + t.reported(now).1) =~= account(out));
}

/// Silence ends the transfer: after more than the idle timeout without a packet
/// it closes, and a reliable stream that was going on is reported as aborted
/// because the peer is gone.
pub proof fn lemma_silence_closes_the_transfer(
    cfg: ReceiverConfig,
    start: Instant,
    inputs: Seq<RecvInput>,
    now: Instant,
)
    requires
        !Receiving::fresh(cfg, start).run(inputs).0.closed,
        Receiving::fresh(cfg, start).run(inputs).0.idle(now),
    ensures
        ({
            let s = Receiving::fresh(cfg, start).run(inputs).0;
            let (t, events) = s.ticked(now);
            &&& t.closed
            &&& account(events).closed == 1
            &&& account(events).outcomes == if s.streaming {
                seq![RelOutcome::Aborted(RelAbortReason::PeerGone)]
            } else {
                Seq::empty()
            }
        }),
{
    lemma_run(cfg, start, inputs);
    let s = Receiving::fresh(cfg, start).run(inputs).0;
    let out = s.aborted(RelAbortReason::PeerGone).1;
    lemma_rel_finished(s, RelOutcome::Aborted(RelAbortReason::PeerGone));
    assert(out.push(RecvEventView::Closed).drop_last() =~= out);
    assert(account(s.ticked(now).1).outcomes =~= account(out).outcomes);
    assert(Account::none().outcomes.push(RelOutcome::Aborted(RelAbortReason::PeerGone)) =~= seq![
        RelOutcome::Aborted(RelAbortReason::PeerGone),
    ]);
}

/// A sender that says it has lost a frame beyond the prefix ends the reliable
/// stream at once, in one round trip.
pub proof fn lemma_lost_frames_end_the_stream(
    cfg: ReceiverConfig,
    start: Instant,
    inputs: Seq<RecvInput>,
    seq: XferSeq,
    lost_below: XferSeq,
    now: Instant,
)
    requires
        ({
            let s = Receiving::fresh(cfg, start).run(inputs).0;
            &&& s.streaming
            &&& s.sender_lost_below < lost_below.0
            &&& s.arrivals.contiguous < lost_below.0
        }),
    ensures
        ({
            let s = Receiving::fresh(cfg, start).run(inputs).0;
            let (t, events) = s.handled(seq, BodyView::Keepalive { lost_below }, now);
            &&& !t.streaming
            &&& account(events).outcomes == seq![
                RelOutcome::Aborted(RelAbortReason::SenderDiscarded),
            ]
        }),
{
    lemma_run(cfg, start, inputs);
    let s = Receiving::fresh(cfg, start).run(inputs).0;
    let r = Receiving { last_packet_at: now, ..s };
    let w = Receiving { sender_lost_below: lost_below.0, ..r };
    let o = RelOutcome::Aborted(RelAbortReason::SenderDiscarded);
    let (u, warning) = r.warned(lost_below);
    let (v, end) = u.wound_up();
    lemma_rel_finished(w, o);
    lemma_wound_up(u);
    lemma_account_plus(warning, end);
    lemma_reported(v, now);
    lemma_account_plus(warning + end, v.reported(now).1);
    let (t, events) = s.handled(seq, BodyView::Keepalive { lost_below }, now);
    assert(account(events).outcomes =~= account(warning).outcomes + account(end).outcomes);
    assert(account(events).outcomes =~= seq![o]);
}

/// A prefix that has not advanced for longer than the stall timeout ends the
/// reliable stream if packets have kept arriving in that time, and silence is
/// never taken for a stall.
pub proof fn lemma_only_a_live_peer_can_stall(
    cfg: ReceiverConfig,
    start: Instant,
    inputs: Seq<RecvInput>,
    now: Instant,
)
    requires
        Receiving::fresh(cfg, start).run(inputs).0.streaming,
        !Receiving::fresh(cfg, start).run(inputs).0.idle(now),
        elapsed(
            now@ as int,
            Receiving::fresh(cfg, start).run(inputs).0.last_rel_progress_at@ as int,
        ) > cfg.rel_stall_timeout@,
    ensures
        ({
            let s = Receiving::fresh(cfg, start).run(inputs).0;
            let stalled = RelOutcome::Aborted(RelAbortReason::Stalled);
            account(s.ticked(now).1).outcomes.contains(stalled) <==> elapsed(
                now@ as int,
                s.last_packet_at@ as int,
            ) <= cfg.rel_stall_timeout@
        }),
{
    lemma_run(cfg, start, inputs);
    let s = Receiving::fresh(cfg, start).run(inputs).0;
    let stalled = RelOutcome::Aborted(RelAbortReason::Stalled);
    lemma_rel_finished(s, stalled);
    lemma_requested(s, now);
    let (u, out) = if s.stalled(now) {
        s.aborted(RelAbortReason::Stalled)
    } else {
        s.requested(now)
    };
    lemma_reported(u, now);
    lemma_account_plus(out, u.reported(now).1);
    let outcomes = account(s.ticked(now).1).outcomes;
    assert(outcomes =~= account(out).outcomes);
    if s.stalled(now) {
        assert(outcomes[0] == stalled);
    }
}

} // verus!
