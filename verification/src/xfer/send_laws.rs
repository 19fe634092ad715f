//! What holds of a sender over a whole transfer.

use vstd::prelude::*;

use super::retrans::{find, max_u32, Ring};
use super::ring_laws::{lemma_beyond_is_suffix, lemma_found_was_stored};
use super::sender::{due, resends, SendEventView, SendFailure, Sending};
use crate::config::SenderConfig;
use crate::crypto::{lemma_nonce_injective, nonce_of};
use crate::frame::BodyView;
use crate::time::Instant;
use crate::types::{Direction, TimestampMs, XferSeq};

verus! {

/// One call of an [`XferSender`](super::XferSender) that changes its state.
pub enum SendInput {
    Push { ts: TimestampMs, payload: Seq<u8>, now: Instant },
    Record { seq: XferSeq, datagram: Seq<u8> },
    Finish { now: Instant },
    Handle { body: BodyView },
    Tick { now: Instant },
}

pub open spec fn as_events(e: Option<SendEventView>) -> Seq<SendEventView> {
    match e {
        Some(e) => seq![e],
        None => Seq::empty(),
    }
}

impl Sending {
    /// The state and the events after one call.
    pub open spec fn step(self, input: SendInput) -> (Sending, Seq<SendEventView>) {
        match input {
            SendInput::Push { ts, payload, now } => {
                let (s, e) = self.pushed(ts, payload, now);
                (s, as_events(e))
            },
            SendInput::Record { seq, datagram } => (self.recorded(seq, datagram), Seq::empty()),
            SendInput::Finish { now } => {
                let (s, e) = self.finished(now);
                (s, as_events(e))
            },
            SendInput::Handle { body } => self.handled(body),
            SendInput::Tick { now } => self.ticked(now),
        }
    }

    /// The state after a series of calls, and all events of them in order.
    pub open spec fn run(self, inputs: Seq<SendInput>) -> (Sending, Seq<SendEventView>)
        decreases inputs.len(),
    {
        if inputs.len() == 0 {
            (self, Seq::empty())
        } else {
            let (s, events) = self.run(inputs.drop_last());
            let (t, more) = s.step(inputs.last());
            (t, events + more)
        }
    }
}

/// The numbers of the payload frames among `events`.
pub open spec fn data_seqs(events: Seq<SendEventView>) -> Seq<u32>
    decreases events.len(),
{
    if events.len() == 0 {
        Seq::empty()
    } else {
        let rest = data_seqs(events.drop_last());
        match events.last() {
            SendEventView::Emit { seq, body: BodyView::Data { .. } } => rest.push(seq.0),
            _ => rest,
        }
    }
}

/// The counters of the control packets among `events`.
pub open spec fn control_seqs(events: Seq<SendEventView>) -> Seq<u32>
    decreases events.len(),
{
    if events.len() == 0 {
        Seq::empty()
    } else {
        let rest = control_seqs(events.drop_last());
        match events.last() {
            SendEventView::Emit { seq, body } if !(body is Data) => rest.push(seq.0),
            _ => rest,
        }
    }
}

/// The numbers from 1 to `n`.
pub open spec fn counting(n: nat) -> Seq<u32> {
    Seq::new(n, |i: int| (i + 1) as u32)
}

/// One call causes at most one event.
pub proof fn lemma_step_is_small(s: Sending, input: SendInput)
    ensures
        s.step(input).1.len() <= 1,
{
}

pub proof fn lemma_append(a: Seq<SendEventView>, b: Seq<SendEventView>)
    requires
        b.len() <= 1,
    ensures
        data_seqs(a + b) == data_seqs(a) + data_seqs(b),
        control_seqs(a + b) == control_seqs(a) + control_seqs(b),
{
    reveal_with_fuel(data_seqs, 2);
    reveal_with_fuel(control_seqs, 2);
    if b.len() == 0 {
        assert(a + b =~= a);
        assert(data_seqs(a) + data_seqs(b) =~= data_seqs(a));
        assert(control_seqs(a) + control_seqs(b) =~= control_seqs(a));
    } else {
        assert((a + b).drop_last() =~= a);
        assert(b.drop_last() =~= Seq::<SendEventView>::empty());
        assert(data_seqs(a + b) =~= data_seqs(a) + data_seqs(b));
        assert(control_seqs(a + b) =~= control_seqs(a) + control_seqs(b));
    }
}

/// Payload frames are numbered 1, 2, 3 and so on, in the order in which they are
/// sent, so that no nonce is used for two of them. The numbers end one short of
/// the largest that a header can hold.
pub proof fn lemma_frames_are_numbered_from_one(cfg: SenderConfig, inputs: Seq<SendInput>)
    ensures
        ({
            let (s, events) = Sending::fresh(cfg).run(inputs);
            &&& 1 <= s.next_seq
            &&& s.next_seq < u32::MAX ==> data_seqs(events) == counting((s.next_seq - 1) as nat)
        }),
    decreases inputs.len(),
{
    if inputs.len() == 0 {
        assert(data_seqs(Seq::empty()) =~= counting(0));
    } else {
        lemma_frames_are_numbered_from_one(cfg, inputs.drop_last());
        let (s, events) = Sending::fresh(cfg).run(inputs.drop_last());
        let (t, more) = s.step(inputs.last());
        lemma_step_is_small(s, inputs.last());
        lemma_append(events, more);
        reveal_with_fuel(data_seqs, 2);
        if t.next_seq < u32::MAX {
            assert(data_seqs(events + more) =~= counting((t.next_seq - 1) as nat));
        }
    }
}

/// Control packets are numbered 1, 2, 3 and so on, as long as there are fewer of
/// them than a counter can tell apart, so that no nonce is used for two of them.
pub proof fn lemma_control_packets_are_numbered(cfg: SenderConfig, inputs: Seq<SendInput>)
    ensures
        ({
            let (s, events) = Sending::fresh(cfg).run(inputs);
            let n = control_seqs(events).len();
            n <= u32::MAX ==> s.control_counter == n && control_seqs(events) == counting(n)
        }),
    decreases inputs.len(),
{
    if inputs.len() == 0 {
        assert(control_seqs(Seq::empty()) =~= counting(0));
    } else {
        lemma_control_packets_are_numbered(cfg, inputs.drop_last());
        let (s, events) = Sending::fresh(cfg).run(inputs.drop_last());
        let (t, more) = s.step(inputs.last());
        lemma_step_is_small(s, inputs.last());
        lemma_append(events, more);
        reveal_with_fuel(control_seqs, 2);
        let n = control_seqs(events + more).len();
        if n <= u32::MAX {
            assert(control_seqs(events + more) =~= counting(n));
        }
    }
}

proof fn lemma_seqs_prefix(events: Seq<SendEventView>, i: int)
    requires
        0 <= i <= events.len(),
    ensures
        data_seqs(events.take(i)).len() <= data_seqs(events).len(),
        data_seqs(events).take(data_seqs(events.take(i)).len() as int) == data_seqs(
            events.take(i),
        ),
        control_seqs(events.take(i)).len() <= control_seqs(events).len(),
        control_seqs(events).take(control_seqs(events.take(i)).len() as int) == control_seqs(
            events.take(i),
        ),
    decreases events.len(),
{
    if i < events.len() {
        let rest = events.drop_last();
        lemma_seqs_prefix(rest, i);
        assert(rest.take(i) =~= events.take(i));
        let d = data_seqs(events.take(i)).len() as int;
        let c = control_seqs(events.take(i)).len() as int;
        assert(data_seqs(events).take(d) =~= data_seqs(rest).take(d));
        assert(control_seqs(events).take(c) =~= control_seqs(rest).take(c));
    } else {
        assert(events.take(i) =~= events);
        assert(data_seqs(events).take(data_seqs(events).len() as int) =~= data_seqs(events));
        assert(control_seqs(events).take(control_seqs(events).len() as int) =~= control_seqs(
            events,
        ));
    }
}

proof fn lemma_seq_of_event(events: Seq<SendEventView>, i: int)
    requires
        0 <= i < events.len(),
    ensures
        events[i] matches SendEventView::Emit { seq, body } ==> {
            let d = data_seqs(events.take(i)).len();
            let c = control_seqs(events.take(i)).len();
            &&& body is Data ==> data_seqs(events.take(i + 1)).len() == d + 1 && d < data_seqs(
                events,
            ).len() && data_seqs(events)[d as int] == seq.0
            &&& !(body is Data) ==> control_seqs(events.take(i + 1)).len() == c + 1 && c
                < control_seqs(events).len() && control_seqs(events)[c as int] == seq.0
        },
{
    let upto = events.take(i + 1);
    assert(upto.drop_last() =~= events.take(i));
    assert(upto.last() == events[i]);
    lemma_seqs_prefix(events, i + 1);
    if let SendEventView::Emit { seq, body } = events[i] {
        if body is Data {
            let d = data_seqs(events.take(i)).len() as int;
            assert(data_seqs(upto)[d] == seq.0);
            assert(data_seqs(events).take(d + 1)[d] == seq.0);
        } else {
            let c = control_seqs(events.take(i)).len() as int;
            assert(control_seqs(upto)[c] == seq.0);
            assert(control_seqs(events).take(c + 1)[c] == seq.0);
        }
    }
}

proof fn lemma_counts_grow(events: Seq<SendEventView>, i: int, j: int)
    requires
        0 <= i <= j <= events.len(),
    ensures
        data_seqs(events.take(i)).len() <= data_seqs(events.take(j)).len(),
        control_seqs(events.take(i)).len() <= control_seqs(events.take(j)).len(),
{
    assert(events.take(j).take(i) =~= events.take(i));
    lemma_seqs_prefix(events.take(j), i);
}

/// The nonce that an emitted packet is sealed under.
pub open spec fn nonce_of_packet(seq: XferSeq, body: BodyView) -> Seq<u8> {
    nonce_of(Direction::Send, body.kind().class(), seq.0)
}

/// No two packets that a sender emits share a nonce, as long as neither counter
/// runs out. What is sent a second time is never sealed a second time.
pub proof fn lemma_no_two_packets_share_a_nonce(
    cfg: SenderConfig,
    inputs: Seq<SendInput>,
    i: int,
    j: int,
)
    requires
        ({
            let (s, events) = Sending::fresh(cfg).run(inputs);
            &&& 0 <= i < j < events.len()
            &&& events[i] is Emit
            &&& events[j] is Emit
            &&& s.next_seq < u32::MAX
            &&& control_seqs(events).len() <= u32::MAX
        }),
    ensures
        ({
            let events = Sending::fresh(cfg).run(inputs).1;
            nonce_of_packet(events[i]->seq, events[i]->Emit_body) != nonce_of_packet(
                events[j]->seq,
                events[j]->Emit_body,
            )
        }),
{
    let (s, events) = Sending::fresh(cfg).run(inputs);
    lemma_frames_are_numbered_from_one(cfg, inputs);
    lemma_control_packets_are_numbered(cfg, inputs);
    lemma_seq_of_event(events, i);
    lemma_seq_of_event(events, j);
    lemma_counts_grow(events, i + 1, j);
    let (a, x) = (events[i]->seq, events[i]->Emit_body);
    let (b, y) = (events[j]->seq, events[j]->Emit_body);
    if nonce_of_packet(a, x) == nonce_of_packet(b, y) {
        lemma_nonce_injective(
            Direction::Send,
            x.kind().class(),
            a.0,
            Direction::Send,
            y.kind().class(),
            b.0,
        );
    }
}

/// The greatest `highest` of all acknowledgements among the calls, or zero.
pub open spec fn highest_acked(inputs: Seq<SendInput>) -> u32
    decreases inputs.len(),
{
    if inputs.len() == 0 {
        0
    } else {
        let before = highest_acked(inputs.drop_last());
        match inputs.last() {
            SendInput::Handle { body: BodyView::Ack { highest, .. } } => max_u32(
                before,
                highest.0,
            ),
            _ => before,
        }
    }
}

/// Whether the acknowledgements among the calls have left the brake on.
pub open spec fn brake_of(cfg: SenderConfig, inputs: Seq<SendInput>) -> bool
    decreases inputs.len(),
{
    if inputs.len() == 0 {
        false
    } else {
        let before = brake_of(cfg, inputs.drop_last());
        match inputs.last() {
            SendInput::Handle { body: BodyView::Ack { buffered_ms, .. } } => if buffered_ms
                >= cfg.buffer_high_water_ms {
                true
            } else if buffered_ms <= cfg.buffer_low_water_ms {
                false
            } else {
                before
            },
            _ => before,
        }
    }
}

/// Every acknowledgement counts: none of those handled reported more than the
/// sender goes by, and if it goes by anything but zero, one of them reported it.
pub proof fn lemma_highest_acked_is_the_greatest(inputs: Seq<SendInput>)
    ensures
        forall|i: int|
            0 <= i < inputs.len() ==> (#[trigger] inputs[i] matches SendInput::Handle {
                body: BodyView::Ack { highest, .. },
            } ==> highest.0 <= highest_acked(inputs)),
        highest_acked(inputs) > 0 ==> exists|i: int|
            0 <= i < inputs.len() && reports_highest(#[trigger] inputs[i], highest_acked(inputs)),
    decreases inputs.len(),
{
    if inputs.len() > 0 {
        let before = inputs.drop_last();
        let last = inputs.len() - 1;
        lemma_highest_acked_is_the_greatest(before);
        assert(inputs[last] == inputs.last());
        assert forall|i: int| 0 <= i < inputs.len() implies (
        #[trigger] inputs[i] matches SendInput::Handle {
            body: BodyView::Ack { highest, .. },
        } ==> highest.0 <= highest_acked(inputs)) by {
            if i < last {
                assert(inputs[i] == before[i]);
            }
        }
        let h = highest_acked(inputs);
        if h > 0 {
            if h == highest_acked(before) {
                let i = choose|i: int|
                    0 <= i < before.len() && reports_highest(#[trigger] before[i], h);
                assert(inputs[i] == before[i]);
            } else {
                assert(reports_highest(inputs[last], h));
            }
        }
    }
}

/// Whether a call hands in an acknowledgement that reports `h` as the highest
/// number seen.
pub open spec fn reports_highest(input: SendInput, h: u32) -> bool {
    input matches SendInput::Handle { body: BodyView::Ack { highest, .. } } && highest.0 == h
}

/// The two brakes follow the acknowledgements and nothing else: the window goes
/// by the greatest number that any of them reported, and the pause by their
/// occupancy reports.
pub proof fn lemma_the_brakes_follow_the_acknowledgements(
    cfg: SenderConfig,
    inputs: Seq<SendInput>,
)
    ensures
        Sending::fresh(cfg).run(inputs).0.acked_highest == highest_acked(inputs),
        Sending::fresh(cfg).run(inputs).0.paused == brake_of(cfg, inputs),
    decreases inputs.len(),
{
    if inputs.len() > 0 {
        lemma_the_brakes_follow_the_acknowledgements(cfg, inputs.drop_last());
        lemma_the_window_holds(cfg, inputs.drop_last());
    }
}

/// A frame is taken exactly if the payload has not ended, the brake is off, and
/// fewer than `max_outstanding` frames have been sent beyond the greatest number
/// that any acknowledgement reported. It is sent under the number after those
/// already sent. A frame that is not taken leaves everything as it was.
pub proof fn lemma_a_frame_is_taken_within_the_window(
    cfg: SenderConfig,
    inputs: Seq<SendInput>,
    ts: TimestampMs,
    payload: Seq<u8>,
    now: Instant,
)
    requires
        Sending::fresh(cfg).run(inputs).0.next_seq < u32::MAX,
    ensures
        ({
            let (s, events) = Sending::fresh(cfg).run(inputs);
            let n = data_seqs(events).len();
            let h = highest_acked(inputs);
            let (t, r) = s.pushed(ts, payload, now);
            &&& r is Some <==> s.state is Streaming && !brake_of(cfg, inputs) && (if n > h {
                n - h
            } else {
                0
            }) < cfg.max_outstanding
            &&& r matches Some(e) ==> e == (SendEventView::Emit {
                seq: XferSeq((n + 1) as u32),
                body: BodyView::Data { ts, payload },
            })
            &&& r is None ==> t == s
        }),
{
    lemma_frames_are_numbered_from_one(cfg, inputs);
    lemma_the_brakes_follow_the_acknowledgements(cfg, inputs);
    lemma_the_window_holds(cfg, inputs);
}

/// The sender never runs more than `max_outstanding` frames ahead of the highest
/// one that the receiver has reported in any acknowledgement.
pub proof fn lemma_the_window_holds(cfg: SenderConfig, inputs: Seq<SendInput>)
    ensures
        ({
            let s = Sending::fresh(cfg).run(inputs).0;
            &&& s.cfg == cfg
            &&& s.acked_highest == highest_acked(inputs)
            &&& s.next_seq - 1 <= highest_acked(inputs) + cfg.max_outstanding
        }),
    decreases inputs.len(),
{
    if inputs.len() > 0 {
        lemma_the_window_holds(cfg, inputs.drop_last());
    }
}

/// `End` declares how many payload frames were sent.
pub proof fn lemma_end_declares_the_count(cfg: SenderConfig, inputs: Seq<SendInput>, now: Instant)
    requires
        Sending::fresh(cfg).run(inputs).0.next_seq < u32::MAX,
    ensures
        ({
            let (s, events) = Sending::fresh(cfg).run(inputs);
            s.finished(now).1 matches Some(e) ==> e matches SendEventView::Emit { body, .. }
                && body matches BodyView::End { final_seq } && final_seq.0 == data_seqs(
                events,
            ).len()
        }),
{
    lemma_frames_are_numbered_from_one(cfg, inputs);
}

/// Whether `datagram` was handed back as the sealed form of `seq`.
pub open spec fn was_recorded(inputs: Seq<SendInput>, seq: XferSeq, datagram: Seq<u8>) -> bool {
    exists|i: int|
        0 <= i < inputs.len() && #[trigger] inputs[i] == (SendInput::Record { seq, datagram })
}

proof fn lemma_stored_was_recorded(cfg: SenderConfig, inputs: Seq<SendInput>)
    ensures
        forall|j: int|
            0 <= j < Sending::fresh(cfg).run(inputs).0.ring.entries.len() ==> was_recorded(
                inputs,
                (#[trigger] Sending::fresh(cfg).run(inputs).0.ring.entries[j]).0,
                Sending::fresh(cfg).run(inputs).0.ring.entries[j].1,
            ),
    decreases inputs.len(),
{
    if inputs.len() > 0 {
        let before = inputs.drop_last();
        lemma_stored_was_recorded(cfg, before);
        let s = Sending::fresh(cfg).run(before).0;
        let t = Sending::fresh(cfg).run(inputs).0;
        assert forall|seq: XferSeq, d: Seq<u8>| was_recorded(before, seq, d) implies was_recorded(
            inputs,
            seq,
            d,
        ) by {
            let i = choose|i: int|
                0 <= i < before.len() && #[trigger] before[i] == (SendInput::Record {
                    seq,
                    datagram: d,
                });
            assert(inputs[i] == before[i]);
        }
        let grown = match inputs.last() {
            SendInput::Record { seq, datagram } => {
                assert(inputs[inputs.len() - 1] == (SendInput::Record { seq, datagram }));
                let grown = Ring { entries: s.ring.entries.push((seq, datagram)), ..s.ring };
                grown.lemma_trimmed();
                grown.entries
            },
            SendInput::Handle { body: BodyView::Ack { contiguous, .. } } => {
                lemma_beyond_is_suffix(s.ring.entries, contiguous.0);
                s.ring.entries
            },
            _ => s.ring.entries,
        };
        let n = t.ring.entries.len();
        assert(t.ring.entries =~= grown.skip(grown.len() - n));
        assert forall|j: int| 0 <= j < n implies was_recorded(
            inputs,
            (#[trigger] t.ring.entries[j]).0,
            t.ring.entries[j].1,
        ) by {
            let k = grown.len() - n + j;
            assert(t.ring.entries[j] == grown[k]);
            if k < s.ring.entries.len() {
                assert(grown[k] == s.ring.entries[k]);
            }
        }
    }
}

proof fn lemma_resend_was_stored(ring: Ring, missing: Seq<XferSeq>, k: int)
    requires
        0 <= k < resends(ring, missing).len(),
    ensures
        exists|m: int|
            0 <= m < missing.len() && ring.entries.contains(
                (#[trigger] missing[m], resends(ring, missing)[k]),
            ),
    decreases missing.len(),
{
    let rest = resends(ring, missing.drop_last());
    let last = missing.len() - 1;
    lemma_found_was_stored(ring.entries, missing.last());
    if k < rest.len() {
        lemma_resend_was_stored(ring, missing.drop_last(), k);
        let m = choose|m: int|
            0 <= m < last && ring.entries.contains((#[trigger] missing.drop_last()[m], rest[k]));
        assert(missing[m] == missing.drop_last()[m]);
    } else {
        assert(missing[last] == missing.last());
    }
}

/// A request is answered with the exact bytes that were handed back for one of
/// the frames it names, and with nothing else: a retransmission never seals.
pub proof fn lemma_resends_are_verbatim(
    cfg: SenderConfig,
    inputs: Seq<SendInput>,
    missing: Seq<XferSeq>,
    k: int,
)
    requires
        0 <= k < resends(Sending::fresh(cfg).run(inputs).0.ring, missing).len(),
    ensures
        exists|m: int|
            0 <= m < missing.len() && was_recorded(
                inputs,
                #[trigger] missing[m],
                resends(Sending::fresh(cfg).run(inputs).0.ring, missing)[k],
            ),
{
    let ring = Sending::fresh(cfg).run(inputs).0.ring;
    lemma_stored_was_recorded(cfg, inputs);
    lemma_resend_was_stored(ring, missing, k);
    let m = choose|m: int|
        0 <= m < missing.len() && ring.entries.contains(
            (#[trigger] missing[m], resends(ring, missing)[k]),
        );
    let j = choose|j: int|
        0 <= j < ring.entries.len() && ring.entries[j] == (missing[m], resends(ring, missing)[k]);
    assert(was_recorded(inputs, ring.entries[j].0, ring.entries[j].1));
}

/// The retransmission ring never outgrows its two limits.
pub proof fn lemma_the_ring_stays_in_budget(cfg: SenderConfig, inputs: Seq<SendInput>)
    ensures
        Sending::fresh(cfg).run(inputs).0.ring.in_budget(),
        Sending::fresh(cfg).run(inputs).0.ring.max_frames == Sending::fresh(cfg).ring.max_frames,
        Sending::fresh(cfg).run(inputs).0.ring.max_bytes == Sending::fresh(cfg).ring.max_bytes,
    decreases inputs.len(),
{
    if inputs.len() > 0 {
        lemma_the_ring_stays_in_budget(cfg, inputs.drop_last());
        let ring = Sending::fresh(cfg).run(inputs.drop_last()).0.ring;
        match inputs.last() {
            SendInput::Record { seq, datagram } => {
                Ring { entries: ring.entries.push((seq, datagram)), ..ring }.lemma_trimmed();
            },
            SendInput::Handle { body: BodyView::Ack { contiguous, .. } } => {
                ring.lemma_acked_budget(contiguous.0);
            },
            _ => {},
        }
    }
}

/// Whether `e` puts anything on the wire.
pub open spec fn transmits(e: SendEventView) -> bool {
    e is Emit || e is Resend
}

/// Whether one of `events` reports a failure.
pub open spec fn reports_failure(events: Seq<SendEventView>) -> bool {
    exists|i: int| 0 <= i < events.len() && #[trigger] events[i] is Failed
}

pub proof fn lemma_failure_is_remembered(cfg: SenderConfig, inputs: Seq<SendInput>)
    ensures
        ({
            let (s, events) = Sending::fresh(cfg).run(inputs);
            &&& s.failure is Some <==> reports_failure(events)
            &&& s.failure is Some ==> s.state is Done
        }),
    decreases inputs.len(),
{
    if inputs.len() > 0 {
        lemma_failure_is_remembered(cfg, inputs.drop_last());
        let (s, events) = Sending::fresh(cfg).run(inputs.drop_last());
        let (t, more) = s.step(inputs.last());
        let all = events + more;
        if t.failure is Some {
            if s.failure is Some {
                let i = choose|i: int| 0 <= i < events.len() && #[trigger] events[i] is Failed;
                assert(all[i] is Failed);
            } else {
                assert(more[0] is Failed);
                assert(all[events.len() as int] is Failed);
            }
        }
        if reports_failure(all) {
            let i = choose|i: int| 0 <= i < all.len() && #[trigger] all[i] is Failed;
            if i < events.len() {
                assert(events[i] is Failed);
            } else {
                assert(more[i - events.len()] is Failed);
            }
        }
    }
}

/// Once the sender has reported that it gives up, it is done, and whatever
/// happens later it sends nothing and reports no second failure.
pub proof fn lemma_nothing_is_sent_after_failure(
    cfg: SenderConfig,
    inputs: Seq<SendInput>,
    later: Seq<SendInput>,
)
    requires
        reports_failure(Sending::fresh(cfg).run(inputs).1),
    ensures
        ({
            let s = Sending::fresh(cfg).run(inputs).0;
            let (t, events) = s.run(later);
            &&& t.state is Done
            &&& forall|i: int|
                0 <= i < events.len() ==> !transmits(#[trigger] events[i]) && !(events[i] is Failed)
        }),
{
    lemma_failure_is_remembered(cfg, inputs);
    lemma_failed_is_silent(Sending::fresh(cfg).run(inputs).0, later);
}

proof fn lemma_failed_is_silent(s: Sending, later: Seq<SendInput>)
    requires
        s.failure is Some,
        s.state is Done,
    ensures
        s.run(later).0.failure is Some,
        s.run(later).0.state is Done,
        forall|i: int|
            0 <= i < s.run(later).1.len() ==> !transmits(#[trigger] s.run(later).1[i]) && !(s.run(
                later,
            ).1[i] is Failed),
    decreases later.len(),
{
    if later.len() > 0 {
        lemma_failed_is_silent(s, later.drop_last());
    }
}

/// Whether one of the calls hands in the receiver's confirmation of the tail.
pub open spec fn confirmed(inputs: Seq<SendInput>) -> bool {
    exists|i: int| 0 <= i < inputs.len() && confirms(#[trigger] inputs[i])
}

pub open spec fn confirms(input: SendInput) -> bool {
    input matches SendInput::Handle { body } && body is EndAck
}

/// A transfer counts as done only after the receiver has confirmed the tail, or
/// else as failed for the reason that was reported.
pub proof fn lemma_success_means_confirmed(cfg: SenderConfig, inputs: Seq<SendInput>)
    ensures
        ({
            let (s, events) = Sending::fresh(cfg).run(inputs);
            &&& s.outcome() == Some(Ok::<(), SendFailure>(())) ==> confirmed(inputs)
                && !reports_failure(events)
            &&& s.outcome() matches Some(Err(f)) ==> events.contains(SendEventView::Failed(f))
            &&& s.outcome() is None <==> !(s.state is Done)
        }),
    decreases inputs.len(),
{
    lemma_failure_is_remembered(cfg, inputs);
    if inputs.len() > 0 {
        let before = inputs.drop_last();
        lemma_success_means_confirmed(cfg, before);
        lemma_failure_is_remembered(cfg, before);
        let (s, events) = Sending::fresh(cfg).run(before);
        let (t, more) = s.step(inputs.last());
        let all = events + more;
        assert(inputs[inputs.len() - 1] == inputs.last());
        if confirmed(before) {
            let i = choose|i: int| 0 <= i < before.len() && confirms(#[trigger] before[i]);
            assert(inputs[i] == before[i]);
        }
        if let Some(f) = t.failure {
            let e = SendEventView::Failed(f);
            if s.failure == t.failure {
                let i = choose|i: int| 0 <= i < events.len() && events[i] == e;
                assert(all[i] == e);
            } else {
                assert(more[0] == e);
                assert(all[events.len() as int] == e);
            }
        }
    }
}

/// Done is final: no later call takes a payload frame or leaves that state.
pub proof fn lemma_done_is_final(s: Sending, inputs: Seq<SendInput>)
    requires
        s.state is Done,
    ensures
        s.run(inputs).0.state is Done,
        !s.run(inputs).0.may_send(),
        data_seqs(s.run(inputs).1).len() == 0,
    decreases inputs.len(),
{
    if inputs.len() > 0 {
        lemma_done_is_final(s, inputs.drop_last());
        let (t, events) = s.run(inputs.drop_last());
        lemma_step_is_small(t, inputs.last());
        lemma_append(events, t.step(inputs.last()).1);
        reveal_with_fuel(data_seqs, 2);
    }
}

/// The brake has hysteresis: a report between the two marks leaves it as it was,
/// one at the high-water mark or above sets it, and one at the low-water mark or
/// below, if the marks are in order, releases it.
pub proof fn lemma_the_brake_has_hysteresis(s: Sending, contiguous: XferSeq, highest: XferSeq, ms: u16)
    ensures
        ({
            let t = s.handled(BodyView::Ack { contiguous, highest, buffered_ms: ms }).0;
            &&& s.cfg.buffer_low_water_ms < ms < s.cfg.buffer_high_water_ms ==> t.paused == s.paused
            &&& ms >= s.cfg.buffer_high_water_ms ==> t.paused && !t.may_send()
            &&& ms <= s.cfg.buffer_low_water_ms && s.cfg.buffer_low_water_ms
                < s.cfg.buffer_high_water_ms ==> !t.paused
        }),
{
}

/// Loss does not stall the window: what an acknowledgement says of the prefix has
/// no influence on whether the next frame may be sent, only the highest number
/// seen has.
pub proof fn lemma_loss_does_not_stall_the_window(
    s: Sending,
    a: XferSeq,
    b: XferSeq,
    highest: XferSeq,
    ms: u16,
)
    ensures
        s.handled(BodyView::Ack { contiguous: a, highest, buffered_ms: ms }).0.may_send()
            == s.handled(BodyView::Ack { contiguous: b, highest, buffered_ms: ms }).0.may_send(),
{
}

proof fn lemma_a_pause_was_acknowledged(cfg: SenderConfig, inputs: Seq<SendInput>)
    ensures
        Sending::fresh(cfg).run(inputs).0.paused ==> Sending::fresh(cfg).run(inputs).0.got_ack,
    decreases inputs.len(),
{
    if inputs.len() > 0 {
        lemma_a_pause_was_acknowledged(cfg, inputs.drop_last());
    }
}

/// A sender that is held back by the receiver's buffer report still speaks: it
/// sends a keepalive at once, and again whenever the interval has passed.
pub proof fn lemma_a_pause_is_spoken_for(cfg: SenderConfig, inputs: Seq<SendInput>, now: Instant)
    requires
        ({
            let s = Sending::fresh(cfg).run(inputs).0;
            &&& s.state is Streaming
            &&& s.paused
            &&& s.last_keepalive_at is None || due(
                now,
                s.last_keepalive_at,
                cfg.tail_keepalive_interval@,
            )
        }),
    ensures
        ({
            let s = Sending::fresh(cfg).run(inputs).0;
            let (t, events) = s.ticked(now);
            &&& t.last_keepalive_at == Some(now)
            &&& events == seq![
                SendEventView::Emit {
                    seq: XferSeq(s.next_control()),
                    body: BodyView::Keepalive { lost_below: XferSeq(s.ring.lost_below) },
                },
            ]
        }),
{
    lemma_a_pause_was_acknowledged(cfg, inputs);
    lemma_the_window_holds(cfg, inputs);
}

} // verus!
