//! What a sender does, told from the calls that were made of it.
//!
//! Every quantity that a law here speaks of is read off the series of calls, or
//! off the events that they caused, and never off the sender's state.

use vstd::prelude::*;

use super::retrans::{find, Ring};
use super::ring_laws::{
    first_pushed, lemma_the_ring_has_what_it_has_not_lost,
    lemma_the_ring_keeps_what_it_has_not_lost, orderly, pushed_as, RingInput,
};
use super::send_laws::{
    brake_of, confirmed, confirms, control_seqs, data_seqs, highest_acked, lemma_append,
    lemma_failure_is_remembered, lemma_step_is_small, lemma_the_brakes_follow_the_acknowledgements,
    lemma_the_window_holds, reports_failure, SendInput,
};
use super::sender::{resends, SendEventView, SendFailure, Sending};
use crate::config::SenderConfig;
use crate::frame::BodyView;
use crate::time::Instant;
use crate::types::{TimestampMs, XferSeq};

verus! {

/// The events that the last of the calls caused.
pub open spec fn last_sent(cfg: SenderConfig, inputs: Seq<SendInput>) -> Seq<SendEventView> {
    Sending::fresh(cfg).run(inputs.drop_last()).0.step(inputs.last()).1
}

/// Whether a call hands in an acknowledgement or a request.
pub open spec fn answers(input: SendInput) -> bool {
    input matches SendInput::Handle { body } && (body is Ack || body is Nack)
}

/// Whether the receiver has ever answered, with an acknowledgement or a request.
pub open spec fn answered(inputs: Seq<SendInput>) -> bool {
    exists|i: int| 0 <= i < inputs.len() && answers(#[trigger] inputs[i])
}

/// When the first payload frame went out, if one has.
pub open spec fn first_frame_at(cfg: SenderConfig, inputs: Seq<SendInput>) -> Option<Instant>
    decreases inputs.len(),
{
    if inputs.len() == 0 {
        None
    } else {
        match first_frame_at(cfg, inputs.drop_last()) {
            Some(t) => Some(t),
            None => match inputs.last() {
                SendInput::Push { now, .. } if last_sent(cfg, inputs).len() > 0 => Some(now),
                _ => None,
            },
        }
    }
}

/// When the end of the payload was announced, if it has been.
pub open spec fn end_sent_at(cfg: SenderConfig, inputs: Seq<SendInput>) -> Option<Instant>
    decreases inputs.len(),
{
    if inputs.len() == 0 {
        None
    } else {
        match inputs.last() {
            SendInput::Finish { now } if last_sent(cfg, inputs).len() > 0 => Some(now),
            _ => end_sent_at(cfg, inputs.drop_last()),
        }
    }
}

/// When the last control packet went out, if one has.
pub open spec fn spoke_at(cfg: SenderConfig, inputs: Seq<SendInput>) -> Option<Instant>
    decreases inputs.len(),
{
    if inputs.len() == 0 {
        None
    } else {
        match inputs.last() {
            SendInput::Finish { now } if control_seqs(last_sent(cfg, inputs)).len() > 0 => Some(
                now,
            ),
            SendInput::Tick { now } if control_seqs(last_sent(cfg, inputs)).len() > 0 => Some(now),
            _ => spoke_at(cfg, inputs.drop_last()),
        }
    }
}

/// Whether the transfer is over: the receiver has confirmed the tail, or a failure
/// was reported.
pub open spec fn is_over(cfg: SenderConfig, inputs: Seq<SendInput>) -> bool {
    confirmed(inputs) || reports_failure(Sending::fresh(cfg).run(inputs).1)
}

/// How many payload frames went out.
pub open spec fn frames_sent(cfg: SenderConfig, inputs: Seq<SendInput>) -> nat {
    data_seqs(Sending::fresh(cfg).run(inputs).1).len()
}

/// The number that the last payload frame counts as: how many went out, but never
/// more than one short of the largest number.
pub open spec fn last_number(cfg: SenderConfig, inputs: Seq<SendInput>) -> u32 {
    if frames_sent(cfg, inputs) < u32::MAX {
        frames_sent(cfg, inputs) as u32
    } else {
        (u32::MAX - 1) as u32
    }
}

/// What a call does to the retransmission ring: a sealed frame is stored, an
/// acknowledgement drops what it confirms, and nothing else touches it.
pub open spec fn ring_input(input: SendInput) -> Option<RingInput> {
    match input {
        SendInput::Record { seq, datagram } => Some(RingInput::Push { seq, datagram }),
        SendInput::Handle { body: BodyView::Ack { contiguous, .. } } => Some(
            RingInput::Ack { contiguous: contiguous.0 },
        ),
        _ => None,
    }
}

/// What the calls do to the retransmission ring.
pub open spec fn ring_inputs(inputs: Seq<SendInput>) -> Seq<RingInput>
    decreases inputs.len(),
{
    if inputs.len() == 0 {
        Seq::empty()
    } else {
        let before = ring_inputs(inputs.drop_last());
        match ring_input(inputs.last()) {
            Some(r) => before.push(r),
            None => before,
        }
    }
}

/// The retransmission ring as the calls have it.
pub open spec fn ring_after(cfg: SenderConfig, inputs: Seq<SendInput>) -> Ring {
    Ring::empty(cfg.retrans_ring_frames, cfg.retrans_ring_bytes).run(ring_inputs(inputs))
}

/// What the state is after any series of calls, in terms of the calls.
spec fn mirrors(cfg: SenderConfig, inputs: Seq<SendInput>, s: Sending) -> bool {
    &&& s.cfg == cfg
    &&& s.state is Done <==> is_over(cfg, inputs)
    &&& !(s.state is Done) ==> (s.state is Finalizing <==> end_sent_at(cfg, inputs) is Some)
    &&& s.state is Finalizing ==> s.finalize_at == end_sent_at(cfg, inputs)
    &&& s.first_data_at == first_frame_at(cfg, inputs)
    &&& s.got_ack <==> answered(inputs)
    &&& s.last_keepalive_at == spoke_at(cfg, inputs)
    &&& s.acked_highest == highest_acked(inputs)
    &&& s.paused == brake_of(cfg, inputs)
    &&& s.ring == ring_after(cfg, inputs)
    &&& s.failure is Some <==> reports_failure(Sending::fresh(cfg).run(inputs).1)
    &&& s.control_counter == control_seqs(Sending::fresh(cfg).run(inputs).1).len()
        % 0x1_0000_0000
    &&& s.next_seq == last_number(cfg, inputs) + 1
}

proof fn lemma_answered_later(inputs: Seq<SendInput>)
    requires
        inputs.len() > 0,
    ensures
        answered(inputs) <==> answered(inputs.drop_last()) || answers(inputs.last()),
        confirmed(inputs) <==> confirmed(inputs.drop_last()) || confirms(inputs.last()),
{
    let before = inputs.drop_last();
    let last = inputs.len() - 1;
    assert(inputs[last] == inputs.last());
    if answered(before) {
        let i = choose|i: int| 0 <= i < before.len() && answers(#[trigger] before[i]);
        assert(inputs[i] == before[i]);
    }
    if answered(inputs) {
        let i = choose|i: int| 0 <= i < inputs.len() && answers(#[trigger] inputs[i]);
        if i < last {
            assert(before[i] == inputs[i]);
        }
    }
    if confirmed(before) {
        let i = choose|i: int| 0 <= i < before.len() && confirms(#[trigger] before[i]);
        assert(inputs[i] == before[i]);
    }
    if confirmed(inputs) {
        let i = choose|i: int| 0 <= i < inputs.len() && confirms(#[trigger] inputs[i]);
        if i < last {
            assert(before[i] == inputs[i]);
        }
    }
}

proof fn lemma_mirrors(cfg: SenderConfig, inputs: Seq<SendInput>)
    ensures
        mirrors(cfg, inputs, Sending::fresh(cfg).run(inputs).0),
    decreases inputs.len(),
{
    lemma_failure_is_remembered(cfg, inputs);
    lemma_the_brakes_follow_the_acknowledgements(cfg, inputs);
    lemma_the_window_holds(cfg, inputs);
    if inputs.len() > 0 {
        let before = inputs.drop_last();
        lemma_mirrors(cfg, before);
        lemma_failure_is_remembered(cfg, before);
        lemma_answered_later(inputs);
        let (s, events) = Sending::fresh(cfg).run(before);
        let (t, more) = s.step(inputs.last());
        assert(more == last_sent(cfg, inputs));
        lemma_step_is_small(s, inputs.last());
        lemma_append(events, more);
        reveal_with_fuel(control_seqs, 2);
        reveal_with_fuel(data_seqs, 2);
        match ring_input(inputs.last()) {
            Some(r) => {
                assert(ring_inputs(inputs).drop_last() =~= ring_inputs(before));
                assert(ring_inputs(inputs).last() == r);
            },
            None => {},
        }
        assert(t.ring == ring_after(cfg, inputs));
    }
}

/// The counter of the next control packet: the control packets are counted from 1
/// on, and after the largest number from 0 on again.
pub open spec fn next_counter(cfg: SenderConfig, inputs: Seq<SendInput>) -> u32 {
    ((control_seqs(Sending::fresh(cfg).run(inputs).1).len() + 1) % 0x1_0000_0000) as u32
}

/// A payload frame goes out exactly if the transfer is not over, its end has not
/// been announced, the brake is off, and fewer than `max_outstanding` frames have
/// gone out beyond the greatest number that any acknowledgement reported. It goes
/// out unchanged, under the number after the last.
pub proof fn lemma_when_a_frame_goes_out(
    cfg: SenderConfig,
    inputs: Seq<SendInput>,
    ts: TimestampMs,
    payload: Seq<u8>,
    now: Instant,
)
    ensures
        ({
            let s = Sending::fresh(cfg).run(inputs).0;
            let (t, out) = s.step(SendInput::Push { ts, payload, now });
            let n = last_number(cfg, inputs);
            let may = {
                &&& !is_over(cfg, inputs)
                &&& end_sent_at(cfg, inputs) is None
                &&& !brake_of(cfg, inputs)
                &&& n - highest_acked(inputs) < cfg.max_outstanding && cfg.max_outstanding > 0
            };
            &&& out == if may {
                seq![
                    SendEventView::Emit {
                        seq: XferSeq((n + 1) as u32),
                        body: BodyView::Data { ts, payload },
                    },
                ]
            } else {
                Seq::empty()
            }
            &&& s.may_send() <==> may
            &&& !may ==> t == s
        }),
{
    lemma_mirrors(cfg, inputs);
}

/// The end is announced exactly by the first call that asks for it while the
/// transfer is not over, and it declares how many frames went out.
pub proof fn lemma_when_the_end_is_announced(
    cfg: SenderConfig,
    inputs: Seq<SendInput>,
    now: Instant,
)
    ensures
        ({
            let s = Sending::fresh(cfg).run(inputs).0;
            let (t, out) = s.step(SendInput::Finish { now });
            let first = !is_over(cfg, inputs) && end_sent_at(cfg, inputs) is None;
            &&& out == if first {
                seq![
                    SendEventView::Emit {
                        seq: XferSeq(next_counter(cfg, inputs)),
                        body: BodyView::End { final_seq: XferSeq(last_number(cfg, inputs)) },
                    },
                ]
            } else {
                Seq::empty()
            }
            &&& !first ==> t == s
        }),
{
    lemma_mirrors(cfg, inputs);
}

/// Time makes the sender give up in two ways only. It gives up for want of any
/// answer exactly if a frame went out more than `first_ack_timeout` ago and
/// neither an acknowledgement nor a request has ever come in. It gives up waiting
/// for the confirmation exactly if more than `finalize_timeout` has passed since
/// the call that announced the end, however long ago the first frame went out,
/// and it does not give up for want of any answer. A transfer that is over does
/// neither.
pub proof fn lemma_when_a_sender_gives_up(cfg: SenderConfig, inputs: Seq<SendInput>, now: Instant)
    ensures
        ({
            let s = Sending::fresh(cfg).run(inputs).0;
            let (t, out) = s.step(SendInput::Tick { now });
            let unheard = !answered(inputs) && match first_frame_at(cfg, inputs) {
                Some(first) => now@ - first@ > cfg.first_ack_timeout@,
                None => false,
            };
            let unconfirmed = match end_sent_at(cfg, inputs) {
                Some(end) => now@ - end@ > cfg.finalize_timeout@,
                None => false,
            };
            &&& out.contains(SendEventView::Failed(SendFailure::NoAck)) <==> !is_over(cfg, inputs)
                && unheard
            &&& out.contains(SendEventView::Failed(SendFailure::FinalizeTimeout)) <==> !is_over(
                cfg,
                inputs,
            ) && !unheard && unconfirmed
            &&& is_over(cfg, inputs) ==> out.len() == 0 && t == s
            &&& out.len() <= 1
        }),
{
    lemma_mirrors(cfg, inputs);
    let s = Sending::fresh(cfg).run(inputs).0;
    let out = s.ticked(now).1;
    lemma_step_is_small(s, SendInput::Tick { now });
    if out.len() > 0 {
        assert(out.contains(out[0]));
    }
}

/// The sender speaks for its silence: a tick on which it does not give up sends a
/// keepalive exactly if it waits for the confirmation of the tail, or is held
/// back by the receiver's occupancy report, and at least the keepalive interval
/// has passed since its last control packet, or it has sent none at all. The
/// keepalive tells up to which number frames can no longer be resent.
pub proof fn lemma_when_a_keepalive_goes_out(
    cfg: SenderConfig,
    inputs: Seq<SendInput>,
    now: Instant,
)
    ensures
        ({
            let out = Sending::fresh(cfg).run(inputs).0.step(SendInput::Tick { now }).1;
            let unheard = !answered(inputs) && match first_frame_at(cfg, inputs) {
                Some(first) => now@ - first@ > cfg.first_ack_timeout@,
                None => false,
            };
            let unconfirmed = match end_sent_at(cfg, inputs) {
                Some(end) => now@ - end@ > cfg.finalize_timeout@,
                None => false,
            };
            let waits = end_sent_at(cfg, inputs) is Some || brake_of(cfg, inputs);
            let interval = cfg.tail_keepalive_interval@;
            let due = match spoke_at(cfg, inputs) {
                Some(last) => now@ - last@ >= interval || interval == 0,
                None => true,
            };
            if !is_over(cfg, inputs) && !unheard && !unconfirmed {
                out == if waits && due {
                    seq![
                        SendEventView::Emit {
                            seq: XferSeq(next_counter(cfg, inputs)),
                            body: BodyView::Keepalive {
                                lost_below: XferSeq(ring_after(cfg, inputs).lost_below),
                            },
                        },
                    ]
                } else {
                    Seq::empty()
                }
            } else {
                forall|i: int| 0 <= i < out.len() ==> !(#[trigger] out[i] is Emit)
            }
        }),
{
    lemma_mirrors(cfg, inputs);
    lemma_an_announced_end_was_spoken(cfg, inputs);
}

proof fn lemma_an_announced_end_was_spoken(cfg: SenderConfig, inputs: Seq<SendInput>)
    ensures
        end_sent_at(cfg, inputs) is Some ==> spoke_at(cfg, inputs) is Some,
    decreases inputs.len(),
{
    if inputs.len() > 0 {
        lemma_an_announced_end_was_spoken(cfg, inputs.drop_last());
        reveal_with_fuel(control_seqs, 2);
    }
}

/// What the sender says to each packet besides a request: nothing to an
/// acknowledgement, `Completed` to the confirmation of the tail, and nothing to a
/// packet that no receiver sends.
pub proof fn lemma_what_a_packet_is_answered(
    cfg: SenderConfig,
    inputs: Seq<SendInput>,
    body: BodyView,
)
    requires
        !(body is Nack),
    ensures
        ({
            let s = Sending::fresh(cfg).run(inputs).0;
            let (t, out) = s.step(SendInput::Handle { body });
            &&& out == if body is EndAck {
                seq![SendEventView::Completed]
            } else {
                Seq::empty()
            }
            &&& !(body is EndAck) && !(body is Ack) ==> t == s
        }),
{
}

/// What `g` gives for the members of `missing`, in order, where it gives anything.
pub open spec fn given(missing: Seq<XferSeq>, g: spec_fn(XferSeq) -> Option<Seq<u8>>) -> Seq<
    Seq<u8>,
>
    decreases missing.len(),
{
    if missing.len() == 0 {
        Seq::empty()
    } else {
        let rest = given(missing.drop_last(), g);
        match g(missing.last()) {
            Some(d) => rest.push(d),
            None => rest,
        }
    }
}

proof fn lemma_resends_are_given(
    ring: Ring,
    missing: Seq<XferSeq>,
    g: spec_fn(XferSeq) -> Option<Seq<u8>>,
)
    requires
        forall|i: int|
            0 <= i < missing.len() ==> find(ring.entries, #[trigger] missing[i]) == g(missing[i]),
    ensures
        resends(ring, missing) == given(missing, g),
    decreases missing.len(),
{
    if missing.len() > 0 {
        let rest = missing.drop_last();
        assert forall|i: int| 0 <= i < rest.len() implies find(ring.entries, #[trigger] rest[i])
            == g(rest[i]) by {
            assert(rest[i] == missing[i]);
        }
        lemma_resends_are_given(ring, rest, g);
        assert(missing.last() == missing[missing.len() - 1]);
    }
}

/// A request is always answered: as long as no failure was reported, and whatever
/// the brake, the window and the state of the transfer, it is answered with one
/// resend that holds, in the order asked for, the bytes recorded for each number
/// that was recorded and lies above what the ring has given up; or with nothing
/// if there is no such number. After a failure there is no answer. This takes
/// frames to be recorded in ascending order and only recorded ones to be
/// acknowledged.
pub proof fn lemma_a_request_is_answered(
    cfg: SenderConfig,
    inputs: Seq<SendInput>,
    missing: Seq<XferSeq>,
)
    requires
        orderly(ring_inputs(inputs)),
    ensures
        ({
            let (s, events) = Sending::fresh(cfg).run(inputs);
            let out = s.step(SendInput::Handle { body: BodyView::Nack { missing } }).1;
            let lost = ring_after(cfg, inputs).lost_below;
            let datagrams = given(
                missing,
                |m: XferSeq|
                    if m.0 > lost {
                        pushed_as(ring_inputs(inputs), m)
                    } else {
                        None
                    },
            );
            out == if !reports_failure(events) && datagrams.len() > 0 {
                seq![SendEventView::Resend { datagrams }]
            } else {
                Seq::empty()
            }
        }),
{
    lemma_mirrors(cfg, inputs);
    let ring = ring_after(cfg, inputs);
    let lost = ring.lost_below;
    let g = |m: XferSeq|
        if m.0 > lost {
            pushed_as(ring_inputs(inputs), m)
        } else {
            None
        };
    assert forall|i: int| 0 <= i < missing.len() implies find(ring.entries, #[trigger] missing[i])
        == g(missing[i]) by {
        lemma_the_ring_has_what_it_has_not_lost(
            cfg.retrans_ring_frames,
            cfg.retrans_ring_bytes,
            ring_inputs(inputs),
            missing[i],
        );
    }
    lemma_resends_are_given(ring, missing, g);
}

/// The sender is done exactly when the tail was confirmed or a failure reported;
/// its outcome is that failure if there was one, whatever came after, and success
/// otherwise.
pub proof fn lemma_when_a_sender_is_done(cfg: SenderConfig, inputs: Seq<SendInput>)
    ensures
        ({
            let (s, events) = Sending::fresh(cfg).run(inputs);
            &&& s.state is Done <==> confirmed(inputs) || reports_failure(events)
            &&& s.outcome() is None <==> !is_over(cfg, inputs)
            &&& s.outcome() == Some(Ok::<(), SendFailure>(())) <==> confirmed(inputs)
                && !reports_failure(events)
            &&& forall|f: SendFailure|
                s.outcome() == Some(Err::<(), SendFailure>(f)) <==> #[trigger] events.contains(
                    SendEventView::Failed(f),
                )
        }),
{
    lemma_mirrors(cfg, inputs);
    lemma_the_failure_is_the_one_reported(cfg, inputs);
}

proof fn lemma_the_failure_is_the_one_reported(cfg: SenderConfig, inputs: Seq<SendInput>)
    ensures
        ({
            let (s, events) = Sending::fresh(cfg).run(inputs);
            forall|f: SendFailure|
                s.failure == Some(f) <==> #[trigger] events.contains(SendEventView::Failed(f))
        }),
    decreases inputs.len(),
{
    if inputs.len() > 0 {
        let before = inputs.drop_last();
        lemma_the_failure_is_the_one_reported(cfg, before);
        lemma_failure_is_remembered(cfg, before);
        lemma_failure_is_remembered(cfg, inputs);
        let (s, events) = Sending::fresh(cfg).run(before);
        let (t, more) = s.step(inputs.last());
        let all = events + more;
        assert forall|f: SendFailure|
            t.failure == Some(f) <==> #[trigger] all.contains(SendEventView::Failed(f)) by {
            let e = SendEventView::Failed(f);
            if events.contains(e) {
                let i = choose|i: int| 0 <= i < events.len() && events[i] == e;
                assert(all[i] == e);
            }
            if more.contains(e) {
                let i = choose|i: int| 0 <= i < more.len() && more[i] == e;
                assert(all[events.len() + i] == e);
            }
            if all.contains(e) {
                let i = choose|i: int| 0 <= i < all.len() && all[i] == e;
                if i < events.len() {
                    assert(events[i] == e);
                    assert(events.contains(e));
                } else {
                    assert(more[i - events.len()] == e);
                    assert(more.contains(e));
                }
            }
            if t.failure == Some(f) && s.failure != Some(f) {
                assert(more[0] == e);
            }
        }
    }
}

/// However frames are recorded and acknowledged, a request for numbers above what
/// the ring has given up is answered with the bytes first recorded for each of
/// them that was recorded, in the order asked for.
pub proof fn lemma_a_request_above_the_lost_is_answered(
    cfg: SenderConfig,
    inputs: Seq<SendInput>,
    missing: Seq<XferSeq>,
)
    requires
        forall|i: int|
            0 <= i < missing.len() ==> (#[trigger] missing[i]).0 > ring_after(
                cfg,
                inputs,
            ).lost_below,
    ensures
        ({
            let (s, events) = Sending::fresh(cfg).run(inputs);
            let out = s.step(SendInput::Handle { body: BodyView::Nack { missing } }).1;
            let datagrams = given(missing, |m: XferSeq| first_pushed(ring_inputs(inputs), m));
            out == if !reports_failure(events) && datagrams.len() > 0 {
                seq![SendEventView::Resend { datagrams }]
            } else {
                Seq::empty()
            }
        }),
{
    lemma_mirrors(cfg, inputs);
    let ring = ring_after(cfg, inputs);
    let g = |m: XferSeq| first_pushed(ring_inputs(inputs), m);
    assert forall|i: int| 0 <= i < missing.len() implies find(ring.entries, #[trigger] missing[i])
        == g(missing[i]) by {
        lemma_the_ring_keeps_what_it_has_not_lost(
            cfg.retrans_ring_frames,
            cfg.retrans_ring_bytes,
            ring_inputs(inputs),
            missing[i],
        );
    }
    lemma_resends_are_given(ring, missing, g);
}

/// However frames are recorded and acknowledged, a request is answered from the
/// ring as the records and the acknowledgements have it: with what is stored
/// there for each number asked for, in the order asked for, in one resend, unless
/// nothing is or a failure was reported.
pub proof fn lemma_a_request_is_answered_from_the_ring(
    cfg: SenderConfig,
    inputs: Seq<SendInput>,
    missing: Seq<XferSeq>,
)
    ensures
        ({
            let (s, events) = Sending::fresh(cfg).run(inputs);
            let out = s.step(SendInput::Handle { body: BodyView::Nack { missing } }).1;
            let ring = ring_after(cfg, inputs);
            let datagrams = given(missing, |m: XferSeq| find(ring.entries, m));
            out == if !reports_failure(events) && datagrams.len() > 0 {
                seq![SendEventView::Resend { datagrams }]
            } else {
                Seq::empty()
            }
        }),
{
    lemma_mirrors(cfg, inputs);
    let ring = ring_after(cfg, inputs);
    lemma_resends_are_given(ring, missing, |m: XferSeq| find(ring.entries, m));
}

/// The time of a call that has one.
pub open spec fn time_of(input: SendInput) -> Instant {
    match input {
        SendInput::Push { now, .. } => now,
        SendInput::Finish { now } => now,
        SendInput::Tick { now } => now,
        _ => arbitrary(),
    }
}

/// Whether the last of the calls sends a payload frame.
pub open spec fn ends_with_frame(cfg: SenderConfig) -> spec_fn(Seq<SendInput>) -> bool {
    |calls: Seq<SendInput>| data_seqs(last_sent(cfg, calls)).len() > 0
}

/// Whether the last of the calls announces the end.
pub open spec fn ends_with_end(cfg: SenderConfig) -> spec_fn(Seq<SendInput>) -> bool {
    |calls: Seq<SendInput>| announces_end(last_sent(cfg, calls))
}

/// Whether the last of the calls sends a control packet.
pub open spec fn ends_with_control(cfg: SenderConfig) -> spec_fn(Seq<SendInput>) -> bool {
    |calls: Seq<SendInput>| control_seqs(last_sent(cfg, calls)).len() > 0
}

/// Whether one of `events` is the announcement of the end.
pub open spec fn announces_end(events: Seq<SendEventView>) -> bool {
    exists|i: int| 0 <= i < events.len() && is_end(#[trigger] events[i])
}

pub open spec fn is_end(e: SendEventView) -> bool {
    e matches SendEventView::Emit { body, .. } && body is End
}

/// Whether `marks` holds of the calls up to the `i`-th.
pub open spec fn marked(
    inputs: Seq<SendInput>,
    i: int,
    marks: spec_fn(Seq<SendInput>) -> bool,
) -> bool {
    0 <= i < inputs.len() && marks(inputs.take(i + 1))
}

/// Whether the `i`-th call is the last that makes `marks` hold.
pub open spec fn last_marked(
    inputs: Seq<SendInput>,
    i: int,
    marks: spec_fn(Seq<SendInput>) -> bool,
) -> bool {
    marked(inputs, i, marks) && forall|j: int| i < j ==> !(#[trigger] marked(inputs, j, marks))
}

/// Whether the `i`-th call is the first that makes `marks` hold.
pub open spec fn first_marked(
    inputs: Seq<SendInput>,
    i: int,
    marks: spec_fn(Seq<SendInput>) -> bool,
) -> bool {
    marked(inputs, i, marks) && forall|j: int| j < i ==> !(#[trigger] marked(inputs, j, marks))
}

/// Whether no call makes `marks` hold.
pub open spec fn never_marked(
    inputs: Seq<SendInput>,
    marks: spec_fn(Seq<SendInput>) -> bool,
) -> bool {
    forall|j: int| !(#[trigger] marked(inputs, j, marks))
}

proof fn lemma_marked_later(inputs: Seq<SendInput>, marks: spec_fn(Seq<SendInput>) -> bool)
    requires
        inputs.len() > 0,
    ensures
        forall|j: int| #[trigger]
            marked(inputs, j, marks) <==> marked(inputs.drop_last(), j, marks) || (j == inputs.len()
                - 1 && marks(inputs)),
        marks(inputs) ==> last_marked(inputs, inputs.len() - 1, marks),
        !marks(inputs) ==> forall|i: int| #[trigger]
            last_marked(inputs.drop_last(), i, marks) ==> last_marked(inputs, i, marks),
        forall|i: int| #[trigger]
            first_marked(inputs.drop_last(), i, marks) ==> first_marked(inputs, i, marks),
        never_marked(inputs.drop_last(), marks) && marks(inputs) ==> first_marked(
            inputs,
            inputs.len() - 1,
            marks,
        ),
{
    let before = inputs.drop_last();
    let n = inputs.len() as int;
    assert(inputs.take(n) =~= inputs);
    assert forall|j: int| #[trigger]
        marked(inputs, j, marks) <==> marked(before, j, marks) || (j == n - 1 && marks(inputs)) by {
        if 0 <= j < before.len() {
            assert(inputs.take(j + 1) =~= before.take(j + 1));
        }
    }
}

proof fn lemma_what_sends(cfg: SenderConfig, inputs: Seq<SendInput>)
    requires
        inputs.len() > 0,
    ensures
        ends_with_frame(cfg)(inputs) <==> inputs.last() is Push && last_sent(cfg, inputs).len() > 0,
        ends_with_end(cfg)(inputs) <==> inputs.last() is Finish && last_sent(cfg, inputs).len() > 0,
        ends_with_control(cfg)(inputs) ==> inputs.last() is Finish || inputs.last() is Tick,
{
    reveal_with_fuel(data_seqs, 2);
    reveal_with_fuel(control_seqs, 2);
    let out = last_sent(cfg, inputs);
    lemma_step_is_small(Sending::fresh(cfg).run(inputs.drop_last()).0, inputs.last());
    if out.len() > 0 {
        assert(out[0] == out.last());
        assert(out.drop_last() =~= Seq::<SendEventView>::empty());
    }
    if inputs.last() is Finish && out.len() > 0 {
        assert(is_end(out[0]));
    }
}

/// The first frame went out in the first call that sent one, if there is one.
pub proof fn lemma_first_frame_at(cfg: SenderConfig, inputs: Seq<SendInput>)
    ensures
        match first_frame_at(cfg, inputs) {
            Some(t) => exists|i: int| #[trigger]
                first_marked(inputs, i, ends_with_frame(cfg)) && time_of(inputs[i]) == t,
            None => never_marked(inputs, ends_with_frame(cfg)),
        },
    decreases inputs.len(),
{
    if inputs.len() > 0 {
        let before = inputs.drop_last();
        lemma_first_frame_at(cfg, before);
        lemma_marked_later(inputs, ends_with_frame(cfg));
        lemma_what_sends(cfg, inputs);
        assert(forall|i: int| 0 <= i < before.len() ==> before[i] == inputs[i]);
    }
}

/// The end was announced in the last call that announced it, if there is one.
pub proof fn lemma_end_sent_at(cfg: SenderConfig, inputs: Seq<SendInput>)
    ensures
        match end_sent_at(cfg, inputs) {
            Some(t) => exists|i: int| #[trigger]
                last_marked(inputs, i, ends_with_end(cfg)) && time_of(inputs[i]) == t,
            None => never_marked(inputs, ends_with_end(cfg)),
        },
    decreases inputs.len(),
{
    if inputs.len() > 0 {
        let before = inputs.drop_last();
        lemma_end_sent_at(cfg, before);
        lemma_marked_later(inputs, ends_with_end(cfg));
        lemma_what_sends(cfg, inputs);
        assert(forall|i: int| 0 <= i < before.len() ==> before[i] == inputs[i]);
    }
}

/// The last control packet went out in the last call that sent one, if there is
/// one.
pub proof fn lemma_spoke_at(cfg: SenderConfig, inputs: Seq<SendInput>)
    ensures
        match spoke_at(cfg, inputs) {
            Some(t) => exists|i: int| #[trigger]
                last_marked(inputs, i, ends_with_control(cfg)) && time_of(inputs[i]) == t,
            None => never_marked(inputs, ends_with_control(cfg)),
        },
    decreases inputs.len(),
{
    if inputs.len() > 0 {
        let before = inputs.drop_last();
        lemma_spoke_at(cfg, before);
        lemma_marked_later(inputs, ends_with_control(cfg));
        lemma_what_sends(cfg, inputs);
        assert(forall|i: int| 0 <= i < before.len() ==> before[i] == inputs[i]);
    }
}

} // verus!
