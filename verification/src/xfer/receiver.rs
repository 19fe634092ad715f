//! The receiving half of a transfer.

use std::collections::BTreeMap;

use vstd::prelude::*;

use super::gap_tracker::{lemma_run_end, Arrivals, GapTracker};
use crate::codec::MAX_NACK_ENTRIES;
use crate::config::{backoff_after, ReceiverConfig};
use crate::frame::{Body, BodyView};
use crate::time::{elapsed, Duration, Instant};
use crate::types::{RelAbortReason, RelOutcome, TimestampMs, XferSeq};

verus! {

/// A payload frame handed up to the application.
#[derive(Debug, PartialEq, Eq)]
pub struct Frame {
    pub seq: XferSeq,
    pub ts: TimestampMs,
    pub payload: Vec<u8>,
}

/// A [`Frame`] with its payload taken as a sequence.
#[verifier::ext_equal]
pub struct FrameView {
    pub seq: XferSeq,
    pub ts: TimestampMs,
    pub payload: Seq<u8>,
}

impl View for Frame {
    type V = FrameView;

    open spec fn view(&self) -> FrameView {
        FrameView { seq: self.seq, ts: self.ts, payload: self.payload@ }
    }
}

impl Clone for Frame {
    fn clone(&self) -> (f: Self)
        ensures
            f@ == self@,
    {
        let payload = self.payload.clone();
        assert(payload@ =~= self.payload@);
        Frame { seq: self.seq, ts: self.ts, payload }
    }
}

/// What the receiver wants done after a step. The caller owns all I/O and
/// timers; this type never touches either.
#[derive(Debug, Clone, PartialEq, Eq)]
pub enum RecvEvent {
    /// Play this now. Out of order and with gaps; only emitted in
    /// [`RecvMode::Dual`](crate::config::RecvMode::Dual).
    Unreliable(Frame),
    /// In order and gap-free. Safe to write to the cache.
    Reliable(Frame),
    /// Ask the sender for these.
    SendNack { missing: Vec<XferSeq> },
    /// Report progress, drain the sender's ring and drive its send window.
    SendAck { contiguous: XferSeq, highest: XferSeq, buffered_ms: u16 },
    /// Confirm the tail arrived.
    SendEndAck,
    /// The reliable stream is finished, one way or the other. Commit on
    /// `Complete`, abort on `Aborted`.
    RelFinished(RelOutcome),
    /// The transfer is over; the caller may release everything.
    Closed,
}

/// A [`RecvEvent`] with its vectors taken as sequences.
#[verifier::ext_equal]
pub enum RecvEventView {
    Unreliable(FrameView),
    Reliable(FrameView),
    SendNack { missing: Seq<XferSeq> },
    SendAck { contiguous: XferSeq, highest: XferSeq, buffered_ms: u16 },
    SendEndAck,
    RelFinished(RelOutcome),
    Closed,
}

impl View for RecvEvent {
    type V = RecvEventView;

    open spec fn view(&self) -> RecvEventView {
        match *self {
            RecvEvent::Unreliable(f) => RecvEventView::Unreliable(f@),
            RecvEvent::Reliable(f) => RecvEventView::Reliable(f@),
            RecvEvent::SendNack { missing } => RecvEventView::SendNack { missing: missing@ },
            RecvEvent::SendAck { contiguous, highest, buffered_ms } => RecvEventView::SendAck {
                contiguous,
                highest,
                buffered_ms,
            },
            RecvEvent::SendEndAck => RecvEventView::SendEndAck,
            RecvEvent::RelFinished(o) => RecvEventView::RelFinished(o),
            RecvEvent::Closed => RecvEventView::Closed,
        }
    }
}

/// The views of a list of events.
pub open spec fn seen(events: Seq<RecvEvent>) -> Seq<RecvEventView> {
    events.map_values(|e: RecvEvent| e@)
}

#[derive(Debug, Clone, Copy, PartialEq, Eq, Structural)]
enum RelState {
    Streaming,
    /// Released or aborted; keep serving the unreliable side but stop asking for
    /// gaps and stop holding frames.
    Finished,
}

/// How many payload bytes the frames with a number below `end` have together.
pub open spec fn held_below(held: Map<u32, FrameView>, end: nat) -> nat
    decreases end,
{
    if end == 0 {
        0
    } else {
        held_below(held, (end - 1) as nat) + if held.contains_key((end - 1) as u32) {
            held[(end - 1) as u32].payload.len()
        } else {
            0
        }
    }
}

/// How many payload bytes the held frames have together.
pub open spec fn held_bytes(held: Map<u32, FrameView>) -> nat {
    held_below(held, (u32::MAX + 1) as nat)
}

pub proof fn lemma_held_insert(held: Map<u32, FrameView>, k: u32, f: FrameView, end: nat)
    requires
        !held.contains_key(k),
        end <= u32::MAX + 1,
    ensures
        held_below(held.insert(k, f), end) == held_below(held, end) + if k < end {
            f.payload.len()
        } else {
            0
        },
    decreases end,
{
    if end > 0 {
        lemma_held_insert(held, k, f, (end - 1) as nat);
    }
}

proof fn lemma_held_remove(held: Map<u32, FrameView>, k: u32)
    requires
        held.contains_key(k),
    ensures
        held_bytes(held.remove(k)) + held[k].payload.len() == held_bytes(held),
{
    lemma_held_insert(held.remove(k), k, held[k], (u32::MAX + 1) as nat);
    assert(held.remove(k).insert(k, held[k]) =~= held);
}

proof fn lemma_held_filter(held: Map<u32, FrameView>, c: u32, end: nat)
    requires
        end <= u32::MAX + 1,
    ensures
        held_below(held.filter_keys(|k: u32| k > c), end) <= held_below(held, end),
    decreases end,
{
    if end > 0 {
        lemma_held_filter(held, c, (end - 1) as nat);
    }
}

pub proof fn lemma_held_none(end: nat)
    ensures
        held_below(Map::empty(), end) == 0,
    decreases end,
{
    if end > 0 {
        lemma_held_none((end - 1) as nat);
    }
}

/// An hour, in nanoseconds.
pub const HOUR_NANOS: i128 = 3_600_000_000_000;

/// The state of an [`XferReceiver`].
#[verifier::ext_equal]
pub struct Receiving {
    pub cfg: ReceiverConfig,
    pub arrivals: Arrivals,
    /// Frames above the contiguous prefix, by number.
    pub reorder: Map<u32, FrameView>,
    /// Whether the reliable stream is still going.
    pub streaming: bool,
    pub final_seq: Option<XferSeq>,
    pub end_acked: bool,
    pub closed: bool,
    /// Per gap: how many times asked, and when last asked, in nanoseconds.
    pub nacks: Map<u32, (u8, i128)>,
    /// Highest sequence the sender says it can no longer retransmit.
    pub sender_lost_below: u32,
    pub last_packet_at: Instant,
    pub last_ack_at: Instant,
    pub last_rel_progress_at: Instant,
    pub buffered_ms: u64,
}

impl Receiving {
    /// A receiver that has received nothing.
    pub open spec fn fresh(cfg: ReceiverConfig, now: Instant) -> Receiving {
        Receiving {
            cfg,
            arrivals: Arrivals::none(),
            reorder: Map::empty(),
            streaming: true,
            final_seq: None,
            end_acked: false,
            closed: false,
            nacks: Map::empty(),
            sender_lost_below: 0,
            last_packet_at: now,
            last_ack_at: now,
            last_rel_progress_at: now,
            buffered_ms: 0,
        }
    }

    /// What every step keeps. While the reliable stream goes on, exactly the
    /// arrivals above the prefix are held, within both limits, and only frames
    /// above the prefix have been asked for, each within its budget. Afterwards
    /// nothing is held. A closed transfer has no reliable stream.
    pub open spec fn valid(self) -> bool {
        &&& self.arrivals.valid()
        &&& self.streaming ==> {
            &&& self.reorder.dom() == self.arrivals.ahead
            &&& forall|k: u32| #[trigger]
                self.reorder.contains_key(k) ==> self.reorder[k].seq.0 == k
            &&& self.arrivals.span() <= self.cfg.reorder_window
            &&& held_bytes(self.reorder) <= self.cfg.max_reorder_bytes
            &&& forall|k: u32| #[trigger]
                self.nacks.contains_key(k) ==> {
                    &&& self.arrivals.contiguous < k
                    &&& self.nacks[k].0 <= self.cfg.max_nack_attempts
                    &&& self.nacks[k].1 >= -HOUR_NANOS
                }
        }
        &&& !self.streaming ==> self.reorder == Map::<u32, FrameView>::empty() && self.nacks
            == Map::<u32, (u8, i128)>::empty()
        &&& self.end_acked ==> self.closed
        &&& self.closed ==> !self.streaming
    }

    /// The end of the reliable stream, if it has not ended before: everything
    /// that was held for it is let go, and the outcome is reported. Which frames
    /// have arrived is not forgotten: playback goes by that.
    pub open spec fn rel_finished(self, outcome: RelOutcome) -> (Receiving, Seq<RecvEventView>) {
        if self.streaming {
            (
                Receiving {
                    streaming: false,
                    reorder: Map::empty(),
                    nacks: Map::empty(),
                    ..self
                },
                seq![RecvEventView::RelFinished(outcome)],
            )
        } else {
            (self, Seq::empty())
        }
    }

    pub open spec fn aborted(self, why: RelAbortReason) -> (Receiving, Seq<RecvEventView>) {
        self.rel_finished(RelOutcome::Aborted(why))
    }

    /// Whether every frame up to the declared end has arrived.
    pub open spec fn complete(self) -> bool {
        self.final_seq matches Some(f) && f.0 <= self.arrivals.contiguous
    }

    /// The end of the transfer, if everything has arrived: the reliable stream
    /// is complete, the sender is told once, and the transfer closes.
    pub open spec fn wound_up(self) -> (Receiving, Seq<RecvEventView>) {
        if self.complete() {
            let (s, out) = self.rel_finished(
                RelOutcome::Complete { final_seq: self.final_seq->0 },
            );
            let told = if self.end_acked {
                Seq::empty()
            } else {
                seq![RecvEventView::SendEndAck]
            };
            let shut = if self.closed {
                Seq::empty()
            } else {
                seq![RecvEventView::Closed]
            };
            (Receiving { end_acked: true, closed: true, ..s }, out + told + shut)
        } else {
            (self, Seq::empty())
        }
    }

    /// The frames of `held` that the prefix has grown over, in order.
    pub open spec fn grown_over(
        held: Map<u32, FrameView>,
        from: u32,
        to: u32,
    ) -> Seq<RecvEventView> {
        Seq::new(
            (to - from) as nat,
            |i: int| RecvEventView::Reliable(held[(from + 1 + i) as u32]),
        )
    }

    /// Hand up what lies between the place up to which frames have been handed
    /// up and the end of the prefix.
    pub open spec fn released(self, from: u32, now: Instant) -> (Receiving, Seq<RecvEventView>) {
        let c = self.arrivals.contiguous;
        (
            Receiving {
                reorder: self.reorder.filter_keys(|k: u32| k > c),
                nacks: self.nacks.filter_keys(|k: u32| k > c),
                last_rel_progress_at: if from < c {
                    now
                } else {
                    self.last_rel_progress_at
                },
                ..self
            },
            Receiving::grown_over(self.reorder, from, c),
        )
    }

    /// A payload frame has arrived. If it is news, playback gets it at once, and
    /// the reliable stream holds it, hands up what has become contiguous, or
    /// gives up because one of its limits is passed.
    pub open spec fn took(self, f: FrameView, now: Instant) -> (Receiving, Seq<RecvEventView>) {
        let fresh = self.arrivals.fresh(f.seq.0);
        let s = Receiving { arrivals: self.arrivals.recorded(f.seq.0), ..self };
        let played = if fresh && self.cfg.mode is Dual {
            seq![RecvEventView::Unreliable(f)]
        } else {
            Seq::empty()
        };
        if !self.streaming || !fresh {
            (s, played)
        } else {
            let held = self.reorder.insert(f.seq.0, f);
            if s.arrivals.span() > self.cfg.reorder_window || held_bytes(held)
                > self.cfg.max_reorder_bytes {
                let (t, out) = s.aborted(RelAbortReason::BufferExhausted);
                (t, played + out)
            } else {
                let (t, out) = Receiving { reorder: held, ..s }.released(
                    self.arrivals.contiguous,
                    now,
                );
                let (u, end) = t.wound_up();
                (u, played + out + end)
            }
        }
    }

    /// The sender says which frames it no longer has. If one of them is still
    /// missing, the reliable stream is over.
    pub open spec fn warned(self, lost_below: XferSeq) -> (Receiving, Seq<RecvEventView>) {
        if lost_below.0 > self.sender_lost_below {
            let s = Receiving { sender_lost_below: lost_below.0, ..self };
            if s.arrivals.contiguous < lost_below.0 {
                s.aborted(RelAbortReason::SenderDiscarded)
            } else {
                (s, Seq::empty())
            }
        } else {
            (self, Seq::empty())
        }
    }

    /// A report of progress, if one is due and there is anything to report.
    pub open spec fn reported(self, now: Instant) -> (Receiving, Seq<RecvEventView>) {
        if self.closed || elapsed(now@ as int, self.last_ack_at@ as int) < self.cfg.ack_interval@
            || self.arrivals.highest == 0 {
            (self, Seq::empty())
        } else {
            (
                Receiving { last_ack_at: now, ..self },
                seq![
                    RecvEventView::SendAck {
                        contiguous: XferSeq(self.arrivals.contiguous),
                        highest: XferSeq(self.arrivals.highest),
                        buffered_ms: if self.buffered_ms < u16::MAX {
                            self.buffered_ms as u16
                        } else {
                            u16::MAX
                        },
                    },
                ],
            )
        }
    }

    /// The caller reports how much audio is buffered.
    pub open spec fn buffering(self, ms: u64) -> Receiving {
        Receiving { buffered_ms: ms, ..self }
    }

    /// A packet from the sender.
    pub open spec fn handled(self, seq: XferSeq, body: BodyView, now: Instant) -> (
        Receiving,
        Seq<RecvEventView>,
    ) {
        let s = Receiving { last_packet_at: now, ..self };
        let (t, out) = match body {
            BodyView::Data { ts, payload } => s.took(FrameView { seq, ts, payload }, now),
            BodyView::End { final_seq } => Receiving {
                final_seq: Some(final_seq),
                ..s
            }.wound_up(),
            BodyView::Keepalive { lost_below } => {
                let (u, warning) = s.warned(lost_below);
                let (v, end) = u.wound_up();
                (v, warning + end)
            },
            BodyView::Ack { .. } | BodyView::Nack { .. } | BodyView::EndAck => (s, Seq::empty()),
        };
        let (u, ack) = t.reported(now);
        (u, out + ack)
    }

    /// How many times a gap was asked for and when last; one that was never
    /// asked for counts as asked an hour ago.
    pub open spec fn booked(self, k: u32, now: Instant) -> (u8, i128) {
        if self.nacks.contains_key(k) {
            self.nacks[k]
        } else {
            (0u8, (now@ - HOUR_NANOS) as i128)
        }
    }

    /// Whether there is no point in asking for a gap: the sender no longer has
    /// the frame, or it has been asked for as often as allowed.
    pub open spec fn hopeless(self, k: XferSeq, now: Instant) -> bool {
        k.0 <= self.sender_lost_below || self.booked(k.0, now).0 >= self.cfg.max_nack_attempts
    }

    /// Whether it is time to ask for a gap.
    pub open spec fn wanted(self, k: XferSeq, now: Instant) -> bool {
        let (attempts, at) = self.booked(k.0, now);
        elapsed(now@ as int, at as int) >= backoff_after(self.cfg.nack_backoff@, attempts)
    }

    /// The bookkeeping after those of `gaps` that it is time for were asked for.
    pub open spec fn rebooked(self, gaps: Seq<XferSeq>, now: Instant) -> Map<u32, (u8, i128)> {
        Map::new(
            |k: u32| self.nacks.contains_key(k) || gaps.contains(XferSeq(k)),
            |k: u32|
                if gaps.contains(XferSeq(k)) {
                    if self.wanted(XferSeq(k), now) {
                        ((self.booked(k, now).0 + 1) as u8, now@ as i128)
                    } else {
                        self.booked(k, now)
                    }
                } else {
                    self.nacks[k]
                },
        )
    }

    /// The gaps that one round of requests looks at.
    pub open spec fn gaps(self) -> Seq<XferSeq> {
        self.arrivals.first_gaps(MAX_NACK_ENTRIES as nat)
    }

    /// One round of requests: the reliable stream gives up if one of the gaps is
    /// hopeless, else it asks for those that it is time for.
    pub open spec fn requested(self, now: Instant) -> (Receiving, Seq<RecvEventView>) {
        let gaps = self.gaps();
        if exists|i: int| 0 <= i < gaps.len() && self.hopeless(#[trigger] gaps[i], now) {
            self.aborted(RelAbortReason::UnrecoverableGap)
        } else {
            let ask = gaps.filter(|k: XferSeq| self.wanted(k, now));
            (
                Receiving { nacks: self.rebooked(gaps, now), ..self },
                if ask.len() == 0 {
                    Seq::empty()
                } else {
                    seq![RecvEventView::SendNack { missing: ask }]
                },
            )
        }
    }

    /// Whether nothing at all has arrived for too long.
    pub open spec fn idle(self, now: Instant) -> bool {
        elapsed(now@ as int, self.last_packet_at@ as int) > self.cfg.idle_timeout@
    }

    /// Whether packets have been arriving within the stall timeout, and still
    /// the prefix has not advanced in that time.
    pub open spec fn stalled(self, now: Instant) -> bool {
        &&& elapsed(now@ as int, self.last_rel_progress_at@ as int) > self.cfg.rel_stall_timeout@
        &&& elapsed(now@ as int, self.last_packet_at@ as int) <= self.cfg.rel_stall_timeout@
    }

    /// Time passes.
    pub open spec fn ticked(self, now: Instant) -> (Receiving, Seq<RecvEventView>) {
        if self.closed {
            (self, Seq::empty())
        } else if self.idle(now) {
            let (s, out) = self.aborted(RelAbortReason::PeerGone);
            (Receiving { closed: true, ..s }, out.push(RecvEventView::Closed))
        } else {
            let (s, out) = if !self.streaming {
                (self, Seq::empty())
            } else if self.stalled(now) {
                self.aborted(RelAbortReason::Stalled)
            } else {
                self.requested(now)
            };
            let (t, ack) = s.reported(now);
            (t, out + ack)
        }
    }

    /// The state in which a fresh frame is held and nothing handed up yet.
    pub open spec fn holding(self, f: FrameView) -> Receiving {
        Receiving {
            arrivals: self.arrivals.recorded(f.seq.0),
            reorder: self.reorder.insert(f.seq.0, f),
            ..self
        }
    }

    pub proof fn lemma_release_valid(self, f: FrameView, now: Instant)
        requires
            self.valid(),
            self.streaming,
            self.arrivals.fresh(f.seq.0),
            self.holding(f).arrivals.span() <= self.cfg.reorder_window,
            held_bytes(self.holding(f).reorder) <= self.cfg.max_reorder_bytes,
        ensures
            self.holding(f).released(self.arrivals.contiguous, now).0.valid(),
            self.arrivals.contiguous <= self.holding(f).arrivals.contiguous,
            forall|k: u32|
                self.arrivals.contiguous < k <= self.holding(f).arrivals.contiguous
                    ==> #[trigger] self.holding(f).reorder.contains_key(k),
    {
        let s = self.holding(f);
        let c = s.arrivals.contiguous;
        let all = self.arrivals.ahead.insert(f.seq.0);
        self.arrivals.lemma_recorded(f.seq.0);
        lemma_run_end(self.arrivals.contiguous, all);
        lemma_held_filter(s.reorder, c, (u32::MAX + 1) as nat);
        assert(s.reorder.dom() =~= all);
        assert(s.reorder.filter_keys(|k: u32| k > c).dom() =~= s.arrivals.ahead);
    }

    pub proof fn lemma_took_valid(self, f: FrameView, now: Instant)
        requires
            self.valid(),
        ensures
            self.took(f, now).0.valid(),
    {
        self.arrivals.lemma_recorded(f.seq.0);
        if self.streaming && self.arrivals.fresh(f.seq.0) && self.holding(f).arrivals.span()
            <= self.cfg.reorder_window && held_bytes(self.holding(f).reorder)
            <= self.cfg.max_reorder_bytes {
            self.lemma_release_valid(f, now);
        }
    }

    /// A packet keeps the state valid.
    pub proof fn lemma_handled_valid(self, seq: XferSeq, body: BodyView, now: Instant)
        requires
            self.valid(),
        ensures
            self.handled(seq, body, now).0.valid(),
    {
        let s = Receiving { last_packet_at: now, ..self };
        if let BodyView::Data { ts, payload } = body {
            s.lemma_took_valid(FrameView { seq, ts, payload }, now);
        }
    }

    /// The passing of time keeps the state valid.
    pub proof fn lemma_ticked_valid(self, now: Instant)
        requires
            self.valid(),
        ensures
            self.ticked(now).0.valid(),
    {
        if self.streaming {
            self.lemma_requested_valid(now);
        }
    }

    pub proof fn lemma_requested_valid(self, now: Instant)
        requires
            self.valid(),
            self.streaming,
        ensures
            self.requested(now).0.valid(),
    {
        self.lemma_gaps();
        now.lemma_bound();
        let gaps = self.gaps();
        if !(exists|i: int| 0 <= i < gaps.len() && self.hopeless(#[trigger] gaps[i], now)) {
            let t = self.requested(now).0;
            assert forall|k: u32| #[trigger] t.nacks.contains_key(k) implies {
                &&& t.arrivals.contiguous < k
                &&& t.nacks[k].0 <= t.cfg.max_nack_attempts
                &&& t.nacks[k].1 >= -HOUR_NANOS
            } by {
                if gaps.contains(XferSeq(k)) {
                    let i = choose|i: int| 0 <= i < gaps.len() && gaps[i] == XferSeq(k);
                    assert(self.arrivals.is_gap(gaps[i].0));
                    assert(!self.hopeless(gaps[i], now));
                }
            }
        }
    }

    /// The gaps of one round are missing frames above the prefix, ascending, and
    /// no more than fit into one packet.
    pub proof fn lemma_gaps(self)
        ensures
            self.gaps().len() <= MAX_NACK_ENTRIES,
            forall|i: int|
                0 <= i < self.gaps().len() ==> self.arrivals.is_gap(#[trigger] self.gaps()[i].0),
            forall|i: int, j: int|
                0 <= i < j < self.gaps().len() ==> #[trigger] self.gaps()[i].0
                    < #[trigger] self.gaps()[j].0,
    {
        self.arrivals.lemma_gaps_below(self.arrivals.highest as nat);
    }
}

/// Receiving half of one transfer.
///
/// Sans-IO: it is fed decrypted bodies and a clock, and returns events. The
/// same type serves an audio engine and the cache worker; the difference is
/// entirely in [`ReceiverConfig`].
#[derive(Debug)]
pub struct XferReceiver {
    cfg: ReceiverConfig,
    gaps: GapTracker,
    /// Frames above the contiguous prefix, held until the gap below them fills.
    reorder: BTreeMap<u32, Frame>,
    reorder_bytes: u128,
    rel_state: RelState,
    rel_released: u32,
    final_seq: Option<XferSeq>,
    end_acked: bool,
    closed: bool,
    /// Per-gap NACK bookkeeping: how many times asked, and when last asked.
    nacks: BTreeMap<u32, (u8, i128)>,
    /// Highest sequence the sender says it can no longer retransmit.
    sender_lost_below: u32,
    last_packet_at: Instant,
    last_ack_at: Instant,
    last_rel_progress_at: Instant,
    /// Milliseconds of audio currently held, reported back in `Ack`.
    buffered_ms: u64,
}

impl View for XferReceiver {
    type V = Receiving;

    closed spec fn view(&self) -> Receiving {
        Receiving {
            cfg: self.cfg,
            arrivals: self.gaps@,
            reorder: self.reorder@.map_values(|f: Frame| f@),
            streaming: self.rel_state is Streaming,
            final_seq: self.final_seq,
            end_acked: self.end_acked,
            closed: self.closed,
            nacks: self.nacks@,
            sender_lost_below: self.sender_lost_below,
            last_packet_at: self.last_packet_at,
            last_ack_at: self.last_ack_at,
            last_rel_progress_at: self.last_rel_progress_at,
            buffered_ms: self.buffered_ms,
        }
    }
}

impl XferReceiver {
    /// The state is valid, the byte count is right, and exactly the prefix has
    /// been handed up.
    pub closed spec fn wf(&self) -> bool {
        &&& self@.valid()
        &&& self.counted()
    }

    spec fn counted(&self) -> bool {
        &&& self.reorder_bytes == held_bytes(self@.reorder)
        &&& self@.streaming ==> self.rel_released == self@.arrivals.contiguous
    }

    /// A receiver is always in a valid state.
    pub proof fn lemma_wf(&self)
        requires
            self.wf(),
        ensures
            self@.valid(),
    {
    }

    pub fn new(cfg: ReceiverConfig, now: Instant) -> (r: Self)
        ensures
            r.wf(),
            r@ == Receiving::fresh(cfg, now),
    {
        let r = XferReceiver {
            cfg,
            gaps: GapTracker::new(),
            reorder: BTreeMap::new(),
            reorder_bytes: 0,
            rel_state: RelState::Streaming,
            rel_released: 0,
            final_seq: None,
            end_acked: false,
            closed: false,
            nacks: BTreeMap::new(),
            sender_lost_below: 0,
            last_packet_at: now,
            last_ack_at: now,
            last_rel_progress_at: now,
            buffered_ms: 0,
        };
        proof {
            assert(r@.reorder =~= Map::<u32, FrameView>::empty());
            assert(r@.reorder.dom() =~= r@.arrivals.ahead);
            lemma_held_none((u32::MAX + 1) as nat);
        }
        r
    }

    pub fn is_closed(&self) -> (b: bool)
        ensures
            b == self@.closed,
    {
        self.closed
    }

    /// Report how much audio is buffered, so `Ack.buffered_ms` can pace the
    /// sender. The audio engine passes its jitter-buffer occupancy; the cache
    /// worker passes staged bytes converted to a duration.
    pub fn set_buffered_ms(&mut self, ms: u64)
        requires
            old(self).wf(),
        ensures
            final(self).wf(),
            final(self)@ == old(self)@.buffering(ms),
            final(self)@ == (Receiving { buffered_ms: ms, ..old(self)@ }),
    {
        self.buffered_ms = ms;
    }

    /// Feed one authenticated packet body.
    pub fn handle(&mut self, seq: XferSeq, body: Body, now: Instant) -> (out: Vec<RecvEvent>)
        requires
            old(self).wf(),
        ensures
            final(self).wf(),
            final(self)@ == old(self)@.handled(seq, body@, now).0,
            seen(out@) == old(self)@.handled(seq, body@, now).1,
    {
        let ghost before = self@;
        proof {
            before.lemma_handled_valid(seq, body@, now);
        }
        self.last_packet_at = now;
        let mut out: Vec<RecvEvent> = Vec::new();
        assert(seen(out@) =~= Seq::<RecvEventView>::empty());
        match body {
            Body::Data { ts, payload } => {
                self.on_data(Frame { seq, ts, payload }, now, &mut out);
            },
            Body::End { final_seq } => {
                self.final_seq = Some(final_seq);
                self.check_finish(&mut out);
            },
            Body::Keepalive { lost_below } => {
                if lost_below.0 > self.sender_lost_below {
                    self.sender_lost_below = lost_below.0;
                    // The sender has told us these are gone; there is no point
                    // spending the rest of the NACK budget discovering that.
                    if self.gaps.contiguous().0 < self.sender_lost_below {
                        self.finish_rel(
                            RelOutcome::Aborted(RelAbortReason::SenderDiscarded),
                            &mut out,
                        );
                    }
                }
                self.check_finish(&mut out);
            },
            // A sink receives no acknowledgements; direction is enforced when a
            // packet is opened, so reaching here means a caller fed something
            // absurd.
            Body::Ack { .. } | Body::Nack { .. } | Body::EndAck => {},
        }
        self.maybe_ack(now, &mut out);
        assert(seen(out@) =~= before.handled(seq, body@, now).1);
        out
    }

    /// Drive timers. Call periodically; it is what emits NACK retries and
    /// notices stalls.
    pub fn tick(&mut self, now: Instant) -> (out: Vec<RecvEvent>)
        requires
            old(self).wf(),
        ensures
            final(self).wf(),
            final(self)@ == old(self)@.ticked(now).0,
            seen(out@) == old(self)@.ticked(now).1,
    {
        let ghost before = self@;
        proof {
            before.lemma_ticked_valid(now);
        }
        let mut out: Vec<RecvEvent> = Vec::new();
        assert(seen(out@) =~= Seq::<RecvEventView>::empty());
        if self.closed {
            return out;
        }
        if now.duration_since(self.last_packet_at).as_nanos() > self.cfg.idle_timeout.as_nanos() {
            self.finish_rel(RelOutcome::Aborted(RelAbortReason::PeerGone), &mut out);
            self.closed = true;
            out.push(RecvEvent::Closed);
            assert(seen(out@) =~= before.ticked(now).1);
            return out;
        }
        if self.rel_state == RelState::Streaming {
            // A prefix that will not advance while packets keep arriving is a
            // gap that is never going to fill.
            let limit: u128 = self.cfg.rel_stall_timeout.as_nanos();
            if now.duration_since(self.last_rel_progress_at).as_nanos() > limit
                && now.duration_since(self.last_packet_at).as_nanos() <= limit {
                self.finish_rel(RelOutcome::Aborted(RelAbortReason::Stalled), &mut out);
            } else {
                self.emit_nacks(now, &mut out);
            }
        }
        self.maybe_ack(now, &mut out);
        assert(seen(out@) =~= before.ticked(now).1);
        out
    }

    fn on_data(&mut self, frame: Frame, now: Instant, out: &mut Vec<RecvEvent>)
        requires
            old(self).wf(),
        ensures
            final(self).wf(),
            final(self)@ == old(self)@.took(frame@, now).0,
            seen(final(out)@) == seen(old(out)@) + old(self)@.took(frame@, now).1,
    {
        let ghost before = *self;
        let ghost begun = seen(out@);
        let ghost f = frame@;
        proof {
            before@.lemma_took_valid(f, now);
            before@.arrivals.lemma_recorded(f.seq.0);
        }
        let fresh = self.gaps.record(frame.seq);
        // Playback wants every frame the moment it lands, including ones the
        // reliable side has already given up on.
        if fresh && self.cfg.mode.wants_unrel() {
            out.push(RecvEvent::Unreliable(frame.clone()));
        }
        let ghost played = if before@.arrivals.fresh(f.seq.0) && before@.cfg.mode is Dual {
            seq![RecvEventView::Unreliable(f)]
        } else {
            Seq::empty()
        };
        assert(seen(out@) =~= begun + played);
        if self.rel_state != RelState::Streaming {
            return;
        }
        if !fresh {
            // A duplicate or a retransmission of something already released.
            return;
        }
        // Refusing to buffer beyond the window is what bounds memory. It is
        // safe because playback, if there is any, already has the frame.
        if self.gaps.window_span() > self.cfg.reorder_window {
            self.finish_rel(RelOutcome::Aborted(RelAbortReason::BufferExhausted), out);
            return;
        }
        proof {
            lemma_held_insert(before@.reorder, f.seq.0, f, (u32::MAX + 1) as nat);
        }
        self.reorder_bytes = self.reorder_bytes + frame.payload.len() as u128;
        self.reorder.insert(frame.seq.0, frame);
        assert(self@.reorder =~= before@.reorder.insert(f.seq.0, f));
        if self.reorder_bytes > self.cfg.max_reorder_bytes as u128 {
            self.finish_rel(RelOutcome::Aborted(RelAbortReason::BufferExhausted), out);
            return;
        }
        proof {
            before@.lemma_release_valid(f, now);
        }
        self.release_contiguous(now, out);
        self.check_finish(out);
    }

    /// Hand up everything up to the end of the prefix.
    fn release_contiguous(&mut self, now: Instant, out: &mut Vec<RecvEvent>)
        requires
            old(self).rel_released <= old(self)@.arrivals.contiguous,
            old(self).reorder_bytes == held_bytes(old(self)@.reorder),
            forall|k: u32|
                old(self).rel_released < k <= old(self)@.arrivals.contiguous
                    ==> #[trigger] old(self)@.reorder.contains_key(k),
            forall|k: u32| #[trigger]
                old(self)@.reorder.contains_key(k) ==> old(self).rel_released < k,
            forall|k: u32| #[trigger]
                old(self)@.nacks.contains_key(k) ==> old(self).rel_released < k,
        ensures
            final(self).counted(),
            final(self)@ == old(self)@.released(old(self).rel_released, now).0,
            seen(final(out)@) == seen(old(out)@) + old(self)@.released(
                old(self).rel_released,
                now,
            ).1,
    {
        let ghost before = self@;
        let ghost from = self.rel_released;
        let ghost begun = seen(out@);
        let contiguous: u32 = self.gaps.contiguous().0;
        let mut released = false;
        proof {
            assert(self@.reorder =~= before.reorder.filter_keys(|k: u32| k > from));
            assert(self@.nacks =~= before.nacks.filter_keys(|k: u32| k > from));
            assert(seen(out@) =~= begun + Receiving::grown_over(before.reorder, from, from));
        }
        while self.rel_released < contiguous
            invariant
                from <= self.rel_released <= contiguous,
                contiguous == before.arrivals.contiguous,
                released == (from < self.rel_released),
                forall|k: u32|
                    from < k <= contiguous ==> #[trigger] before.reorder.contains_key(k),
                self.reorder_bytes == held_bytes(self@.reorder),
                self@ == (Receiving {
                    reorder: before.reorder.filter_keys(|k: u32| k > self.rel_released),
                    nacks: before.nacks.filter_keys(|k: u32| k > self.rel_released),
                    ..before
                }),
                seen(out@) == begun + Receiving::grown_over(before.reorder, from, self.rel_released),
            decreases contiguous - self.rel_released,
        {
            let ghost mid = self@;
            let ghost done = out@;
            let next: u32 = self.rel_released + 1;
            assert(before.reorder.contains_key(next));
            assert(mid.reorder.contains_key(next));
            if let Some(frame) = self.reorder.remove(&next) {
                proof {
                    assert(self@.reorder =~= mid.reorder.remove(next));
                    lemma_held_remove(mid.reorder, next);
                    assert(frame@ == before.reorder[next]);
                }
                self.reorder_bytes = self.reorder_bytes - frame.payload.len() as u128;
                self.rel_released = next;
                self.nacks.remove(&next);
                out.push(RecvEvent::Reliable(frame));
                released = true;
                proof {
                    assert(self@.reorder =~= before.reorder.filter_keys(
                        |k: u32| k > self.rel_released,
                    ));
                    assert(self@.nacks =~= before.nacks.filter_keys(
                        |k: u32| k > self.rel_released,
                    ));
                    assert(seen(out@) =~= seen(done).push(RecvEventView::Reliable(frame@)));
                    assert(seen(out@) =~= begun + Receiving::grown_over(
                        before.reorder,
                        from,
                        self.rel_released,
                    ));
                }
            }
        }
        if released {
            self.last_rel_progress_at = now;
        }
    }

    fn emit_nacks(&mut self, now: Instant, out: &mut Vec<RecvEvent>)
        requires
            old(self).wf(),
            old(self)@.streaming,
        ensures
            final(self).wf(),
            final(self)@ == old(self)@.requested(now).0,
            seen(final(out)@) == seen(old(out)@) + old(self)@.requested(now).1,
    {
        let ghost before = self@;
        let ghost begun = seen(out@);
        let missing = self.gaps.missing(MAX_NACK_ENTRIES);
        let ghost gaps = before.gaps();
        let ghost wanted = |k: XferSeq| before.wanted(k, now);
        let mut ask: Vec<XferSeq> = Vec::new();
        let mut i: usize = 0;
        proof {
            before.lemma_gaps();
            reveal(Seq::filter);
            assert(gaps.take(0) =~= Seq::<XferSeq>::empty());
            assert(ask@ =~= gaps.take(0).filter(wanted));
            assert(self@.nacks =~= before.rebooked(gaps.take(0), now));
        }
        while i < missing.len()
            invariant
                i <= missing@.len(),
                missing@ == gaps,
                gaps == before.gaps(),
                before == old(self)@,
                before.valid(),
                before.streaming,
                begun == seen(old(out)@),
                wanted == (|k: XferSeq| before.wanted(k, now)),
                self.counted(),
                self@ == (Receiving {
                    nacks: before.rebooked(gaps.take(i as int), now),
                    ..before
                }),
                ask@ == gaps.take(i as int).filter(wanted),
                forall|j: int| 0 <= j < i ==> !before.hopeless(#[trigger] gaps[j], now),
                seen(out@) == begun,
                forall|x: int, y: int|
                    0 <= x < y < gaps.len() ==> #[trigger] gaps[x].0 < #[trigger] gaps[y].0,
            decreases missing@.len() - i,
        {
            let seq = missing[i];
            let ghost done = gaps.take(i as int);
            let ghost more = gaps.take(i + 1);
            proof {
                assert(more.drop_last() =~= done);
                assert(more.last() == seq);
                assert(!done.contains(seq)) by {
                    if done.contains(seq) {
                        let j = choose|j: int| 0 <= j < done.len() && done[j] == seq;
                        assert(gaps[j].0 < gaps[i as int].0);
                    }
                }
                reveal(Seq::filter);
            }
            let known: Option<&(u8, i128)> = self.nacks.get(&seq.0);
            let (attempts, at): (u8, i128) = match known {
                Some(e) => *e,
                None => (0u8, now.as_nanos() as i128 - HOUR_NANOS),
            };
            assert((attempts, at) == before.booked(seq.0, now));
            if seq.0 <= self.sender_lost_below || attempts >= self.cfg.max_nack_attempts {
                assert(before.hopeless(gaps[i as int], now));
                self.finish_rel(RelOutcome::Aborted(RelAbortReason::UnrecoverableGap), out);
                return;
            }
            let delay = self.cfg.nack_delay(attempts);
            if has_passed(now, at, delay) {
                self.nacks.insert(seq.0, (attempts + 1, now.as_nanos() as i128));
                ask.push(seq);
            } else {
                self.nacks.insert(seq.0, (attempts, at));
            }
            proof {
                assert forall|k: u32| more.contains(XferSeq(k)) <==> done.contains(XferSeq(k)) || k
                    == seq.0 by {
                    if more.contains(XferSeq(k)) {
                        let j = choose|j: int| 0 <= j < more.len() && more[j] == XferSeq(k);
                        if j < i {
                            assert(done[j] == XferSeq(k));
                        }
                    }
                    if done.contains(XferSeq(k)) {
                        let j = choose|j: int| 0 <= j < done.len() && done[j] == XferSeq(k);
                        assert(more[j] == XferSeq(k));
                    }
                    assert(more[i as int] == seq);
                }
                assert(self@.nacks =~= before.rebooked(more, now));
            }
            i += 1;
        }
        proof {
            assert(gaps.take(i as int) =~= gaps);
            before.lemma_requested_valid(now);
        }
        if ask.len() > 0 {
            out.push(RecvEvent::SendNack { missing: ask });
        }
        assert(seen(out@) =~= begun + before.requested(now).1);
    }

    fn check_finish(&mut self, out: &mut Vec<RecvEvent>)
        requires
            old(self).wf(),
        ensures
            final(self).wf(),
            final(self)@ == old(self)@.wound_up().0,
            seen(final(out)@) == seen(old(out)@) + old(self)@.wound_up().1,
    {
        let ghost before = self@;
        let ghost begun = seen(out@);
        let complete = match self.final_seq {
            Some(final_seq) => self.gaps.is_complete(final_seq),
            None => false,
        };
        if !complete {
            return;
        }
        if let Some(final_seq) = self.final_seq {
            self.finish_rel(RelOutcome::Complete { final_seq }, out);
        }
        let ghost ended = seen(out@);
        // Acknowledge the tail once the whole transfer has landed, so the
        // sender can stop keepaliving and let go.
        if !self.end_acked {
            self.end_acked = true;
            out.push(RecvEvent::SendEndAck);
            assert(seen(out@) =~= ended.push(RecvEventView::SendEndAck));
        }
        let ghost told = seen(out@);
        if !self.closed {
            self.closed = true;
            out.push(RecvEvent::Closed);
            assert(seen(out@) =~= told.push(RecvEventView::Closed));
        }
        assert(seen(out@) =~= begun + before.wound_up().1);
    }

    fn finish_rel(&mut self, outcome: RelOutcome, out: &mut Vec<RecvEvent>)
        requires
            old(self)@.streaming || old(self).wf(),
            old(self)@.arrivals.valid(),
            old(self)@.end_acked ==> old(self)@.closed,
        ensures
            final(self).wf(),
            final(self)@ == old(self)@.rel_finished(outcome).0,
            seen(final(out)@) == seen(old(out)@) + old(self)@.rel_finished(outcome).1,
    {
        let ghost before = self@;
        let ghost begun = seen(out@);
        if self.rel_state == RelState::Finished {
            return;
        }
        self.rel_state = RelState::Finished;
        // Releasing the buffer here is the point: an abandoned reliable stream
        // must hold no frames. What has arrived stays on record, so that
        // playback never sees a frame twice.
        self.reorder.clear();
        self.reorder_bytes = 0;
        self.nacks.clear();
        out.push(RecvEvent::RelFinished(outcome));
        proof {
            assert(self@.reorder =~= Map::<u32, FrameView>::empty());
            lemma_held_none((u32::MAX + 1) as nat);
            assert(seen(out@) =~= begun + before.rel_finished(outcome).1);
        }
    }

    fn maybe_ack(&mut self, now: Instant, out: &mut Vec<RecvEvent>)
        requires
            old(self).wf(),
        ensures
            final(self).wf(),
            final(self)@ == old(self)@.reported(now).0,
            seen(final(out)@) == seen(old(out)@) + old(self)@.reported(now).1,
    {
        let ghost before = self@;
        let ghost begun = seen(out@);
        if self.closed {
            return;
        }
        if now.duration_since(self.last_ack_at).as_nanos() < self.cfg.ack_interval.as_nanos() {
            return;
        }
        if self.gaps.highest().0 == 0 {
            return;
        }
        self.last_ack_at = now;
        let buffered_ms: u16 = if self.buffered_ms < u16::MAX as u64 {
            self.buffered_ms as u16
        } else {
            u16::MAX
        };
        out.push(
            RecvEvent::SendAck {
                contiguous: self.gaps.contiguous(),
                highest: self.gaps.highest(),
                buffered_ms,
            },
        );
        assert(seen(out@) =~= begun + before.reported(now).1);
    }
}

/// Whether at least `delay` has passed since the moment `at`.
fn has_passed(now: Instant, at: i128, delay: Duration) -> (b: bool)
    requires
        at >= -HOUR_NANOS,
    ensures
        b == (elapsed(now@ as int, at as int) >= delay@),
{
    let since: i128 = now.as_nanos() as i128 - at;
    if since >= 0 {
        since as u128 >= delay.as_nanos()
    } else {
        delay.as_nanos() == 0
    }
}

} // verus!
