//! The sending half of a transfer.

use vstd::prelude::*;
use vstd::slice::slice_to_vec;

use super::retrans::{find, max_u32, RetransRing, Ring};
use crate::config::SenderConfig;
use crate::frame::{Body, BodyView};
use crate::time::{elapsed, Instant};
use crate::types::{TimestampMs, XferSeq};

verus! {

/// What the sender wants done. The caller seals and transmits; this type owns
/// no socket and no clock.
#[derive(Debug, Clone, PartialEq, Eq)]
pub enum SendEvent {
    /// Seal this body under `seq` and send it. The caller must hand the sealed
    /// bytes straight back via [`XferSender::record_sealed`], because those
    /// exact bytes are what a retransmission resends.
    Emit { seq: XferSeq, body: Body },
    /// Resend these previously sealed datagrams verbatim. Never re-seal them.
    Resend { datagrams: Vec<Vec<u8>> },
    /// The receiver has everything; the transfer is done.
    Completed,
    /// Give up. Nothing further will be sent.
    Failed(SendFailure),
}

#[derive(Debug, Clone, Copy, PartialEq, Eq, Structural)]
pub enum SendFailure {
    /// No `Ack` ever came back. Either nothing is listening or the return path
    /// is broken: the check that replaces an opening handshake.
    NoAck,
    /// `EndAck` never arrived.
    FinalizeTimeout,
}

/// How far a sender has come.
#[derive(Debug, Clone, Copy, PartialEq, Eq, Structural)]
pub enum SendState {
    /// Sending payload.
    Streaming,
    /// `End` sent, waiting for `EndAck` while still answering NACKs.
    Finalizing,
    Done,
}

/// A [`SendEvent`] with its vectors taken as sequences.
#[verifier::ext_equal]
pub enum SendEventView {
    Emit { seq: XferSeq, body: BodyView },
    Resend { datagrams: Seq<Seq<u8>> },
    Completed,
    Failed(SendFailure),
}

/// The bytes of a list of datagrams.
pub open spec fn contents(datagrams: Seq<Vec<u8>>) -> Seq<Seq<u8>> {
    datagrams.map_values(|d: Vec<u8>| d@)
}

impl View for SendEvent {
    type V = SendEventView;

    open spec fn view(&self) -> SendEventView {
        match *self {
            SendEvent::Emit { seq, body } => SendEventView::Emit { seq, body: body@ },
            SendEvent::Resend { datagrams } => SendEventView::Resend {
                datagrams: contents(datagrams@),
            },
            SendEvent::Completed => SendEventView::Completed,
            SendEvent::Failed(f) => SendEventView::Failed(f),
        }
    }
}

/// The views of a list of events.
pub open spec fn sent(events: Seq<SendEvent>) -> Seq<SendEventView> {
    events.map_values(|e: SendEvent| e@)
}

/// The state of an [`XferSender`].
#[verifier::ext_equal]
pub struct Sending {
    pub cfg: SenderConfig,
    pub ring: Ring,
    pub state: SendState,
    /// Why the sender has given up, if it has.
    pub failure: Option<SendFailure>,
    /// Number of the next payload frame.
    pub next_seq: u32,
    /// Number of the last control packet.
    pub control_counter: u32,
    /// Highest sequence the receiver admits to having seen.
    pub acked_highest: u32,
    /// The receiver's last reported buffer occupancy, in milliseconds.
    pub buffered_ms: u16,
    pub paused: bool,
    pub first_data_at: Option<Instant>,
    pub got_ack: bool,
    pub finalize_at: Option<Instant>,
    pub last_keepalive_at: Option<Instant>,
}

/// Whether more than `limit` has passed since `since`.
pub open spec fn later_than(now: Instant, since: Option<Instant>, limit: nat) -> bool {
    since matches Some(t) && elapsed(now@ as int, t@ as int) > limit
}

/// Whether at least `limit` has passed since `since`.
pub open spec fn due(now: Instant, since: Option<Instant>, limit: nat) -> bool {
    since matches Some(t) && elapsed(now@ as int, t@ as int) >= limit
}

/// The stored datagrams that answer a request for `missing`, in its order.
pub open spec fn resends(ring: Ring, missing: Seq<XferSeq>) -> Seq<Seq<u8>>
    decreases missing.len(),
{
    if missing.len() == 0 {
        Seq::empty()
    } else {
        let rest = resends(ring, missing.drop_last());
        match find(ring.entries, missing.last()) {
            Some(d) => rest.push(d),
            None => rest,
        }
    }
}

impl Sending {
    /// A sender that has done nothing yet.
    pub open spec fn fresh(cfg: SenderConfig) -> Sending {
        Sending {
            cfg,
            ring: Ring::empty(cfg.retrans_ring_frames, cfg.retrans_ring_bytes),
            state: SendState::Streaming,
            failure: None,
            next_seq: 1,
            control_counter: 0,
            acked_highest: 0,
            buffered_ms: 0,
            paused: false,
            first_data_at: None,
            got_ack: false,
            finalize_at: None,
            last_keepalive_at: None,
        }
    }

    /// How the transfer ended: not yet, by the receiver's confirmation, or by
    /// giving up.
    pub open spec fn outcome(self) -> Option<std::result::Result<(), SendFailure>> {
        match self.failure {
            Some(f) => Some(Err(f)),
            None => if self.state is Done {
                Some(Ok(()))
            } else {
                None
            },
        }
    }

    /// Frames sent beyond the highest one that the receiver has seen.
    pub open spec fn outstanding(self) -> int {
        if self.next_seq - 1 > self.acked_highest {
            self.next_seq - 1 - self.acked_highest
        } else {
            0
        }
    }

    pub open spec fn may_send(self) -> bool {
        self.state is Streaming && !self.paused && self.outstanding() < self.cfg.max_outstanding
    }

    /// Offering a frame: it is sent under the next number, or refused with
    /// nothing changed.
    pub open spec fn pushed(self, ts: TimestampMs, payload: Seq<u8>, now: Instant) -> (
        Sending,
        Option<SendEventView>,
    ) {
        if self.may_send() {
            (
                Sending {
                    next_seq: if self.next_seq < u32::MAX {
                        (self.next_seq + 1) as u32
                    } else {
                        self.next_seq
                    },
                    first_data_at: if self.first_data_at is None {
                        Some(now)
                    } else {
                        self.first_data_at
                    },
                    ..self
                },
                Some(
                    SendEventView::Emit {
                        seq: XferSeq(self.next_seq),
                        body: BodyView::Data { ts, payload },
                    },
                ),
            )
        } else {
            (self, None)
        }
    }

    pub open spec fn recorded(self, seq: XferSeq, datagram: Seq<u8>) -> Sending {
        Sending { ring: self.ring.pushed(seq, datagram), ..self }
    }

    pub open spec fn next_control(self) -> u32 {
        if self.control_counter < u32::MAX {
            (self.control_counter + 1) as u32
        } else {
            0
        }
    }

    /// The end of the payload is announced once.
    pub open spec fn finished(self, now: Instant) -> (Sending, Option<SendEventView>) {
        if self.state is Streaming {
            (
                Sending {
                    state: SendState::Finalizing,
                    finalize_at: Some(now),
                    last_keepalive_at: Some(now),
                    control_counter: self.next_control(),
                    ..self
                },
                Some(
                    SendEventView::Emit {
                        seq: XferSeq(self.next_control()),
                        body: BodyView::End {
                            final_seq: XferSeq(
                                if self.next_seq > 0 {
                                    (self.next_seq - 1) as u32
                                } else {
                                    0
                                },
                            ),
                        },
                    },
                ),
            )
        } else {
            (self, None)
        }
    }

    /// The brake after an occupancy report: on at the high-water mark, off at
    /// the low-water mark, and as it was in between.
    pub open spec fn braked(self, buffered_ms: u16) -> bool {
        if buffered_ms >= self.cfg.buffer_high_water_ms {
            true
        } else if buffered_ms <= self.cfg.buffer_low_water_ms {
            false
        } else {
            self.paused
        }
    }

    /// A packet from the receiver.
    pub open spec fn handled(self, body: BodyView) -> (Sending, Seq<SendEventView>) {
        match body {
            BodyView::Ack { contiguous, highest, buffered_ms } => (
                Sending {
                    got_ack: true,
                    ring: self.ring.acked(contiguous.0),
                    acked_highest: max_u32(self.acked_highest, highest.0),
                    buffered_ms,
                    paused: self.braked(buffered_ms),
                    ..self
                },
                Seq::empty(),
            ),
            BodyView::Nack { missing } => {
                let datagrams = resends(self.ring, missing);
                (
                    Sending { got_ack: true, ..self },
                    if self.failure is Some || datagrams.len() == 0 {
                        Seq::empty()
                    } else {
                        seq![SendEventView::Resend { datagrams }]
                    },
                )
            },
            BodyView::EndAck => (
                Sending { state: SendState::Done, ..self },
                seq![SendEventView::Completed],
            ),
            BodyView::Data { .. } | BodyView::End { .. } | BodyView::Keepalive { .. } => (
                self,
                Seq::empty(),
            ),
        }
    }

    pub open spec fn given_up(self, why: SendFailure) -> (Sending, Seq<SendEventView>) {
        (
            Sending { state: SendState::Done, failure: Some(why), ..self },
            seq![SendEventView::Failed(why)],
        )
    }

    pub open spec fn kept_alive(self, now: Instant) -> (Sending, Seq<SendEventView>) {
        (
            Sending {
                last_keepalive_at: Some(now),
                control_counter: self.next_control(),
                ..self
            },
            seq![
                SendEventView::Emit {
                    seq: XferSeq(self.next_control()),
                    body: BodyView::Keepalive { lost_below: XferSeq(self.ring.lost_below) },
                },
            ],
        )
    }

    /// Time passes. The sender gives up, speaks for its silence, or does nothing.
    pub open spec fn ticked(self, now: Instant) -> (Sending, Seq<SendEventView>) {
        if self.state is Done {
            (self, Seq::empty())
        } else if !self.got_ack && later_than(
            now,
            self.first_data_at,
            self.cfg.first_ack_timeout@,
        ) {
            self.given_up(SendFailure::NoAck)
        } else if self.state is Finalizing && later_than(
            now,
            self.finalize_at,
            self.cfg.finalize_timeout@,
        ) {
            self.given_up(SendFailure::FinalizeTimeout)
        } else if self.state is Finalizing && due(
            now,
            self.last_keepalive_at,
            self.cfg.tail_keepalive_interval@,
        ) {
            self.kept_alive(now)
        } else if self.state is Streaming && self.paused && (self.last_keepalive_at is None || due(
            now,
            self.last_keepalive_at,
            self.cfg.tail_keepalive_interval@,
        )) {
            self.kept_alive(now)
        } else {
            (self, Seq::empty())
        }
    }
}

/// Sending half of one transfer.
#[derive(Debug)]
pub struct XferSender {
    cfg: SenderConfig,
    ring: RetransRing,
    state: SendState,
    /// Set once the sender has given up; from then on it sends nothing.
    failure: Option<SendFailure>,
    next_seq: XferSeq,
    /// Counter for control packets. Independent of `next_seq`: the class in the
    /// nonce already separates the two spaces, so each just needs to be
    /// monotonic within itself.
    control_counter: u32,
    /// Highest sequence the receiver admits to having seen.
    acked_highest: u32,
    /// The receiver's reported buffer occupancy, in milliseconds.
    buffered_ms: u16,
    /// True while occupancy sits above the high-water mark. Hysteresis, so a
    /// receiver hovering at the threshold does not thrash.
    paused: bool,
    first_data_at: Option<Instant>,
    got_ack: bool,
    finalize_at: Option<Instant>,
    last_keepalive_at: Option<Instant>,
}

impl View for XferSender {
    type V = Sending;

    closed spec fn view(&self) -> Sending {
        Sending {
            cfg: self.cfg,
            ring: self.ring@,
            state: self.state,
            failure: self.failure,
            next_seq: self.next_seq.0,
            control_counter: self.control_counter,
            acked_highest: self.acked_highest,
            buffered_ms: self.buffered_ms,
            paused: self.paused,
            first_data_at: self.first_data_at,
            got_ack: self.got_ack,
            finalize_at: self.finalize_at,
            last_keepalive_at: self.last_keepalive_at,
        }
    }
}

impl XferSender {
    /// The retransmission ring keeps to its budget.
    pub closed spec fn wf(&self) -> bool {
        self.ring.wf()
    }

    pub fn new(cfg: SenderConfig) -> (s: Self)
        ensures
            s.wf(),
            s@ == Sending::fresh(cfg),
    {
        let ring = RetransRing::new(cfg.retrans_ring_frames, cfg.retrans_ring_bytes);
        XferSender {
            cfg,
            ring,
            state: SendState::Streaming,
            failure: None,
            next_seq: XferSeq::first(),
            control_counter: 0,
            acked_highest: 0,
            buffered_ms: 0,
            paused: false,
            first_data_at: None,
            got_ack: false,
            finalize_at: None,
            last_keepalive_at: None,
        }
    }

    pub fn is_done(&self) -> (b: bool)
        ensures
            b == (self@.state is Done),
    {
        self.state == SendState::Done
    }

    /// How the transfer ended: `None` while it is going on, `Ok` once the
    /// receiver has confirmed the tail, and the failure if the sender gave up.
    pub fn outcome(&self) -> (r: Option<std::result::Result<(), SendFailure>>)
        ensures
            r == self@.outcome(),
    {
        match self.failure {
            Some(f) => Some(Err(f)),
            None => {
                if self.state == SendState::Done {
                    Some(Ok(()))
                } else {
                    None
                }
            },
        }
    }

    /// Whether another payload frame may be sent right now.
    ///
    /// Two independent brakes: the outstanding-frame window, which stops a tap
    /// that ignores wall-clock pacing from bursting a whole track onto the
    /// wire, and the receiver's reported buffer occupancy.
    pub fn can_send(&self) -> (b: bool)
        ensures
            b == self@.may_send(),
    {
        if self.state != SendState::Streaming || self.paused {
            return false;
        }
        let outstanding: u32 = self.next_seq.0.saturating_sub(1).saturating_sub(self.acked_highest);
        outstanding < self.cfg.max_outstanding
    }

    /// Queue one Opus frame. Returns `None` if the window is closed: the caller
    /// should wait rather than buffer, since the whole point is to make the tap
    /// produce no faster than the receiver consumes.
    pub fn push_frame(&mut self, ts: TimestampMs, payload: Vec<u8>, now: Instant) -> (r: Option<
        SendEvent,
    >)
        requires
            old(self).wf(),
        ensures
            final(self).wf(),
            final(self)@ == old(self)@.pushed(ts, payload@, now).0,
            match r {
                Some(e) => old(self)@.pushed(ts, payload@, now).1 == Some(e@),
                None => old(self)@.pushed(ts, payload@, now).1 is None,
            },
    {
        if !self.can_send() {
            return None;
        }
        let seq = self.next_seq;
        self.next_seq = seq.next();
        if self.first_data_at.is_none() {
            self.first_data_at = Some(now);
        }
        Some(SendEvent::Emit { seq, body: Body::Data { ts, payload } })
    }

    /// Hand back the sealed bytes for a previously emitted frame.
    ///
    /// This is the only way into the retransmission ring, and it takes
    /// ciphertext rather than a frame precisely so that resending can never
    /// re-encrypt under an already-used nonce.
    pub fn record_sealed(&mut self, seq: XferSeq, datagram: Vec<u8>)
        requires
            old(self).wf(),
        ensures
            final(self).wf(),
            final(self)@ == old(self)@.recorded(seq, datagram@),
    {
        self.ring.push(seq, datagram);
    }

    /// Signal end of payload.
    pub fn finish(&mut self, now: Instant) -> (r: Option<SendEvent>)
        requires
            old(self).wf(),
        ensures
            final(self).wf(),
            final(self)@ == old(self)@.finished(now).0,
            match r {
                Some(e) => old(self)@.finished(now).1 == Some(e@),
                None => old(self)@.finished(now).1 is None,
            },
    {
        if self.state != SendState::Streaming {
            return None;
        }
        self.state = SendState::Finalizing;
        self.finalize_at = Some(now);
        self.last_keepalive_at = Some(now);
        let final_seq = XferSeq(self.next_seq.0.saturating_sub(1));
        let seq = self.control_seq();
        Some(SendEvent::Emit { seq, body: Body::End { final_seq } })
    }

    /// Feed an authenticated packet from the receiver.
    pub fn handle(&mut self, body: Body, _now: Instant) -> (out: Vec<SendEvent>)
        requires
            old(self).wf(),
        ensures
            final(self).wf(),
            final(self)@ == old(self)@.handled(body@).0,
            sent(out@) == old(self)@.handled(body@).1,
    {
        let mut out: Vec<SendEvent> = Vec::new();
        match body {
            Body::Ack { contiguous, highest, buffered_ms } => {
                self.got_ack = true;
                self.ring.ack_through(contiguous);
                if highest.0 > self.acked_highest {
                    self.acked_highest = highest.0;
                }
                self.buffered_ms = buffered_ms;
                if buffered_ms >= self.cfg.buffer_high_water_ms {
                    self.paused = true;
                } else if buffered_ms <= self.cfg.buffer_low_water_ms {
                    self.paused = false;
                }
            },
            Body::Nack { missing } => {
                self.got_ack = true;
                let datagrams = self.resends_for(missing.as_slice());
                assert(contents(datagrams@).len() == datagrams@.len());
                if self.failure.is_none() && datagrams.len() > 0 {
                    out.push(SendEvent::Resend { datagrams });
                }
            },
            Body::EndAck => {
                self.state = SendState::Done;
                out.push(SendEvent::Completed);
            },
            Body::Data { .. } | Body::End { .. } | Body::Keepalive { .. } => {},
        }
        assert(sent(out@) =~= old(self)@.handled(body@).1);
        out
    }

    /// The stored datagrams among those asked for.
    fn resends_for(&self, missing: &[XferSeq]) -> (out: Vec<Vec<u8>>)
        ensures
            contents(out@) == resends(self@.ring, missing@),
    {
        let mut out: Vec<Vec<u8>> = Vec::new();
        let mut i: usize = 0;
        assert(contents(out@) =~= resends(self@.ring, missing@.take(0)));
        while i < missing.len()
            invariant
                i <= missing@.len(),
                contents(out@) == resends(self@.ring, missing@.take(i as int)),
            decreases missing@.len() - i,
        {
            let ghost before = out@;
            assert(missing@.take(i + 1).drop_last() =~= missing@.take(i as int));
            if let Some(d) = self.ring.get(missing[i]) {
                let copy = slice_to_vec(d);
                out.push(copy);
                assert(contents(out@) =~= contents(before).push(copy@));
            }
            i += 1;
        }
        assert(missing@.take(i as int) =~= missing@);
        out
    }

    /// Drive timers.
    pub fn tick(&mut self, now: Instant) -> (out: Vec<SendEvent>)
        requires
            old(self).wf(),
        ensures
            final(self).wf(),
            final(self)@ == old(self)@.ticked(now).0,
            sent(out@) == old(self)@.ticked(now).1,
    {
        let mut out: Vec<SendEvent> = Vec::new();
        let ghost expected = self@.ticked(now).1;
        if self.state == SendState::Done {
            assert(sent(out@) =~= expected);
            return out;
        }
        // Nothing ever acknowledged us: the receiver is gone, or the return
        // path through the relay and the tap's NAT is broken.
        if let Some(first) = self.first_data_at {
            if !self.got_ack && now.duration_since(first).as_nanos()
                > self.cfg.first_ack_timeout.as_nanos() {
                self.give_up(SendFailure::NoAck, &mut out);
                assert(sent(out@) =~= expected);
                return out;
            }
        }
        // A sender held back by the receiver's buffer report has nothing to
        // send either, and the receiver cannot tell that silence from a tap
        // that died: its idle timeout fires, the transfer aborts, and from then
        // on nothing acknowledges the tap, so the pause becomes permanent. A
        // keepalive says "still here, still holding"; the receiver records it
        // as liveness and nothing else.
        if self.state == SendState::Streaming && self.paused {
            let is_due = match self.last_keepalive_at {
                Some(last) => now.duration_since(last).as_nanos()
                    >= self.cfg.tail_keepalive_interval.as_nanos(),
                None => true,
            };
            if is_due {
                self.keep_alive(now, &mut out);
            }
        }
        if self.state == SendState::Finalizing {
            if let Some(started) = self.finalize_at {
                if now.duration_since(started).as_nanos() > self.cfg.finalize_timeout.as_nanos() {
                    self.give_up(SendFailure::FinalizeTimeout, &mut out);
                    assert(sent(out@) =~= expected);
                    return out;
                }
            }
            // Between End and EndAck the sender has nothing to say, but going
            // quiet lets the NAT mapping lapse and the receiver's NACKs for the
            // tail would never arrive.
            if let Some(last) = self.last_keepalive_at {
                if now.duration_since(last).as_nanos()
                    >= self.cfg.tail_keepalive_interval.as_nanos() {
                    self.keep_alive(now, &mut out);
                }
            }
        }
        assert(sent(out@) =~= expected);
        out
    }

    fn give_up(&mut self, why: SendFailure, out: &mut Vec<SendEvent>)
        requires
            old(self).wf(),
        ensures
            final(self).wf(),
            final(self)@ == old(self)@.given_up(why).0,
            final(out)@ == old(out)@.push(SendEvent::Failed(why)),
    {
        self.state = SendState::Done;
        self.failure = Some(why);
        out.push(SendEvent::Failed(why));
    }

    fn keep_alive(&mut self, now: Instant, out: &mut Vec<SendEvent>)
        requires
            old(self).wf(),
        ensures
            final(self).wf(),
            final(self)@ == old(self)@.kept_alive(now).0,
            sent(final(out)@) == sent(old(out)@) + old(self)@.kept_alive(now).1,
    {
        let ghost before = *self;
        self.last_keepalive_at = Some(now);
        let seq = self.control_seq();
        let lost_below = self.ring.lost_below();
        out.push(SendEvent::Emit { seq, body: Body::Keepalive { lost_below } });
        assert(sent(out@) =~= sent(old(out)@) + before@.kept_alive(now).1);
    }

    fn control_seq(&mut self) -> (s: XferSeq)
        requires
            old(self).wf(),
        ensures
            final(self).wf(),
            s.0 == old(self)@.next_control(),
            final(self)@ == (Sending { control_counter: s.0, ..old(self)@ }),
    {
        self.control_counter = self.control_counter.wrapping_add(1);
        XferSeq(self.control_counter)
    }
}

} // verus!
