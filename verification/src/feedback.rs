//! How far playback has come, as the sink reports it.

use vstd::prelude::*;

use crate::time::{elapsed, Duration, Instant, NANOS_PER_MILLI, NANOS_PER_SEC};

verus! {

/// Where playback has reached.
///
/// The occupancy reported in an `Ack` is what paces a tap: the sender pauses
/// above its high-water mark and resumes at its low-water mark. A sink cannot
/// measure that itself, since the frames it would have to count are spread
/// across queues it does not own, so it reports the one thing only it knows, the
/// timestamp it is playing, and that is subtracted from the newest frame
/// received. Everything unplayed is then accounted for, wherever it waits.
///
/// A report is a measurement of a moving target, so it is also dated: see
/// [`BufferFeedback::fresh_playhead_ms`].
///
/// There is one of these per transfer, and it cannot be copied: a copy would miss
/// later reports. Where two tasks need it, they share it behind a lock.
#[derive(Debug)]
pub struct BufferFeedback {
    playhead_ms: u64,
    /// When `playhead_ms` was last written, in milliseconds since `epoch`.
    written_at_ms: Option<u64>,
    epoch: Instant,
}

/// The state of a [`BufferFeedback`].
pub struct Playhead {
    pub playhead_ms: u64,
    /// When it was reported, in whole milliseconds since `epoch`.
    pub written_at_ms: Option<u64>,
    pub epoch: Instant,
}

impl Playhead {
    /// No report yet.
    pub open spec fn none(epoch: Instant) -> Playhead {
        Playhead { playhead_ms: 0, written_at_ms: None, epoch }
    }

    /// A report, dated in whole milliseconds.
    pub open spec fn reported(self, ms: u64, now: Instant) -> Playhead {
        Playhead {
            playhead_ms: ms,
            written_at_ms: Some(
                (elapsed(now@ as int, self.epoch@ as int) / NANOS_PER_MILLI as nat) as u64,
            ),
            epoch: self.epoch,
        }
    }

    /// The state after a series of reports, each with its time.
    pub open spec fn after(self, reports: Seq<(u64, Instant)>) -> Playhead
        decreases reports.len(),
    {
        if reports.len() == 0 {
            self
        } else {
            self.after(reports.drop_last()).reported(reports.last().0, reports.last().1)
        }
    }

    /// The last report, if it was made within `ttl`.
    pub open spec fn fresh(self, now: Instant, ttl: Duration) -> Option<u64> {
        match self.written_at_ms {
            Some(w) => if elapsed(now@ as int, self.epoch@ + w * NANOS_PER_MILLI) > ttl@ {
                None
            } else {
                Some(self.playhead_ms)
            },
            None => None,
        }
    }
}

impl View for BufferFeedback {
    type V = Playhead;

    closed spec fn view(&self) -> Playhead {
        Playhead {
            playhead_ms: self.playhead_ms,
            written_at_ms: self.written_at_ms,
            epoch: self.epoch,
        }
    }
}

impl BufferFeedback {
    /// No report yet. Reports are dated from `epoch`.
    pub fn new(epoch: Instant) -> (f: Self)
        ensures
            f@ == Playhead::none(epoch),
            f@ == (Playhead { playhead_ms: 0, written_at_ms: None, epoch }),
    {
        BufferFeedback { playhead_ms: 0, written_at_ms: None, epoch }
    }

    /// Report the timestamp playback has reached, in milliseconds.
    pub fn set_playhead_ms(&mut self, ms: u64, now: Instant)
        ensures
            final(self)@ == old(self)@.reported(ms, now),
            final(self)@ == (Playhead {
                playhead_ms: ms,
                written_at_ms: Some(
                    (elapsed(now@ as int, old(self)@.epoch@ as int) / NANOS_PER_MILLI as nat)
                        as u64,
                ),
                epoch: old(self)@.epoch,
            }),
    {
        proof {
            now.lemma_bound();
        }
        self.playhead_ms = ms;
        let since: u128 = now.duration_since(self.epoch).as_nanos();
        self.written_at_ms = Some((since / NANOS_PER_MILLI) as u64);
    }

    /// The last play head reported, whether or not it is still current.
    pub fn playhead_ms(&self) -> (ms: u64)
        ensures
            ms == self@.playhead_ms,
    {
        self.playhead_ms
    }

    /// The play head reported, if it was reported within `ttl`.
    ///
    /// The sender's only way out of a pause is a later, lower occupancy, so a
    /// sink that stops reporting (a decoder task that died, a stream that was
    /// never really playing) would hold the tap back forever. That is worse
    /// than it sounds: a paused tap sends nothing but keepalives. Dating the
    /// report bounds any pause to `ttl` plus an ack interval, because an
    /// unrenewed report is treated as no report at all.
    pub fn fresh_playhead_ms(&self, now: Instant, ttl: Duration) -> (r: Option<u64>)
        ensures
            r == self@.fresh(now, ttl),
    {
        match self.written_at_ms {
            None => None,
            Some(w) => {
                proof {
                    self.epoch.lemma_bound();
                }
                let reported_at: u128 = self.epoch.as_nanos() as u128 + w as u128
                    * NANOS_PER_MILLI;
                let at: u128 = now.as_nanos() as u128;
                if at > reported_at && at - reported_at > ttl.as_nanos() {
                    None
                } else {
                    Some(self.playhead_ms)
                }
            },
        }
    }
}

/// How long a sink's report stays actionable before it is treated as absent.
///
/// The audio engine renews it on every frame it plays, twenty milliseconds
/// apart, so a sink that is genuinely backed up never goes stale; one that has
/// stopped reporting is released within a couple of seconds, far inside the
/// fifteen-second idle timeout that would otherwise abort the transfer.
pub fn buffer_report_ttl() -> (d: Duration)
    ensures
        d@ == 2 * NANOS_PER_SEC,
{
    Duration::from_secs(2)
}

/// What is left to play, as the acknowledgement carries it: everything between
/// the play head and the newest frame, up to what sixteen bits can say, or
/// `state_ms` when there is no report made within the last two seconds.
pub open spec fn occupancy(f: Playhead, state_ms: u16, newest_data_ms: u64, now: Instant) -> u16 {
    let reported = match f.written_at_ms {
        Some(w) => elapsed(now@ as int, f.epoch@ + w * NANOS_PER_MILLI) <= 2 * NANOS_PER_SEC,
        None => false,
    };
    if !reported {
        state_ms
    } else if newest_data_ms <= f.playhead_ms {
        0
    } else if newest_data_ms - f.playhead_ms < u16::MAX {
        (newest_data_ms - f.playhead_ms) as u16
    } else {
        u16::MAX
    }
}

/// The occupancy to put in an acknowledgement.
///
/// What the sink has left to play is everything that arrived and has not been
/// played: the newest frame received, minus the play head the sink reported.
/// Measuring it here rather than in the sink is what makes the number cover
/// frames queued on the way as well as in the application; a sink counting only
/// what it had dequeued would top out at its own pipeline and never reach the
/// sender's water marks.
///
/// The state machine's value is the fallback for a sink that has never reported
/// or has gone quiet, so the field is never simply discarded.
pub fn ack_buffered_ms(
    feedback: &BufferFeedback,
    state_ms: u16,
    newest_data_ms: u64,
    now: Instant,
) -> (ms: u16)
    ensures
        ms == occupancy(feedback@, state_ms, newest_data_ms, now),
{
    match feedback.fresh_playhead_ms(now, buffer_report_ttl()) {
        Some(playhead) => {
            let left: u64 = newest_data_ms.saturating_sub(playhead);
            if left < u16::MAX as u64 {
                left as u16
            } else {
                u16::MAX
            }
        },
        None => state_ms,
    }
}

/// A report stops counting: once it is older than two seconds, the sender is no
/// longer held back by it.
pub proof fn lemma_a_stale_report_is_no_report(
    f: Playhead,
    state_ms: u16,
    newest_data_ms: u64,
    now: Instant,
)
    requires
        f.written_at_ms matches Some(w) && elapsed(
            now@ as int,
            f.epoch@ + w * NANOS_PER_MILLI,
        ) > 2 * NANOS_PER_SEC,
    ensures
        occupancy(f, state_ms, newest_data_ms, now) == state_ms,
{
}

/// When the last of `reports` counts as made: the time of its call, back to the
/// last whole millisecond after `epoch`.
pub open spec fn dated(epoch: Instant, reports: Seq<(u64, Instant)>) -> int {
    let t = reports.last().1;
    if t@ >= epoch@ {
        t@ - (t@ - epoch@) % 1_000_000
    } else {
        epoch@ as int
    }
}

/// Only the last report counts, and only for a time: what was reported last is
/// what is read, and it counts as current exactly as long as no more than `ttl`
/// has passed since it was made.
pub proof fn lemma_only_the_last_report_counts(
    epoch: Instant,
    reports: Seq<(u64, Instant)>,
    now: Instant,
    ttl: Duration,
)
    ensures
        ({
            let p = Playhead::none(epoch).after(reports);
            &&& reports.len() == 0 ==> p.playhead_ms == 0 && p.fresh(now, ttl) is None
            &&& reports.len() > 0 ==> p.playhead_ms == reports.last().0 && p.fresh(now, ttl) == if now@
                - dated(epoch, reports) > ttl@ {
                None::<u64>
            } else {
                Some(reports.last().0)
            }
        }),
{
    lemma_dated(epoch, reports);
}

proof fn lemma_dated(epoch: Instant, reports: Seq<(u64, Instant)>)
    ensures
        ({
            let p = Playhead::none(epoch).after(reports);
            &&& p.epoch == epoch
            &&& reports.len() == 0 ==> p.written_at_ms is None
            &&& reports.len() > 0 ==> (p.written_at_ms matches Some(w) && epoch@ + w
                * NANOS_PER_MILLI == dated(epoch, reports))
        }),
    decreases reports.len(),
{
    if reports.len() > 0 {
        lemma_dated(epoch, reports.drop_last());
        reports.last().1.lemma_bound();
    }
}

/// What an acknowledgement says is left to play: as long as the last report is no
/// older than two seconds, what lies between it and the newest frame, nothing if
/// playback is past that frame, and at most what sixteen bits can say; otherwise
/// what the state machine has.
pub proof fn lemma_what_is_left_to_play(
    epoch: Instant,
    reports: Seq<(u64, Instant)>,
    state_ms: u16,
    newest_data_ms: u64,
    now: Instant,
)
    ensures
        ({
            let left = newest_data_ms - reports.last().0;
            occupancy(Playhead::none(epoch).after(reports), state_ms, newest_data_ms, now)
                == if reports.len() == 0 || now@ - dated(epoch, reports) > 2_000_000_000 {
                state_ms as int
            } else if left < 0 {
                0
            } else if left > 65_535 {
                65_535
            } else {
                left
            }
        }),
{
    lemma_dated(epoch, reports);
}

} // verus!
