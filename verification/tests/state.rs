//! The state machines and the structures they stand on.

use protofish4::config::{ReceiverConfig, RecvMode, SenderConfig};
use protofish4::frame::Body;
use protofish4::time::{Duration, Instant};
use protofish4::types::{RelAbortReason, RelOutcome, TimestampMs, XferSeq};
use protofish4::xfer::{
    GapTracker, RecvEvent, RetransRing, SendEvent, SendFailure, XferReceiver, XferSender,
};

fn start() -> Instant {
    Instant::from_nanos(9_000_000_000_000)
}

fn at_ms(ms: u64) -> Instant {
    start().checked_add(Duration::from_millis(ms)).unwrap()
}

fn seqs(v: Vec<XferSeq>) -> Vec<u32> {
    v.into_iter().map(|s| s.0).collect()
}

fn data(seq: u32, len: usize) -> Body {
    Body::Data { ts: TimestampMs(seq as u64 * 20), payload: vec![seq as u8; len] }
}

fn outcomes(events: &[RecvEvent]) -> Vec<RelOutcome> {
    events
        .iter()
        .filter_map(|e| match e {
            RecvEvent::RelFinished(o) => Some(*o),
            _ => None,
        })
        .collect()
}

fn reliable(events: &[RecvEvent]) -> Vec<u32> {
    events
        .iter()
        .filter_map(|e| match e {
            RecvEvent::Reliable(f) => Some(f.seq.0),
            _ => None,
        })
        .collect()
}

fn played(events: &[RecvEvent]) -> Vec<u32> {
    events
        .iter()
        .filter_map(|e| match e {
            RecvEvent::Unreliable(f) => Some(f.seq.0),
            _ => None,
        })
        .collect()
}

fn nacked(events: &[RecvEvent]) -> Vec<u32> {
    events
        .iter()
        .flat_map(|e| match e {
            RecvEvent::SendNack { missing } => missing.iter().map(|s| s.0).collect(),
            _ => Vec::new(),
        })
        .collect()
}

#[test]
fn gaps_are_tracked_between_the_prefix_and_the_highest_arrival() {
    let mut g = GapTracker::default();
    assert!(!g.record(XferSeq(0)), "zero is no sequence number");
    assert!(g.record(XferSeq(1)));
    assert!(g.record(XferSeq(4)));
    assert!(g.record(XferSeq(7)));
    assert!(!g.record(XferSeq(4)));
    assert!(!g.record(XferSeq(1)));
    assert_eq!(seqs(g.missing(10)), vec![2, 3, 5, 6]);
    assert_eq!(seqs(g.missing(3)), vec![2, 3, 5]);
    assert_eq!(seqs(g.missing(0)), Vec::<u32>::new());
    assert_eq!((g.contiguous(), g.highest(), g.window_span()), (XferSeq(1), XferSeq(7), 6));
    assert!(g.record(XferSeq(3)));
    assert!(g.record(XferSeq(2)));
    assert_eq!(g.contiguous(), XferSeq(4));
    assert!(g.is_complete(XferSeq(4)) && !g.is_complete(XferSeq(5)));
    g.abandon();
    assert_eq!((g.contiguous(), g.highest()), (XferSeq(7), XferSeq(7)));
    assert_eq!(seqs(g.missing(10)), Vec::<u32>::new());
    assert!(!g.record(XferSeq(5)), "what was missing is no longer news");
    assert!(g.record(XferSeq(8)));
    assert_eq!(g.contiguous(), XferSeq(8));
}

#[test]
fn gaps_reach_up_to_the_largest_number() {
    let mut g = GapTracker::new();
    assert!(g.record(XferSeq(u32::MAX)));
    assert_eq!(seqs(g.missing(2)), vec![1, 2]);
    assert_eq!(g.window_span(), u32::MAX);
    assert!(!g.record(XferSeq(u32::MAX)));
}

#[test]
fn the_ring_keeps_to_both_budgets() {
    let mut r = RetransRing::new(3, 10);
    assert!(r.is_empty());
    r.push(XferSeq(1), vec![1; 4]);
    r.push(XferSeq(2), vec![2; 4]);
    assert_eq!((r.len(), r.bytes(), r.lost_below()), (2, 8, XferSeq(0)));
    r.push(XferSeq(3), vec![3; 4]);
    assert_eq!((r.len(), r.bytes(), r.lost_below()), (2, 8, XferSeq(1)));
    assert_eq!(r.get(XferSeq(1)), None);
    assert_eq!(r.get(XferSeq(3)), Some(&[3u8, 3, 3, 3][..]));
    r.push(XferSeq(4), vec![4; 1]);
    r.push(XferSeq(5), vec![5; 1]);
    assert_eq!((r.len(), r.bytes(), r.lost_below()), (3, 6, XferSeq(2)));
    r.ack_through(XferSeq(4));
    assert_eq!((r.len(), r.bytes(), r.lost_below()), (1, 1, XferSeq(4)));
    // One that is too large for the ring leaves nothing behind.
    r.push(XferSeq(6), vec![6; 11]);
    assert_eq!((r.len(), r.bytes(), r.lost_below()), (0, 0, XferSeq(6)));
}

#[test]
fn a_ring_of_no_size_holds_one_byte() {
    let mut r = RetransRing::new(0, 0);
    r.push(XferSeq(1), vec![1]);
    assert_eq!((r.len(), r.bytes()), (1, 1));
    r.push(XferSeq(2), vec![2]);
    assert_eq!(r.get(XferSeq(1)), None);
    assert_eq!(r.get(XferSeq(2)), Some(&[2u8][..]));
}

#[test]
fn the_backoff_repeats_its_last_entry() {
    let cfg = ReceiverConfig::audio_engine();
    let ms: Vec<u128> = [0u8, 1, 2, 3, 255]
        .iter()
        .map(|a| cfg.nack_delay(*a).as_nanos() / 1_000_000)
        .collect();
    assert_eq!(ms, vec![30, 100, 300, 300, 300]);
    let cfg = ReceiverConfig { nack_backoff: vec![], ..ReceiverConfig::audio_engine() };
    assert_eq!(cfg.nack_delay(0), Duration::from_millis(100));
    assert!(RecvMode::Dual.wants_unrel() && !RecvMode::RelOnly.wants_unrel());
}

#[test]
fn the_presets_hold_the_documented_numbers() {
    let c = ReceiverConfig::cache_worker();
    assert_eq!((c.reorder_window, c.max_reorder_bytes, c.max_nack_attempts), (65_536, 32 << 20, 12));
    let ms: Vec<u128> = c.nack_backoff.iter().map(|d| d.as_nanos() / 1_000_000).collect();
    assert_eq!(ms, vec![50, 200, 500, 1000, 2000]);
    assert_eq!(c.rel_stall_timeout, Duration::from_secs(60));
    assert_eq!(c.idle_timeout, Duration::from_secs(30));
    assert_eq!(c.ack_interval, Duration::from_millis(500));
    let s = SenderConfig::default();
    assert_eq!((s.retrans_ring_frames, s.retrans_ring_bytes, s.max_outstanding), (1024, 1 << 20, 512));
    assert_eq!((s.buffer_high_water_ms, s.buffer_low_water_ms), (10_000, 5_000));
    assert_eq!(s.first_ack_timeout, Duration::from_secs(2));
    assert_eq!(s.tail_keepalive_interval, Duration::from_secs(5));
    assert_eq!(s.finalize_timeout, Duration::from_secs(30));
}

/// A gap is asked for at once, then after each delay, and given up after the
/// last allowed request.
#[test]
fn a_gap_is_asked_for_as_often_as_allowed() {
    let mut rx = XferReceiver::new(ReceiverConfig::audio_engine(), start());
    rx.handle(XferSeq(1), data(1, 4), start());
    rx.handle(XferSeq(3), data(3, 4), start());
    assert_eq!(nacked(&rx.tick(at_ms(1))), vec![2]);
    assert!(nacked(&rx.tick(at_ms(100))).is_empty());
    assert_eq!(nacked(&rx.tick(at_ms(101))), vec![2]);
    assert!(nacked(&rx.tick(at_ms(400))).is_empty());
    let last = rx.tick(at_ms(401));
    assert_eq!(nacked(&last), vec![2]);
    assert!(outcomes(&last).is_empty());
    let over = rx.tick(at_ms(402));
    assert_eq!(outcomes(&over), vec![RelOutcome::Aborted(RelAbortReason::UnrecoverableGap)]);
    assert!(nacked(&rx.tick(at_ms(5_000))).is_empty(), "giving up ends the requests");
}

#[test]
fn one_request_names_at_most_what_fits_a_packet() {
    let mut rx = XferReceiver::new(ReceiverConfig::audio_engine(), start());
    rx.handle(XferSeq(500), data(500, 4), start());
    let asked = nacked(&rx.tick(at_ms(1)));
    assert_eq!(asked, (1..=128).collect::<Vec<_>>());
}

/// Packets keep arriving, but the prefix does not move.
#[test]
fn a_prefix_that_will_not_advance_is_a_stall() {
    let cfg = ReceiverConfig { max_nack_attempts: 255, ..ReceiverConfig::audio_engine() };
    let mut rx = XferReceiver::new(cfg, start());
    rx.handle(XferSeq(1), data(1, 4), start());
    let mut seq = 3u32;
    for s in 1..=5u64 {
        rx.handle(XferSeq(seq), data(seq, 4), at_ms(s * 1000));
        seq += 1;
        assert!(outcomes(&rx.tick(at_ms(s * 1000))).is_empty());
    }
    let events = rx.tick(at_ms(5_001));
    assert_eq!(outcomes(&events), vec![RelOutcome::Aborted(RelAbortReason::Stalled)]);
    // Playback goes on.
    assert_eq!(played(&rx.handle(XferSeq(9), data(9, 4), at_ms(5_100))), vec![9]);
}

/// Silence is not a stall: it is left to the idle timeout.
#[test]
fn silence_is_not_a_stall() {
    let mut rx = XferReceiver::new(ReceiverConfig::audio_engine(), start());
    rx.handle(XferSeq(1), data(1, 4), start());
    assert!(outcomes(&rx.tick(at_ms(6_000))).is_empty());
    assert!(outcomes(&rx.tick(at_ms(15_000))).is_empty());
    let events = rx.tick(at_ms(15_001));
    assert_eq!(outcomes(&events), vec![RelOutcome::Aborted(RelAbortReason::PeerGone)]);
    assert!(rx.is_closed());
    assert!(rx.tick(at_ms(60_000)).is_empty(), "closed is final");
}

#[test]
fn the_byte_limit_ends_the_reliable_stream_only() {
    let cfg = ReceiverConfig { max_reorder_bytes: 10, ..ReceiverConfig::audio_engine() };
    let mut rx = XferReceiver::new(cfg, start());
    assert!(outcomes(&rx.handle(XferSeq(2), data(2, 10), start())).is_empty());
    let events = rx.handle(XferSeq(3), data(3, 1), start());
    assert_eq!(outcomes(&events), vec![RelOutcome::Aborted(RelAbortReason::BufferExhausted)]);
    assert_eq!(played(&events), vec![3]);
    assert!(reliable(&rx.handle(XferSeq(1), data(1, 1), start())).is_empty());
}

/// Whatever order frames arrive in, and however often, the cache gets each once,
/// in order, and unchanged.
#[test]
fn the_cache_copy_is_exact_under_reordering_and_repeats() {
    let mut rx = XferReceiver::new(ReceiverConfig::cache_worker(), start());
    let mut all = Vec::new();
    for seq in [5u32, 1, 1, 3, 2, 5, 6, 4, 2] {
        all.extend(rx.handle(XferSeq(seq), data(seq, seq as usize), start()));
    }
    all.extend(rx.handle(XferSeq(1), Body::End { final_seq: XferSeq(6) }, start()));
    let frames: Vec<(u32, u64, Vec<u8>)> = all
        .iter()
        .filter_map(|e| match e {
            RecvEvent::Reliable(f) => Some((f.seq.0, f.ts.0, f.payload.clone())),
            _ => None,
        })
        .collect();
    let want: Vec<(u32, u64, Vec<u8>)> =
        (1..=6u32).map(|s| (s, s as u64 * 20, vec![s as u8; s as usize])).collect();
    assert_eq!(frames, want);
    assert_eq!(outcomes(&all), vec![RelOutcome::Complete { final_seq: XferSeq(6) }]);
    let ends = all.iter().filter(|e| **e == RecvEvent::SendEndAck).count();
    let closes = all.iter().filter(|e| **e == RecvEvent::Closed).count();
    assert_eq!((ends, closes), (1, 1));
}

#[test]
fn an_end_that_comes_first_waits_for_the_frames() {
    let mut rx = XferReceiver::new(ReceiverConfig::cache_worker(), start());
    assert!(rx.handle(XferSeq(1), Body::End { final_seq: XferSeq(2) }, start()).is_empty());
    assert!(outcomes(&rx.handle(XferSeq(1), data(1, 1), start())).is_empty());
    let events = rx.handle(XferSeq(2), data(2, 1), start());
    assert_eq!(reliable(&events), vec![2]);
    assert_eq!(outcomes(&events), vec![RelOutcome::Complete { final_seq: XferSeq(2) }]);
    assert!(rx.is_closed());
}

#[test]
fn an_empty_transfer_completes_at_once() {
    let mut rx = XferReceiver::new(ReceiverConfig::cache_worker(), start());
    let events = rx.handle(XferSeq(1), Body::End { final_seq: XferSeq(0) }, start());
    assert_eq!(
        events,
        vec![
            RecvEvent::RelFinished(RelOutcome::Complete { final_seq: XferSeq(0) }),
            RecvEvent::SendEndAck,
            RecvEvent::Closed,
        ]
    );
}

/// The tail is confirmed even after the reliable stream has been given up, once
/// the prefix has reached the end.
#[test]
fn an_aborted_stream_still_confirms_a_whole_transfer() {
    let mut rx = XferReceiver::new(ReceiverConfig::audio_engine(), start());
    rx.handle(XferSeq(2), data(2, 1), start());
    let events = rx.handle(XferSeq(1), Body::Keepalive { lost_below: XferSeq(1) }, start());
    assert_eq!(outcomes(&events), vec![RelOutcome::Aborted(RelAbortReason::SenderDiscarded)]);
    rx.handle(XferSeq(1), data(1, 1), start());
    rx.handle(XferSeq(2), data(2, 1), start());
    let events = rx.handle(XferSeq(2), Body::End { final_seq: XferSeq(2) }, start());
    assert_eq!(events, vec![RecvEvent::SendEndAck, RecvEvent::Closed]);
}

/// Playback never sees a duplicate, not even after the reliable stream has been
/// given up, and the frames that were missing still reach it.
#[test]
fn giving_up_does_not_repeat_anything_to_playback() {
    let mut rx = XferReceiver::new(ReceiverConfig::audio_engine(), start());
    let mut all = Vec::new();
    for seq in [1u32, 2, 6] {
        all.extend(rx.handle(XferSeq(seq), data(seq, 1), start()));
    }
    all.extend(rx.handle(XferSeq(1), Body::Keepalive { lost_below: XferSeq(5) }, start()));
    assert_eq!(outcomes(&all), vec![RelOutcome::Aborted(RelAbortReason::SenderDiscarded)]);
    for seq in [6u32, 3, 6, 3, 7, 1] {
        all.extend(rx.handle(XferSeq(seq), data(seq, 1), start()));
    }
    assert_eq!(played(&all), vec![1, 2, 6, 3, 7]);
    assert_eq!(reliable(&all), vec![1, 2]);
    // The acknowledgement goes by what has really arrived.
    assert_eq!(
        rx.tick(at_ms(200)),
        vec![RecvEvent::SendAck { contiguous: XferSeq(3), highest: XferSeq(7), buffered_ms: 0 }]
    );
}

/// The first frame received under a number is the one that counts.
#[test]
fn the_first_arrival_under_a_number_counts() {
    let mut rx = XferReceiver::new(ReceiverConfig::audio_engine(), start());
    let mut all = rx.handle(XferSeq(2), data(2, 3), start());
    all.extend(rx.handle(XferSeq(2), data(2, 9), start()));
    all.extend(rx.handle(XferSeq(1), data(1, 1), start()));
    let lens: Vec<usize> = all
        .iter()
        .filter_map(|e| match e {
            RecvEvent::Reliable(f) => Some(f.payload.len()),
            _ => None,
        })
        .collect();
    assert_eq!(lens, vec![1, 3]);
}

/// Above what it reports as lost, a ring has every frame that was stored.
#[test]
fn a_ring_has_what_it_has_not_lost() {
    let mut r = RetransRing::new(4, 1_000);
    for s in 1..=9u32 {
        r.push(XferSeq(s), vec![s as u8; s as usize]);
        if s == 3 {
            r.ack_through(XferSeq(2));
        }
        for k in 1..=s {
            let want = vec![k as u8; k as usize];
            let held = r.get(XferSeq(k)).map(|d| d.to_vec());
            assert_eq!(held, if k > r.lost_below().0 { Some(want) } else { None });
        }
    }
    assert_eq!(r.lost_below(), XferSeq(5));
}

/// The window goes by the greatest number that any acknowledgement reported.
#[test]
fn a_late_acknowledgement_does_not_narrow_the_window() {
    let cfg = SenderConfig { max_outstanding: 2, ..SenderConfig::default() };
    let mut tx = XferSender::new(cfg);
    for _ in 0..2 {
        tx.push_frame(TimestampMs(0), vec![1], start()).unwrap();
    }
    assert!(!tx.can_send());
    for highest in [2u32, 1] {
        tx.handle(
            Body::Ack { contiguous: XferSeq(1), highest: XferSeq(highest), buffered_ms: 0 },
            start(),
        );
        assert!(tx.can_send());
    }
}

#[test]
fn the_reported_occupancy_is_clamped() {
    let mut rx = XferReceiver::new(ReceiverConfig::audio_engine(), start());
    rx.handle(XferSeq(1), data(1, 1), start());
    rx.set_buffered_ms(1_000_000);
    let events = rx.tick(at_ms(200));
    assert_eq!(
        events,
        vec![RecvEvent::SendAck {
            contiguous: XferSeq(1),
            highest: XferSeq(1),
            buffered_ms: u16::MAX
        }]
    );
    assert!(rx.tick(at_ms(399)).is_empty(), "not due yet");
}

#[test]
fn acknowledgements_travelling_the_wrong_way_are_ignored() {
    let mut rx = XferReceiver::new(ReceiverConfig::audio_engine(), start());
    assert!(rx.handle(XferSeq(1), Body::EndAck, start()).is_empty());
    assert!(rx.handle(XferSeq(1), Body::Nack { missing: vec![] }, start()).is_empty());
    let mut tx = XferSender::new(SenderConfig::default());
    assert!(tx.handle(data(1, 1), start()).is_empty());
    assert!(tx.handle(Body::Keepalive { lost_below: XferSeq(1) }, start()).is_empty());
}

#[test]
fn a_sender_that_gave_up_sends_nothing_more() {
    let mut tx = XferSender::new(SenderConfig::default());
    tx.push_frame(TimestampMs(0), vec![1], start()).unwrap();
    tx.record_sealed(XferSeq(1), b"one".to_vec());
    assert_eq!(tx.outcome(), None);
    assert_eq!(tx.tick(at_ms(2_001)), vec![SendEvent::Failed(SendFailure::NoAck)]);
    assert_eq!(tx.outcome(), Some(Err(SendFailure::NoAck)));
    assert!(tx.handle(Body::Nack { missing: vec![XferSeq(1)] }, at_ms(2_100)).is_empty());
    assert!(tx.push_frame(TimestampMs(0), vec![1], at_ms(2_100)).is_none());
    assert!(tx.finish(at_ms(2_100)).is_none());
    assert!(tx.tick(at_ms(60_000)).is_empty());
}

#[test]
fn waiting_for_the_confirmation_ends() {
    let mut tx = XferSender::new(SenderConfig::default());
    tx.push_frame(TimestampMs(0), vec![1], start()).unwrap();
    tx.handle(
        Body::Ack { contiguous: XferSeq(1), highest: XferSeq(1), buffered_ms: 0 },
        start(),
    );
    tx.finish(start()).unwrap();
    assert!(tx.finish(start()).is_none(), "the end is announced once");
    let events = tx.tick(at_ms(30_000));
    assert!(matches!(events[0], SendEvent::Emit { body: Body::Keepalive { .. }, .. }));
    assert_eq!(tx.tick(at_ms(30_001)), vec![SendEvent::Failed(SendFailure::FinalizeTimeout)]);
    assert!(tx.is_done());
}

/// Payload and control packets are numbered separately, each from one.
#[test]
fn control_packets_have_a_count_of_their_own() {
    let cfg = SenderConfig {
        tail_keepalive_interval: Duration::from_secs(1),
        ..SenderConfig::default()
    };
    let mut tx = XferSender::new(cfg);
    for _ in 0..3 {
        tx.push_frame(TimestampMs(0), vec![1], start()).unwrap();
    }
    tx.handle(
        Body::Ack { contiguous: XferSeq(3), highest: XferSeq(3), buffered_ms: 20_000 },
        start(),
    );
    let mut seen = Vec::new();
    for ms in [0u64, 1_000, 2_000] {
        for ev in tx.tick(at_ms(ms)) {
            if let SendEvent::Emit { seq, body: Body::Keepalive { lost_below } } = ev {
                seen.push((seq.0, lost_below.0));
            }
        }
    }
    let Some(SendEvent::Emit { seq, body: Body::End { final_seq } }) = tx.finish(at_ms(2_000))
    else {
        panic!("finish emits End");
    };
    seen.push((seq.0, final_seq.0));
    assert_eq!(seen, vec![(1, 3), (2, 3), (3, 3), (4, 3)]);
}

#[test]
fn instants_and_durations_count_nanoseconds() {
    let t = Instant::from_nanos(5);
    assert_eq!(t.as_nanos(), 5);
    assert_eq!(t.checked_add(Duration::from_nanos(u64::MAX as u128)), None);
    assert_eq!(t.checked_add(Duration::from_secs(1)), Some(Instant::from_nanos(1_000_000_005)));
    assert_eq!(t.duration_since(Instant::from_nanos(2)), Duration::from_nanos(3));
    assert_eq!(Instant::from_nanos(2).duration_since(t), Duration::from_nanos(0));
    assert_eq!(Duration::from_millis(3), Duration::from_nanos(3_000_000));
}
