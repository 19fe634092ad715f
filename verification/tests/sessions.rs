//! A tap and a sink, talking through datagrams.

use protofish4::config::{ReceiverConfig, SenderConfig};
use protofish4::crypto::SessionKey;
use protofish4::feedback::BufferFeedback;
use protofish4::frame::Body;
use protofish4::packet::{open_body, seal_body};
use protofish4::sink::{DuplicateRequest, SinkAction, SinkSession, SinkStep, SinkTable};
use protofish4::tap::{TapAction, TapSession};
use protofish4::time::{Duration, Instant};
use protofish4::{
    Direction, Error, Header, RecvEvent, RelOutcome, RequestId, SendEvent, SendFailure, TimestampMs, XferSeq,
};

const ID: RequestId = RequestId(0x1234);
const TAP: u16 = 40_001;

fn key() -> SessionKey {
    SessionKey::from_bytes(&[3u8; 32]).unwrap()
}

fn at_ms(ms: u64) -> Instant {
    Instant::from_nanos(1_000_000_000_000).checked_add(Duration::from_millis(ms)).unwrap()
}

fn feedback() -> BufferFeedback {
    BufferFeedback::new(at_ms(0))
}

fn packet(body: &Body, seq: u32, dir: Direction) -> Vec<u8> {
    seal_body(&key(), Header::new(body.kind(), ID, seq), dir, body).unwrap()
}

fn payload(seq: u32) -> Vec<u8> {
    vec![seq as u8; 20 + (seq as usize % 7)]
}

fn table(cfg: ReceiverConfig) -> SinkTable<u16> {
    let mut t = SinkTable::new();
    t.arm(ID, key(), cfg, at_ms(0)).unwrap();
    t
}

fn replies(step: &SinkStep<u16>) -> Vec<Vec<u8>> {
    step.actions
        .iter()
        .filter_map(|a| match a {
            SinkAction::Reply(d) => Some(d.clone()),
            _ => None,
        })
        .collect()
}

fn transmit(tap: &mut TapSession, ev: SendEvent) -> Vec<u8> {
    match tap.prepare(ev).unwrap() {
        TapAction::Transmit { datagram, record } => {
            if let Some(seq) = record {
                tap.record(seq, datagram.clone());
            }
            datagram
        }
        other => panic!("expected a datagram, got {other:?}"),
    }
}

/// Every fourth datagram is lost once; the cache copy is exact all the same.
#[test]
fn a_lossy_path_delivers_an_exact_cache_copy() {
    let mut sink = table(ReceiverConfig::audio_engine());
    let mut tap = TapSession::new(ID, key(), SenderConfig::default());
    let n = 41u32;
    let mut cache = Vec::new();
    let mut played = Vec::new();
    let mut outcome = None;
    let mut to_tap: Vec<Vec<u8>> = Vec::new();

    let mut take = |step: Option<SinkStep<u16>>, to_tap: &mut Vec<Vec<u8>>| {
        let Some(step) = step else { return false };
        for a in step.actions {
            match a {
                SinkAction::Cache(f) => cache.push((f.seq.0, f.ts.0, f.payload)),
                SinkAction::Playback(f) => played.push(f.seq.0),
                SinkAction::Reply(d) => to_tap.push(d),
                SinkAction::Outcome(o) => outcome = Some(o),
            }
        }
        step.finished
    };

    for seq in 1..=n {
        let now = at_ms(seq as u64 * 20);
        let ev = tap.push_frame(TimestampMs(seq as u64 * 20), payload(seq), now).unwrap();
        let datagram = transmit(&mut tap, ev);
        if seq % 4 != 0 {
            take(sink.on_datagram(&datagram, TAP, &feedback(), now), &mut to_tap);
        }
    }
    let mut now_ms = n as u64 * 20;
    let end = tap.finish(at_ms(now_ms)).unwrap();
    let datagram = transmit(&mut tap, end);
    take(sink.on_datagram(&datagram, TAP, &feedback(), at_ms(now_ms)), &mut to_tap);

    while !tap.is_done() {
        now_ms += 20;
        assert!(now_ms < 20_000, "the transfer must end");
        take(sink.tick(ID, &feedback(), at_ms(now_ms)), &mut to_tap);
        for d in std::mem::take(&mut to_tap) {
            for ev in tap.on_datagram(&d, at_ms(now_ms)) {
                if let SendEvent::Resend { datagrams } = ev {
                    for d in datagrams {
                        if take(sink.on_datagram(&d, TAP, &feedback(), at_ms(now_ms)), &mut to_tap) {
                            sink.disarm(ID);
                        }
                    }
                }
            }
        }
    }

    let want: Vec<(u32, u64, Vec<u8>)> =
        (1..=n).map(|s| (s, s as u64 * 20, payload(s))).collect();
    assert_eq!(cache, want);
    assert_eq!(outcome, Some(RelOutcome::Complete { final_seq: XferSeq(n) }));
    played.sort();
    assert_eq!(played, (1..=n).collect::<Vec<_>>());
    assert!(!sink.is_armed(ID));
}

#[test]
fn arming_twice_is_refused() {
    let mut t = table(ReceiverConfig::audio_engine());
    let again = t.arm(ID, key(), ReceiverConfig::cache_worker(), at_ms(1));
    assert_eq!(again, Err(DuplicateRequest(ID)));
    t.arm(RequestId(7), key(), ReceiverConfig::cache_worker(), at_ms(1)).unwrap();
    assert_eq!(t.ids(), vec![RequestId(7), ID]);
    t.disarm(ID);
    t.disarm(ID);
    assert_eq!(t.ids(), vec![RequestId(7)]);
    assert!(t.arm(ID, key(), ReceiverConfig::audio_engine(), at_ms(2)).is_ok());
}

#[test]
fn strays_are_dropped_without_ceremony() {
    let mut t = table(ReceiverConfig::audio_engine());
    let fb = feedback();
    let data = Body::Data { ts: TimestampMs(0), payload: vec![1] };
    assert!(t.on_datagram(b"short", TAP, &fb, at_ms(0)).is_none());
    let stranger = seal_body(
        &key(),
        Header::new(data.kind(), RequestId(99), 1),
        Direction::Send,
        &data,
    )
    .unwrap();
    assert!(t.on_datagram(&stranger, TAP, &fb, at_ms(0)).is_none());
    let other = SessionKey::from_bytes(&[4u8; 32]).unwrap();
    let forged =
        seal_body(&other, Header::new(data.kind(), ID, 1), Direction::Send, &data).unwrap();
    assert!(t.on_datagram(&forged, TAP, &fb, at_ms(0)).is_none());
    assert!(t.tick(RequestId(99), &fb, at_ms(0)).is_none());
    // None of them has fixed the peer.
    let good = packet(&data, 1, Direction::Send);
    let step = t.on_datagram(&good, 1, &fb, at_ms(0)).unwrap();
    assert_eq!(step.peer, Some(1));
}

#[test]
fn the_first_authentic_source_is_pinned() {
    let mut t = table(ReceiverConfig::audio_engine());
    let fb = feedback();
    let first = packet(&Body::Data { ts: TimestampMs(0), payload: vec![1] }, 1, Direction::Send);
    let second = packet(&Body::Data { ts: TimestampMs(0), payload: vec![2] }, 2, Direction::Send);
    assert_eq!(t.on_datagram(&first, 10, &fb, at_ms(0)).unwrap().peer, Some(10));
    assert_eq!(t.on_datagram(&second, 20, &fb, at_ms(0)).unwrap().peer, Some(10));
    assert_eq!(t.tick(ID, &fb, at_ms(1)).unwrap().peer, Some(10));
}

/// A captured control packet counts once; a repeated payload frame is let
/// through and recognised by its number instead.
#[test]
fn a_replayed_control_packet_changes_nothing() {
    let mut t = table(ReceiverConfig::audio_engine());
    let fb = feedback();
    let keepalive = packet(&Body::Keepalive { lost_below: XferSeq(0) }, 1, Direction::Send);
    assert!(t.on_datagram(&keepalive, TAP, &fb, at_ms(0)).is_some());
    assert!(t.on_datagram(&keepalive, TAP, &fb, at_ms(10_000)).is_none());
    // It has not counted as a sign of life either.
    let step = t.tick(ID, &fb, at_ms(15_001)).unwrap();
    assert!(step.finished);

    let mut t = table(ReceiverConfig::audio_engine());
    let data = packet(&Body::Data { ts: TimestampMs(0), payload: vec![1] }, 1, Direction::Send);
    assert_eq!(t.on_datagram(&data, TAP, &fb, at_ms(0)).unwrap().actions.len(), 2);
    assert_eq!(t.on_datagram(&data, TAP, &fb, at_ms(0)).unwrap().actions.len(), 0);

    let mut tap = TapSession::new(ID, key(), SenderConfig::default());
    let ev = tap.push_frame(TimestampMs(0), vec![5], at_ms(0)).unwrap();
    let sealed = transmit(&mut tap, ev);
    let nack = packet(&Body::Nack { missing: vec![XferSeq(1)] }, 0, Direction::Recv);
    assert_eq!(
        tap.on_datagram(&nack, at_ms(1)),
        vec![SendEvent::Resend { datagrams: vec![sealed] }]
    );
    assert!(tap.on_datagram(&nack, at_ms(2)).is_empty());
}

/// A replay is refused however much has happened since, and whoever sends it.
#[test]
fn a_replay_is_refused_after_other_traffic() {
    let mut t = table(ReceiverConfig::audio_engine());
    let fb = feedback();
    let first = packet(&Body::Keepalive { lost_below: XferSeq(0) }, 7, Direction::Send);
    assert!(t.on_datagram(&first, TAP, &fb, at_ms(0)).is_some());
    for n in 1..=30u32 {
        let data = Body::Data { ts: TimestampMs(n as u64), payload: vec![n as u8] };
        let alive = Body::Keepalive { lost_below: XferSeq(0) };
        assert!(t.on_datagram(&packet(&data, n, Direction::Send), TAP, &fb, at_ms(n as u64)).is_some());
        let other = packet(&alive, 100 + n * 50, Direction::Send);
        assert!(t.on_datagram(&other, TAP, &fb, at_ms(n as u64)).is_some());
        t.tick(ID, &fb, at_ms(n as u64)).unwrap();
        assert!(t.on_datagram(&first, 9, &fb, at_ms(n as u64)).is_none());
    }
}

/// The end may come before the frames that it declares; the one that fills the
/// last gap completes the transfer, and the tap can read the confirmation.
#[test]
fn a_recovered_tail_completes_the_transfer() {
    let mut t = table(ReceiverConfig::cache_worker());
    let fb = feedback();
    let data = |n: u32| {
        packet(&Body::Data { ts: TimestampMs(0), payload: vec![n as u8] }, n, Direction::Send)
    };
    let end = packet(&Body::End { final_seq: XferSeq(3) }, 1, Direction::Send);
    t.on_datagram(&data(1), TAP, &fb, at_ms(0)).unwrap();
    t.on_datagram(&end, TAP, &fb, at_ms(0)).unwrap();
    t.on_datagram(&data(3), TAP, &fb, at_ms(0)).unwrap();
    let step = t.on_datagram(&data(2), TAP, &fb, at_ms(0)).unwrap();
    assert!(step.finished);
    let seqs: Vec<u32> = step
        .actions
        .iter()
        .filter_map(|a| match a {
            SinkAction::Cache(f) => Some(f.seq.0),
            _ => None,
        })
        .collect();
    assert_eq!(seqs, vec![2, 3]);
    assert_eq!(
        step.actions[2],
        SinkAction::Outcome(RelOutcome::Complete { final_seq: XferSeq(3) })
    );
    let (header, body) = open_body(&key(), &replies(&step)[0], Direction::Recv).unwrap();
    assert_eq!((header.seq, header.request_id, body), (0, ID, Body::EndAck));
}

/// Replies are counted from zero, travel towards the tap, and carry the id.
#[test]
fn replies_open_on_the_other_side() {
    let mut t = table(ReceiverConfig::audio_engine());
    let mut fb = feedback();
    fb.set_playhead_ms(1_000, at_ms(0));
    let data = packet(&Body::Data { ts: TimestampMs(3_500), payload: vec![1] }, 1, Direction::Send);
    let gap = packet(&Body::Data { ts: TimestampMs(2_000), payload: vec![1] }, 3, Direction::Send);
    t.on_datagram(&data, TAP, &fb, at_ms(0)).unwrap();
    t.on_datagram(&gap, TAP, &fb, at_ms(0)).unwrap();
    let step = t.tick(ID, &fb, at_ms(200)).unwrap();
    let bodies: Vec<(Header, Body)> = replies(&step)
        .iter()
        .map(|d| open_body(&key(), d, Direction::Recv).unwrap())
        .collect();
    assert_eq!(bodies.len(), 2);
    assert_eq!(bodies[0].0.seq, 0);
    assert_eq!(bodies[0].1, Body::Nack { missing: vec![XferSeq(2)] });
    assert_eq!(bodies[1].0.seq, 1);
    assert_eq!(bodies[1].0.request_id, ID);
    assert_eq!(
        bodies[1].1,
        Body::Ack { contiguous: XferSeq(1), highest: XferSeq(3), buffered_ms: 2_500 }
    );
}

#[test]
fn dropped_frames_are_counted_and_complained_about_every_five_seconds() {
    let mut t = table(ReceiverConfig::audio_engine());
    assert_eq!(t.note_dropped(ID, at_ms(0)), Some(1));
    assert_eq!(t.note_dropped(ID, at_ms(4_999)), None);
    assert_eq!(t.note_dropped(ID, at_ms(5_000)), Some(3));
    assert_eq!(t.note_dropped(RequestId(99), at_ms(5_000)), None);
}

#[test]
fn a_finished_transfer_says_so() {
    let mut t = table(ReceiverConfig::cache_worker());
    let fb = feedback();
    let data = packet(&Body::Data { ts: TimestampMs(0), payload: vec![1] }, 1, Direction::Send);
    let end = packet(&Body::End { final_seq: XferSeq(1) }, 1, Direction::Send);
    assert!(!t.on_datagram(&data, TAP, &fb, at_ms(0)).unwrap().finished);
    let step = t.on_datagram(&end, TAP, &fb, at_ms(0)).unwrap();
    assert!(step.finished);
    assert_eq!(
        step.actions[0],
        SinkAction::Outcome(RelOutcome::Complete { final_seq: XferSeq(1) })
    );
    let (header, body) = open_body(&key(), &replies(&step)[0], Direction::Recv).unwrap();
    assert_eq!((header.seq, body), (0, Body::EndAck));
}

#[test]
fn a_tap_turns_events_into_datagrams() {
    let mut tap = TapSession::new(ID, key(), SenderConfig::default());
    assert!(tap.can_send());
    let big = tap.push_frame(TimestampMs(0), vec![0; 2_000], at_ms(0)).unwrap();
    assert_eq!(
        tap.prepare(big).unwrap_err(),
        Error::PayloadTooLarge { got: 2_000, max: 1_024 }
    );
    let ev = tap.push_frame(TimestampMs(20), vec![6, 7], at_ms(0)).unwrap();
    let TapAction::Transmit { datagram, record } = tap.prepare(ev).unwrap() else {
        panic!("a frame is transmitted");
    };
    assert_eq!(record, Some(XferSeq(2)));
    let (header, body) = open_body(&key(), &datagram, Direction::Send).unwrap();
    assert_eq!((header.seq, header.request_id), (2, ID));
    assert_eq!(body, Body::Data { ts: TimestampMs(20), payload: vec![6, 7] });

    let end = tap.finish(at_ms(0)).unwrap();
    assert!(matches!(tap.prepare(end), Ok(TapAction::Transmit { record: None, .. })));
    assert_eq!(tap.prepare(SendEvent::Completed).unwrap(), TapAction::Completed);
    assert_eq!(
        tap.prepare(SendEvent::Resend { datagrams: vec![vec![1]] }).unwrap(),
        TapAction::Retransmit { datagrams: vec![vec![1]] }
    );
    let failed = tap.tick(at_ms(2_001));
    assert_eq!(failed, vec![SendEvent::Failed(SendFailure::NoAck)]);
    assert_eq!(
        tap.prepare(failed[0].clone()).unwrap(),
        TapAction::Failed(SendFailure::NoAck)
    );
}

#[test]
fn a_tap_ignores_what_it_cannot_open() {
    let mut tap = TapSession::new(ID, key(), SenderConfig::default());
    let mut end_ack = packet(&Body::EndAck, 5, Direction::Recv);
    end_ack[30] ^= 1;
    assert!(tap.on_datagram(&end_ack, at_ms(0)).is_empty());
    assert!(!tap.is_done());
    end_ack[30] ^= 1;
    assert_eq!(tap.outcome(), None);
    assert_eq!(tap.on_datagram(&end_ack, at_ms(0)), vec![SendEvent::Completed]);
    assert!(tap.is_done());
    assert_eq!(tap.outcome(), Some(Ok(())));
}

/// A tap that gave up says so, also when it is asked again, and a confirmation
/// that comes too late does not turn that into a success.
#[test]
fn a_failed_tap_stays_failed() {
    let mut tap = TapSession::new(ID, key(), SenderConfig::default());
    let ev = tap.push_frame(TimestampMs(0), vec![1], at_ms(0)).unwrap();
    transmit(&mut tap, ev);
    tap.tick(at_ms(2_001));
    assert_eq!(tap.outcome(), Some(Err(SendFailure::NoAck)));
    assert!(tap.finish(at_ms(2_002)).is_none());
    tap.on_datagram(&packet(&Body::EndAck, 0, Direction::Recv), at_ms(2_003));
    assert_eq!(tap.outcome(), Some(Err(SendFailure::NoAck)));
}

/// Reply counters go on from one call to the next, and one outcome is told.
#[test]
fn replies_are_counted_over_all_calls() {
    let mut s: SinkSession<u16> = SinkSession::new(key(), ReceiverConfig::audio_engine(), at_ms(0));
    let mut counters = Vec::new();
    let mut told = Vec::new();
    for n in 0..3u32 {
        let events = vec![
            RecvEvent::SendNack { missing: vec![XferSeq(n + 1)] },
            RecvEvent::RelFinished(RelOutcome::Complete { final_seq: XferSeq(n) }),
            RecvEvent::SendEndAck,
        ];
        for a in s.apply(ID, events, &feedback(), at_ms(n as u64)) {
            match a {
                SinkAction::Reply(d) => {
                    counters.push(open_body(&key(), &d, Direction::Recv).unwrap().0.seq)
                }
                SinkAction::Outcome(o) => told.push(o),
                other => panic!("unexpected {other:?}"),
            }
        }
    }
    assert_eq!(counters, vec![0, 1, 2, 3, 4, 5]);
    assert_eq!(told, vec![RelOutcome::Complete { final_seq: XferSeq(0) }]);
}

/// A sink that reports a full buffer holds the tap back, and its silence later
/// releases it.
#[test]
fn a_stale_report_releases_a_paused_tap() {
    let mut sink = table(ReceiverConfig::audio_engine());
    let mut tap = TapSession::new(ID, key(), SenderConfig::default());
    let mut fb = feedback();
    let ev = tap.push_frame(TimestampMs(60_000), vec![1], at_ms(0)).unwrap();
    let d = transmit(&mut tap, ev);
    sink.on_datagram(&d, TAP, &fb, at_ms(0)).unwrap();
    fb.set_playhead_ms(1_000, at_ms(100));
    for d in replies(&sink.tick(ID, &fb, at_ms(200)).unwrap()) {
        tap.on_datagram(&d, at_ms(200));
    }
    assert!(!tap.can_send(), "the report paused the tap");
    for d in replies(&sink.tick(ID, &fb, at_ms(2_101)).unwrap()) {
        tap.on_datagram(&d, at_ms(2_101));
    }
    assert!(tap.can_send(), "the stale report released it");
}
