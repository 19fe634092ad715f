//! The sink's occupancy report, and how it reaches the wire.

use protofish4::config::ReceiverConfig;
use protofish4::crypto::{self, SessionKey};
use protofish4::codec::decode_body;
use protofish4::feedback::{ack_buffered_ms, buffer_report_ttl, BufferFeedback};
use protofish4::frame::Body;
use protofish4::sink::{SinkAction, SinkSession};
use protofish4::time::{Duration, Instant};
use protofish4::types::{Direction, RequestId, TimestampMs, XferSeq};
use protofish4::xfer::XferReceiver;

fn start() -> Instant {
    Instant::from_nanos(7_000_000_000_000)
}

fn after(t: Instant, d: Duration) -> Instant {
    t.checked_add(d).unwrap()
}

fn longer(d: Duration, by: Duration) -> Duration {
    Duration::from_nanos(d.as_nanos() + by.as_nanos())
}

/// The sink's occupancy report is what paces the sender, so it has to reach
/// the wire: an acknowledgement sealed while the sink reports a full buffer
/// must carry that number, not the state machine's placeholder zero.
#[test]
fn an_ack_carries_the_buffered_ms_the_sink_reported() {
    let bytes = protofish4::random_key();
    let key = SessionKey::from_bytes(&bytes).unwrap();
    let id = RequestId::random();
    let cfg = ReceiverConfig::audio_engine();
    let ack_interval = cfg.ack_interval;
    let now = start();

    let mut session: SinkSession<u16> =
        SinkSession::new(SessionKey::from_bytes(&bytes).unwrap(), cfg.clone(), now);
    let mut state = XferReceiver::new(cfg, now);
    let mut feedback = BufferFeedback::new(now);
    // Playback has reached 1 s; the frame that arrives is timestamped 5.32 s.
    feedback.set_playhead_ms(1_000, now);

    // The arrival has to be applied, not merely handled: recording the
    // newest timestamp is the endpoint's job, and the occupancy is measured
    // against it.
    let mut events = state.handle(
        XferSeq(1),
        Body::Data { ts: TimestampMs(5_320), payload: vec![7; 40] },
        now,
    );

    // Past the ack interval, so the receiver has something to acknowledge.
    events.extend(state.tick(after(now, longer(ack_interval, Duration::from_millis(1)))));
    let actions = session.apply(id, events, &feedback, now);

    let datagram = actions
        .iter()
        .find_map(|a| match a {
            SinkAction::Reply(d) => Some(d),
            _ => None,
        })
        .expect("an ack was sealed");
    let (header, plaintext) = crypto::open(&key, datagram, Direction::Recv).expect("opens");
    match decode_body(header.kind, &plaintext).expect("decodes") {
        Body::Ack { buffered_ms, .. } => assert_eq!(buffered_ms, 4_320),
        other => panic!("expected an ack, got {other:?}"),
    }
}

/// The occupancy is what arrived but has not been played, measured against
/// the sink's play head.
#[test]
fn a_fresh_play_head_is_what_goes_on_the_wire() {
    let mut feedback = BufferFeedback::new(start());
    feedback.set_playhead_ms(1_000, start());
    assert_eq!(ack_buffered_ms(&feedback, 999, 5_321, start()), 4_321);
}

/// The field is sixteen bits wide; a long backlog must not wrap.
#[test]
fn an_over_range_backlog_is_clamped_to_the_wire_limit() {
    let mut feedback = BufferFeedback::new(start());
    feedback.set_playhead_ms(0, start());
    assert_eq!(
        ack_buffered_ms(&feedback, 0, u64::MAX, start()),
        u16::MAX
    );
}

/// An unrenewed report stops counting, so a sender cannot be held back
/// forever by a sink that has gone quiet: the difference between a pause
/// and a wedge.
#[test]
fn a_stale_report_falls_back_to_the_state_machines_value() {
    let mut feedback = BufferFeedback::new(start());
    feedback.set_playhead_ms(0, start());
    let now = start();
    assert_eq!(ack_buffered_ms(&feedback, 1234, 60_000, now), 60_000);

    let later = after(now, longer(buffer_report_ttl(), Duration::from_millis(1)));
    assert_eq!(ack_buffered_ms(&feedback, 1234, 60_000, later), 1234);
}

#[test]
fn a_sink_that_has_never_reported_gets_the_state_machines_value() {
    let feedback = BufferFeedback::new(start());
    assert_eq!(feedback.playhead_ms(), 0);
    assert_eq!(feedback.fresh_playhead_ms(start(), buffer_report_ttl()), None);
    assert_eq!(ack_buffered_ms(&feedback, 77, 60_000, start()), 77);
}

/// A report is dated in whole milliseconds from the epoch, and counts up to and
/// including the age limit.
#[test]
fn a_report_is_dated_in_whole_milliseconds() {
    let mut feedback = BufferFeedback::new(start());
    let reported = after(start(), Duration::from_nanos(1_999_999));
    feedback.set_playhead_ms(42, reported);
    let dated = after(start(), Duration::from_millis(1));
    let ttl = Duration::from_secs(3);
    assert_eq!(feedback.fresh_playhead_ms(after(dated, ttl), ttl), Some(42));
    let one = Duration::from_nanos(1);
    assert_eq!(feedback.fresh_playhead_ms(after(dated, longer(ttl, one)), ttl), None);
    assert_eq!(feedback.playhead_ms(), 42);
    assert_eq!(ack_buffered_ms(&feedback, 9, 40, reported), 0, "playback is ahead of arrivals");
}
