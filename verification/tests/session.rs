use axnet_rt::frame::{encode, MSG_CONTROL, MSG_CONTROL_ACK, MSG_ERROR, MSG_HEARTBEAT, MSG_STATUS};
use axnet_rt::reader::FrameReader;
use axnet_rt::session::{
    after_attempt, all_resolved, handshake_acked, heartbeat_frame, mark_broken, next_backoff,
    next_match, out_of_time, request_frame, request_payload, start_request, Attempt, Config, InFlight, Outcome, Session, Stats, INITIAL_BACKOFF_MS,
    REQUEST_FILL,
};

fn cfg() -> Config {
    Config {
        server: [127, 0, 0, 1],
        port: 5000,
        requests: 3,
        payload_len: 512,
        heartbeat_ms: 100,
        timeout_ms: 1000,
        duration_ms: Some(30_000),
        max_reconnect_ms: 2000,
    }
}

#[test]
fn rtt_summary() {
    let mut s = Stats::default();
    assert_eq!(s.avg_rtt_us(), 0);
    assert_eq!(s.max_rtt_us(), 0);
    s.rtts_us = vec![10, 30, 20, 41];
    assert_eq!(s.avg_rtt_us(), 25);
    assert_eq!(s.max_rtt_us(), 41);
}

#[test]
fn verdict_of_a_run() {
    let mut s = Stats::default();
    assert!(!s.passed());
    s.sent = 10;
    s.acked = 9;
    s.lost = 1;
    assert!(s.passed());
    s.errors = 1;
    assert!(!s.passed());
    s.errors = 0;
    s.lost = 0;
    assert!(!s.passed());
}

#[test]
fn broken_session_accounts_for_the_request_in_flight() {
    let mut s = Stats::default();
    assert_eq!(mark_broken(&mut s, true, true), Outcome::Broken);
    assert_eq!((s.lost, s.timeouts), (1, 1));
    assert_eq!(mark_broken(&mut s, false, false), Outcome::Broken);
    assert_eq!((s.lost, s.timeouts), (1, 1));
}

#[test]
fn backoff_doubles_up_to_the_cap() {
    let mut b = INITIAL_BACKOFF_MS;
    let mut seen = vec![];
    for _ in 0..5 {
        b = next_backoff(b, 10_000);
        seen.push(b);
    }
    assert_eq!(seen, vec![2000, 4000, 8000, 10_000, 10_000]);
    assert_eq!(next_backoff(1000, 500), 500);
}

#[test]
fn run_stops_when_done_resolved_or_out_of_time() {
    let c = cfg();
    let mut s = Stats::default();
    assert!(after_attempt(&c, &mut s, Attempt::Session(Outcome::Done), 0));
    assert!(!after_attempt(&c, &mut s, Attempt::Session(Outcome::Broken), 0));
    assert_eq!(s.reconnects, 1);
    assert!(!after_attempt(&c, &mut s, Attempt::ConnectFailed, 0));
    assert_eq!(s.errors, 1);
    assert!(after_attempt(&c, &mut s, Attempt::ConnectFailed, 30_000_000));
    s.sent = 3;
    s.acked = 2;
    s.lost = 1;
    assert!(all_resolved(&c, &s));
    assert!(after_attempt(&c, &mut s, Attempt::Session(Outcome::Broken), 0));
    assert!(!out_of_time(&c, 29_999_999));
    let mut unbounded = cfg();
    unbounded.duration_ms = None;
    assert!(!out_of_time(&unbounded, u64::MAX));
}

#[test]
fn heartbeat_every_interval() {
    let c = cfg();
    let mut sess = Session::new(1_000);
    let mut seq = 7u32;
    assert_eq!(sess.heartbeat_due(&c, 50_000, &mut seq), None);
    assert_eq!(seq, 7);
    assert_eq!(sess.heartbeat_due(&c, 101_000, &mut seq), Some(7));
    assert_eq!(seq, 8);
    assert_eq!(sess.last_hb_us, 101_000);
    assert_eq!(sess.heartbeat_due(&c, 150_000, &mut seq), None);
}

#[test]
fn one_request_in_flight_with_capped_payload() {
    let mut c = cfg();
    c.payload_len = 100_000;
    let mut s = Stats::default();
    let mut sess = Session::new(0);
    let mut seq = u32::MAX;
    let (r, plen) = sess.request_due(&c, &s, &mut seq).unwrap();
    assert_eq!((r, plen), (u32::MAX, 4096));
    assert_eq!(seq, 0);
    sess.request_sent(&mut s, 10, r, plen);
    assert_eq!(s.sent, 1);
    assert_eq!(s.payload_bytes, 4096);
    assert_eq!(sess.in_flight, Some(InFlight { sequence: u32::MAX, sent_at_us: 10 }));
    assert_eq!(s.throughput_start_us, Some(10));
    assert_eq!(sess.request_due(&c, &s, &mut seq), None);
    let p = request_payload(3);
    assert_eq!(p, vec![REQUEST_FILL; 3]);
}

#[test]
fn ack_resolves_the_request_and_records_rtt() {
    let c = cfg();
    let mut s = Stats::default();
    let mut sess = Session::new(0);
    let mut seq = 5u32;
    let (r, plen) = sess.request_due(&c, &s, &mut seq).unwrap();
    sess.request_sent(&mut s, 100, r, plen);
    // An ACK for another request, a heartbeat echo, a status push: no effect
    // but liveness.
    let mut bytes = encode(MSG_CONTROL_ACK, 0, 99, 0, 0, b"OK");
    bytes.extend_from_slice(&encode(MSG_HEARTBEAT, 0, 1, 0, 0, &[]));
    bytes.extend_from_slice(&encode(MSG_STATUS, 0, 0, 0, 0, b"RUNNING"));
    sess.on_bytes(&mut s, &bytes, 200);
    assert_eq!(s.acked, 0);
    assert_eq!(sess.last_rx_us, 200);
    assert!(sess.in_flight.is_some());
    // The matching ACK, split across two reads.
    let ack = encode(MSG_CONTROL_ACK, 0, 5, 0, 0, b"OK");
    sess.on_bytes(&mut s, &ack[..10], 300);
    assert_eq!(s.acked, 0);
    sess.on_bytes(&mut s, &ack[10..], 350);
    assert_eq!(s.acked, 1);
    assert_eq!(s.rtts_us, vec![250]);
    assert_eq!(s.throughput_us, 250);
    assert_eq!(sess.in_flight, None);
    assert_eq!(s.errors, 0);
}

#[test]
fn error_messages_and_bad_frames_count_as_errors() {
    let mut s = Stats::default();
    let mut sess = Session::new(0);
    let mut bad = encode(MSG_CONTROL, 0, 1, 0, 0, b"data");
    bad[27] ^= 0xFF;
    let mut bytes = encode(MSG_ERROR, 0, 1, 0, 4, &[]);
    bytes.extend_from_slice(&bad);
    sess.on_bytes(&mut s, &bytes, 10);
    assert_eq!(s.errors, 2);
    // Only the valid ERROR message refreshed liveness.
    assert_eq!(sess.last_rx_us, 10);
}

#[test]
fn silence_times_out_and_loses_the_request() {
    let c = cfg();
    let mut s = Stats::default();
    let mut sess = Session::new(0);
    let mut seq = 0u32;
    let (r, plen) = sess.request_due(&c, &s, &mut seq).unwrap();
    sess.request_sent(&mut s, 0, r, plen);
    assert_eq!(sess.settle(&c, &mut s, 999_999, 999_999), None);
    assert_eq!(sess.settle(&c, &mut s, 1_000_000, 1_000_000), Some(Outcome::Broken));
    assert_eq!((s.timeouts, s.lost, s.sent), (1, 1, 1));
}

#[test]
fn settle_finishes_when_all_resolved() {
    let mut c = cfg();
    c.requests = 1;
    let mut s = Stats::default();
    s.sent = 1;
    s.acked = 1;
    s.rtts_us = vec![5];
    let sess = Session::new(0);
    assert_eq!(sess.settle(&c, &mut s, 10, 10), Some(Outcome::Done));
    assert_eq!(s.timeouts, 0);
}

#[test]
fn handshake_waits_for_its_own_ack() {
    let mut r = FrameReader::new();
    r.push(&encode(MSG_STATUS, 0, 0, 0, 0, b"RUNNING"));
    assert!(!handshake_acked(&mut r, 3));
    r.push(&encode(MSG_CONTROL_ACK, 0, 2, 0, 0, b"OK"));
    let ack = encode(MSG_CONTROL_ACK, 0, 3, 0, 0, b"OK");
    r.push(&ack[..20]);
    assert!(!handshake_acked(&mut r, 3));
    r.push(&ack[20..]);
    assert!(handshake_acked(&mut r, 3));
}

#[test]
fn checked_sums_and_sorted_samples() {
    let mut s = Stats::default();
    assert_eq!(s.rtt_sum(), Some(0));
    assert_eq!(s.checked_avg_rtt_us(), Some(0));
    assert_eq!(s.sorted_rtts(), Vec::<u64>::new());
    s.rtts_us = vec![30, 10, 20, 10];
    assert_eq!(s.rtt_sum(), Some(70));
    assert_eq!(s.checked_avg_rtt_us(), Some(17));
    assert_eq!(s.sorted_rtts(), vec![10, 10, 20, 30]);
    s.rtts_us = vec![u64::MAX, 1];
    assert_eq!(s.rtt_sum(), None);
    assert_eq!(s.checked_avg_rtt_us(), None);
    assert_eq!(s.sorted_rtts(), vec![1, u64::MAX]);
}

#[test]
fn next_match_takes_frames_until_the_wanted_one() {
    let mut r = FrameReader::new();
    r.push(&encode(MSG_STATUS, 0, 0, 0, 0, b"RUNNING"));
    r.push(&encode(MSG_CONTROL_ACK, 0, 2, 0, 0, b"OK"));
    r.push(&encode(MSG_ERROR, 0, 9, 0, 4, b"bad"));
    let tail = encode(MSG_HEARTBEAT, 0, 1, 0, 0, &[]);
    r.push(&tail);
    assert_eq!(next_match(&mut r, MSG_CONTROL_ACK, Some(3)), None);
    let mut r = FrameReader::new();
    r.push(&encode(MSG_CONTROL_ACK, 0, 2, 0, 0, b"OK"));
    r.push(&encode(MSG_ERROR, 0, 9, 0, 4, b"bad"));
    r.push(&tail);
    assert_eq!(next_match(&mut r, MSG_ERROR, None), Some((4, b"bad".to_vec())));
    // The frames after the match stay buffered.
    assert_eq!(r.next_frame(), Some(tail));
}

#[test]
fn throughput_span_runs_from_the_first_request_of_the_run() {
    let c = cfg();
    let mut s = Stats::default();
    // First session: a request goes out at 100, then the session breaks.
    let mut sess = Session::new(0);
    let mut seq = 0u32;
    let (r, plen) = sess.request_due(&c, &s, &mut seq).unwrap();
    sess.request_sent(&mut s, 100, r, plen);
    mark_broken(&mut s, true, false);
    // After a reconnect, the next request goes out at 5000 and is acked at 5300.
    let mut sess = Session::new(4000);
    let (r, plen) = sess.request_due(&c, &s, &mut seq).unwrap();
    sess.request_sent(&mut s, 5000, r, plen);
    sess.on_bytes(&mut s, &encode(MSG_CONTROL_ACK, 0, r, 0, 0, b"OK"), 5300);
    assert_eq!(s.rtts_us, vec![300]);
    assert_eq!(s.throughput_us, 5200);
    assert_eq!(s.payload_bytes, 1024);
}

#[test]
fn outgoing_frames() {
    let mut seq = 41u32;
    let (my, start) = start_request(&mut seq, 7);
    assert_eq!((my, seq), (41, 42));
    assert_eq!(start, encode(MSG_CONTROL, 0, 41, 7, 0, b"command=START"));
    assert_eq!(heartbeat_frame(5, 9), encode(MSG_HEARTBEAT, 0, 5, 9, 0, &[]));
    assert_eq!(request_frame(6, 3, 11), encode(MSG_CONTROL, 0, 6, 11, 0, &[0xA5, 0xA5, 0xA5]));
}

#[test]
fn settle_without_timeout_needs_no_room_in_the_counters() {
    let c = cfg();
    let mut s = Stats::default();
    s.timeouts = usize::MAX;
    s.lost = usize::MAX;
    let sess = Session::new(0);
    assert_eq!(sess.settle(&c, &mut s, 10, 10), None);
    assert_eq!(s.timeouts, usize::MAX);
}
