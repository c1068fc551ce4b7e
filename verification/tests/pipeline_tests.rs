use firmware::frame::Frame;
use firmware::frame::HUMIDITY_TYPE;
use firmware::frame::TEMPERATURE_TYPE;
use firmware::logstore::LogStore;
use firmware::pipeline::Pipeline;
use firmware::pipeline::RxPacket;

const PING_INTERVAL: u64 = 2000;
const RETRY_INTERVAL: u64 = 2000;

fn reading(msg_type: u8, value: u64) -> Frame {
    Frame { msg_type, timestamp: 0, fields: vec![0, value] }
}

fn fresh_pipeline() -> Pipeline {
    Pipeline::new(Some(LogStore::open(Vec::new())), PING_INTERVAL, RETRY_INTERVAL)
}

fn packet_with(addr: u64, frames: &[Frame]) -> RxPacket {
    let mut bytes = Vec::new();
    for f in frames {
        bytes.extend_from_slice(&f.serialize());
    }
    RxPacket { addr, bytes }
}

#[test]
fn offline_dispatch_stores_every_frame_and_sends_none() {
    let mut p = fresh_pipeline();
    let frames: Vec<Frame> = (0..100).map(|i| reading(TEMPERATURE_TYPE, i)).collect();
    let pkt = packet_with(0xAA, &frames);
    let report = p.tick(1, false, &vec![pkt]);
    assert_eq!(report.stored, 100);
    assert_eq!(report.sends.len(), 0);
}

#[test]
fn online_dispatch_sends_every_frame_and_stores_none() {
    let mut p = fresh_pipeline();
    let frames: Vec<Frame> = (0..100).map(|i| reading(TEMPERATURE_TYPE, i)).collect();
    let pkt = packet_with(0xAA, &frames);
    let report = p.tick(1, true, &vec![pkt]);
    assert_eq!(report.sends.len(), 100);
    assert_eq!(report.stored, 0);
    for (i, f) in report.sends.iter().enumerate() {
        assert_eq!(f.fields, vec![0, i as u64]); // first peer gets id 0
        assert_eq!(f.timestamp, 1); // stamped with the reception time
    }
    assert!(p.is_connected());
}

#[test]
fn stored_backlog_is_sent_once_connectivity_returns() {
    let mut p = fresh_pipeline();
    let pkt = packet_with(0xAA, &[reading(TEMPERATURE_TYPE, 5), reading(TEMPERATURE_TYPE, 6)]);
    let offline = p.tick(1, false, &vec![pkt]);
    assert_eq!(offline.stored, 2);
    let online = p.tick(10, true, &Vec::new());
    assert_eq!(online.sends.len(), 2);
    assert_eq!(online.sends[0].fields[1], 5);
    assert_eq!(online.sends[1].fields[1], 6);
    assert_eq!(online.stored, 0);
}

#[test]
fn keepalive_fires_on_its_interval_despite_sustained_traffic() {
    let mut p = fresh_pipeline();
    let mut fired_at = Vec::new();
    for step in 0..500u64 {
        let now = step * 10;
        // One peer floods every tick.
        let pkt = packet_with(0xBB, &[reading(HUMIDITY_TYPE, step)]);
        let report = p.tick(now, true, &vec![pkt]);
        if report.broadcast_ping {
            fired_at.push(now);
        }
    }
    // First tick fires (never fired before); after that, strictly more than
    // the interval must pass: 0, 2010, 4020, ...
    assert_eq!(fired_at[0], 0);
    assert!(fired_at.len() >= 2);
    for w in fired_at.windows(2) {
        assert!(w[1] - w[0] > PING_INTERVAL);
        assert!(w[1] - w[0] <= PING_INTERVAL + 20);
    }
}

#[test]
fn both_peers_are_drained_in_one_tick() {
    let mut p = fresh_pipeline();
    let pkt_a = packet_with(0xAA, &[reading(TEMPERATURE_TYPE, 1)]);
    let pkt_b = packet_with(0xBB, &[reading(HUMIDITY_TYPE, 2)]);
    let report = p.tick(7, true, &vec![pkt_a, pkt_b]);
    assert_eq!(report.sends.len(), 2);
    // Each peer got its own device id, in order of first contact.
    assert_eq!(report.sends[0].fields, vec![0, 1]);
    assert_eq!(report.sends[1].fields, vec![1, 2]);
}

#[test]
fn frame_split_across_ticks_is_decoded_when_completed() {
    let mut p = fresh_pipeline();
    let wire = reading(TEMPERATURE_TYPE, 9).serialize();
    let head = RxPacket { addr: 0xCC, bytes: wire[..10].to_vec() };
    let tail = RxPacket { addr: 0xCC, bytes: wire[10..].to_vec() };
    let first = p.tick(1, true, &vec![head]);
    assert_eq!(first.sends.len(), 0);
    let second = p.tick(2, true, &vec![tail]);
    assert_eq!(second.sends.len(), 1);
    assert_eq!(second.sends[0].fields, vec![0, 9]);
    assert_eq!(second.sends[0].timestamp, 2);
}

#[test]
fn pings_from_peers_are_dropped_as_schema_mismatch() {
    let mut p = fresh_pipeline();
    let pkt = packet_with(0xAA, &[Frame::new_ping()]);
    let report = p.tick(1, false, &vec![pkt]);
    assert_eq!(report.stored, 0);
    assert_eq!(report.sends.len(), 0);
}

#[test]
fn store_recovery_is_paced_by_the_retry_timer() {
    let mut p = Pipeline::new(None, PING_INTERVAL, RETRY_INTERVAL);
    let first = p.tick(0, false, &Vec::new());
    assert!(first.want_store_recovery);
    // Immediately afterwards the timer holds recovery back.
    let second = p.tick(10, false, &Vec::new());
    assert!(!second.want_store_recovery);
    // Once the interval has passed it asks again.
    let third = p.tick(RETRY_INTERVAL + 11, false, &Vec::new());
    assert!(third.want_store_recovery);
    // A recovered store ends the requests and takes writes again.
    p.provide_store(LogStore::open(Vec::new()));
    let pkt = packet_with(0xEE, &[reading(TEMPERATURE_TYPE, 1)]);
    let fourth = p.tick(2 * RETRY_INTERVAL + 30, false, &vec![pkt]);
    assert!(!fourth.want_store_recovery);
    assert_eq!(fourth.stored, 1);
}

#[test]
fn offline_without_store_loses_the_batch() {
    let mut p = Pipeline::new(None, PING_INTERVAL, RETRY_INTERVAL);
    let pkt = packet_with(0xAA, &[reading(TEMPERATURE_TYPE, 4)]);
    let report = p.tick(0, false, &vec![pkt]);
    assert_eq!(report.stored, 0);
    assert_eq!(report.sends.len(), 0);
}

#[test]
fn malformed_peer_stream_is_isolated_to_that_peer() {
    let mut p = fresh_pipeline();
    let bad = RxPacket { addr: 0xAA, bytes: vec![250, 250, 250] };
    let good = packet_with(0xBB, &[reading(TEMPERATURE_TYPE, 8)]);
    let report = p.tick(3, true, &vec![bad, good]);
    assert_eq!(report.sends.len(), 1);
    assert_eq!(report.sends[0].fields[1], 8);
}

#[test]
fn offline_backlog_survives_a_restart_and_is_delivered_once() {
    let mut p = fresh_pipeline();
    // 256 frames of 26 bytes fill exactly 13 blocks, so the whole backlog
    // is flushed to the backing file before the "power loss".
    let frames: Vec<Frame> = (0..256).map(|i| reading(TEMPERATURE_TYPE, i)).collect();
    let offline = p.tick(1, false, &vec![packet_with(0xAA, &frames)]);
    assert_eq!(offline.stored, 256);
    let file = p.store.as_ref().unwrap().persisted().clone();

    // Restart: a fresh pipeline over the persisted file, now online.
    let mut p2 = Pipeline::new(Some(LogStore::open(file)), PING_INTERVAL, RETRY_INTERVAL);
    let mut delivered = Vec::new();
    for step in 0..20u64 {
        let report = p2.tick(10 + step, true, &Vec::new());
        delivered.extend(report.sends);
    }
    assert_eq!(delivered.len(), 256);
    for (i, f) in delivered.iter().enumerate() {
        assert_eq!(f.fields[1], i as u64);
    }
    // Drained exactly once: the log was compacted and stays quiet.
    assert_eq!(p2.store.as_ref().unwrap().persisted().len(), 0);
    let more = p2.tick(100, true, &Vec::new());
    assert!(more.sends.is_empty());
}
