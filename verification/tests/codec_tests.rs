use firmware::codec::deserialize_many;
use firmware::codec::CodecError;
use firmware::codec::FrameAccumulator;
use firmware::frame::set_message_device_id;
use firmware::frame::Frame;
use firmware::frame::FrameError;
use firmware::frame::FIRE_ALARM_TYPE;
use firmware::frame::HUMIDITY_TYPE;
use firmware::frame::PING_TYPE;
use firmware::frame::TEMPERATURE_TYPE;

fn reading(msg_type: u8, device_id: u64, value: u64, timestamp: u64) -> Frame {
    Frame { msg_type, timestamp, fields: vec![device_id, value] }
}

#[test]
fn encoding_is_exact() {
    let f = reading(TEMPERATURE_TYPE, 9, 10, 0x0102030405060708);
    let bytes = f.serialize();
    let mut expected = vec![TEMPERATURE_TYPE, 2];
    expected.extend_from_slice(&0x0102030405060708u64.to_le_bytes());
    expected.extend_from_slice(&9u64.to_le_bytes());
    expected.extend_from_slice(&10u64.to_le_bytes());
    assert_eq!(bytes, expected);
}

#[test]
fn round_trip_single_frame() {
    let f = reading(HUMIDITY_TYPE, 1, 55, 123456789);
    let mut buf = f.serialize();
    let frames = deserialize_many(&mut buf).unwrap();
    assert_eq!(frames.len(), 1);
    assert_eq!(frames[0].msg_type, HUMIDITY_TYPE);
    assert_eq!(frames[0].timestamp, 123456789);
    assert_eq!(frames[0].fields, vec![1, 55]);
    assert!(buf.is_empty());
}

#[test]
fn round_trip_many_frames_in_one_buffer() {
    let mut buf = Vec::new();
    for i in 0..10u64 {
        buf.extend_from_slice(&reading(FIRE_ALARM_TYPE, i, i * 2, i * 1000).serialize());
    }
    let frames = deserialize_many(&mut buf).unwrap();
    assert_eq!(frames.len(), 10);
    for (i, f) in frames.iter().enumerate() {
        assert_eq!(f.fields, vec![i as u64, i as u64 * 2]);
        assert_eq!(f.timestamp, i as u64 * 1000);
    }
    assert!(buf.is_empty());
}

#[test]
fn round_trip_one_byte_at_a_time() {
    let mut wire = Vec::new();
    for i in 0..5u64 {
        wire.extend_from_slice(&reading(TEMPERATURE_TYPE, i, 100 + i, 7 + i).serialize());
    }
    let mut acc = FrameAccumulator::new();
    let mut collected = Vec::new();
    for b in wire {
        collected.extend(acc.feed(&vec![b]).unwrap());
    }
    assert_eq!(collected.len(), 5);
    for (i, f) in collected.iter().enumerate() {
        assert_eq!(f.fields, vec![i as u64, 100 + i as u64]);
        assert_eq!(f.timestamp, 7 + i as u64);
    }
    assert_eq!(acc.len(), 0);
}

#[test]
fn partial_frame_is_kept_for_next_feed() {
    let wire = reading(TEMPERATURE_TYPE, 4, 40, 99).serialize();
    let mut acc = FrameAccumulator::new();
    let head = wire[..wire.len() - 3].to_vec();
    let tail = wire[wire.len() - 3..].to_vec();
    let first = acc.feed(&head).unwrap();
    assert!(first.is_empty());
    assert_eq!(acc.len(), wire.len() - 3);
    let second = acc.feed(&tail).unwrap();
    assert_eq!(second.len(), 1);
    assert_eq!(second[0].fields, vec![4, 40]);
    assert_eq!(acc.len(), 0);
}

#[test]
fn malformed_type_is_reported_and_buffer_untouched() {
    let mut buf = vec![200u8, 2, 0, 0];
    let before = buf.clone();
    assert_eq!(deserialize_many(&mut buf), Err(CodecError::Malformed));
    assert_eq!(buf, before);
}

#[test]
fn wrong_field_count_is_malformed() {
    // A temperature header announcing three fields contradicts the schema.
    let mut buf = vec![TEMPERATURE_TYPE, 3];
    buf.extend_from_slice(&[0u8; 32]);
    assert_eq!(deserialize_many(&mut buf), Err(CodecError::Malformed));
}

#[test]
fn accumulator_resets_on_malformed_stream() {
    let mut acc = FrameAccumulator::new();
    let r = acc.feed(&vec![255u8, 255, 255, 255]);
    assert_eq!(r, Err(CodecError::Malformed));
    assert_eq!(acc.len(), 0);
}

#[test]
fn frames_before_malformed_bytes_stay_buffered_on_error() {
    // A complete valid frame followed by garbage: the error is reported and
    // nothing is consumed, so the caller decides.
    let mut buf = reading(TEMPERATURE_TYPE, 1, 2, 3).serialize();
    buf.push(255);
    buf.push(255);
    let before = buf.clone();
    assert_eq!(deserialize_many(&mut buf), Err(CodecError::Malformed));
    assert_eq!(buf, before);
}

#[test]
fn set_device_id_on_ping_is_schema_mismatch() {
    let mut ping = Frame::new_ping();
    assert_eq!(set_message_device_id(&mut ping, 3), Err(FrameError::FrameIsNotMessage));
    assert_eq!(ping.msg_type, PING_TYPE);
    assert!(ping.fields.is_empty());
}

#[test]
fn set_device_id_writes_schema_field() {
    let mut f = reading(TEMPERATURE_TYPE, 0, 21, 5);
    set_message_device_id(&mut f, 7).unwrap();
    assert_eq!(f.fields, vec![7, 21]);
    assert_eq!(f.timestamp, 5);
}

#[test]
fn set_timestamp_replaces_only_the_timestamp() {
    let mut f = reading(HUMIDITY_TYPE, 2, 60, 1);
    f.set_timestamp(42);
    assert_eq!(f.timestamp, 42);
    assert_eq!(f.fields, vec![2, 60]);
}
