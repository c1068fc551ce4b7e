use firmware::frame::Frame;
use firmware::frame::FIRE_ALARM_TYPE;
use firmware::frame::GAS_LEAKAGE_TYPE;
use firmware::frame::HUMIDITY_TYPE;
use firmware::frame::PING_TYPE;
use firmware::frame::TEMPERATURE_TYPE;
use firmware::lineproto::measurement_name;
use firmware::lineproto::to_line;

#[test]
fn measurement_names_follow_the_schema() {
    assert_eq!(measurement_name(PING_TYPE), b"ping".to_vec());
    assert_eq!(measurement_name(TEMPERATURE_TYPE), b"temperature".to_vec());
    assert_eq!(measurement_name(HUMIDITY_TYPE), b"humidity".to_vec());
    assert_eq!(measurement_name(FIRE_ALARM_TYPE), b"fire_alarm".to_vec());
    assert_eq!(measurement_name(GAS_LEAKAGE_TYPE), b"gas_leakage".to_vec());
}

#[test]
fn reading_line_is_exact() {
    let f = Frame { msg_type: TEMPERATURE_TYPE, timestamp: 1_700_000_000_000, fields: vec![3, 25] };
    assert_eq!(to_line(&f), b"temperature device_id=3,value=25 1700000000000\n".to_vec());
}

#[test]
fn ping_line_has_no_fields() {
    let f = Frame { msg_type: PING_TYPE, timestamp: 5, fields: Vec::new() };
    assert_eq!(to_line(&f), b"ping 5\n".to_vec());
}

#[test]
fn zero_values_render_as_single_digits() {
    let f = Frame { msg_type: GAS_LEAKAGE_TYPE, timestamp: 0, fields: vec![0, 0] };
    assert_eq!(to_line(&f), b"gas_leakage device_id=0,value=0 0\n".to_vec());
}

#[test]
fn largest_value_renders_fully() {
    let f = Frame { msg_type: HUMIDITY_TYPE, timestamp: u64::MAX, fields: vec![255, u64::MAX] };
    let line = to_line(&f);
    assert_eq!(
        line,
        format!("humidity device_id=255,value={} {}\n", u64::MAX, u64::MAX).into_bytes()
    );
}
