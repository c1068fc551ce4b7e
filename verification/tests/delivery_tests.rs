use firmware::delivery::bytes_eq;
use firmware::delivery::ChannelManager;
use firmware::delivery::FormData;
use firmware::delivery::MAX_FORM_LEN;

fn addr(s: &str) -> Vec<u8> {
    s.as_bytes().to_vec()
}

#[test]
fn connect_falls_back_to_default_and_persists_it() {
    let mut mgr = ChannelManager::new(Some(addr("tcp://10.0.0.2:8094")), addr("tcp://4.4.4.4:8094"));
    let first = mgr.begin_connect();
    assert_eq!(first, addr("tcp://10.0.0.2:8094"));
    // The persisted address refused the connection: the default is
    // substituted, persisted, and retried once.
    let retry = mgr.connect_failed().expect("one retry with the default");
    assert_eq!(retry, addr("tcp://4.4.4.4:8094"));
    assert_eq!(mgr.server_addr, addr("tcp://4.4.4.4:8094"));
    // The default also refused: give up until a later attempt.
    assert!(mgr.connect_failed().is_none());
    assert!(!mgr.has_connection());
    // A later attempt starts from the (now persisted) default.
    assert_eq!(mgr.begin_connect(), addr("tcp://4.4.4.4:8094"));
    mgr.connect_succeeded();
    assert!(mgr.has_connection());
}

#[test]
fn missing_persisted_address_starts_from_the_default() {
    let mut mgr = ChannelManager::new(None, addr("tcp://4.4.4.4:8094"));
    assert_eq!(mgr.begin_connect(), addr("tcp://4.4.4.4:8094"));
}

#[test]
fn shutdown_drops_the_stream() {
    let mut mgr = ChannelManager::new(None, addr("tcp://4.4.4.4:8094"));
    mgr.begin_connect();
    mgr.connect_succeeded();
    assert!(mgr.has_connection());
    mgr.shutdown();
    assert!(!mgr.has_connection());
}

#[test]
fn unchanged_address_from_portal_changes_nothing() {
    let mut mgr = ChannelManager::new(Some(addr("tcp://1.1.1.1:1")), addr("tcp://4.4.4.4:8094"));
    mgr.begin_connect();
    mgr.connect_succeeded();
    let changed = mgr.apply_config_update(addr("tcp://1.1.1.1:1"));
    assert!(!changed);
    assert!(mgr.has_connection());
}

#[test]
fn new_address_from_portal_replaces_target_and_tears_down() {
    let mut mgr = ChannelManager::new(Some(addr("tcp://1.1.1.1:1")), addr("tcp://4.4.4.4:8094"));
    mgr.begin_connect();
    mgr.connect_succeeded();
    let changed = mgr.apply_config_update(addr("tcp://2.2.2.2:2"));
    assert!(changed);
    assert!(!mgr.has_connection());
    assert_eq!(mgr.server_addr, addr("tcp://2.2.2.2:2"));
}

#[test]
fn byte_string_equality() {
    assert!(bytes_eq(&addr("abc"), &addr("abc")));
    assert!(!bytes_eq(&addr("abc"), &addr("abd")));
    assert!(!bytes_eq(&addr("abc"), &addr("ab")));
    assert!(bytes_eq(&Vec::new(), &Vec::new()));
}

#[test]
fn form_data_carries_the_submitted_settings() {
    let form = FormData {
        wifi_ssid: String::from("attic-net"),
        wifi_pass: String::from("hub-pass"),
        ip_addr: String::from("tcp://3.3.3.3:8094"),
    };
    assert_eq!(form.ip_addr, "tcp://3.3.3.3:8094");
    assert!(form.wifi_ssid.len() + form.wifi_pass.len() + form.ip_addr.len() <= MAX_FORM_LEN);
}
