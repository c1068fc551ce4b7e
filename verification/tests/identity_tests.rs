use firmware::identity::IdentityResolver;
use firmware::identity::MAX_PEERS;

#[test]
fn fresh_addresses_get_sequential_ids_from_zero() {
    let mut r = IdentityResolver::new();
    let addrs = [0xA1A2A3A4A5A6u64, 0xB1B2B3B4B5B6, 0xC1C2C3C4C5C6, 0x111213141516, 0x212223242526];
    let mut ids = Vec::new();
    for a in addrs {
        ids.push(r.resolve(a).unwrap());
    }
    assert_eq!(ids, vec![0, 1, 2, 3, 4]);
}

#[test]
fn id_set_is_exactly_zero_to_n_minus_one_in_any_order() {
    let addrs = [7u64, 3, 9, 1, 8, 2];
    let mut forward = IdentityResolver::new();
    let mut backward = IdentityResolver::new();
    let mut seen_f: Vec<u8> = addrs.iter().map(|a| forward.resolve(*a).unwrap()).collect();
    let mut seen_b: Vec<u8> =
        addrs.iter().rev().map(|a| backward.resolve(*a).unwrap()).collect();
    seen_f.sort();
    seen_b.sort();
    let expect: Vec<u8> = (0..addrs.len() as u8).collect();
    assert_eq!(seen_f, expect);
    assert_eq!(seen_b, expect);
}

#[test]
fn known_address_always_returns_its_original_id() {
    let mut r = IdentityResolver::new();
    assert_eq!(r.resolve(10), Some(0));
    assert_eq!(r.resolve(20), Some(1));
    for _ in 0..5 {
        assert_eq!(r.resolve(10), Some(0));
        assert_eq!(r.resolve(20), Some(1));
    }
    assert_eq!(r.resolve(30), Some(2));
    assert_eq!(r.peer_count(), 3);
}

#[test]
fn full_table_rejects_new_peers_but_serves_known_ones() {
    let mut r = IdentityResolver::new();
    for a in 0..MAX_PEERS as u64 {
        assert_eq!(r.resolve(a), Some(a as u8));
    }
    assert_eq!(r.peer_count(), MAX_PEERS);
    assert_eq!(r.resolve(9999), None);
    assert_eq!(r.peer_count(), MAX_PEERS);
    assert_eq!(r.resolve(0), Some(0));
    assert_eq!(r.resolve(MAX_PEERS as u64 - 1), Some((MAX_PEERS - 1) as u8));
}

#[test]
fn table_lists_addresses_in_assignment_order() {
    let mut r = IdentityResolver::new();
    r.resolve(500).unwrap();
    r.resolve(400).unwrap();
    r.resolve(600).unwrap();
    r.resolve(400).unwrap();
    assert_eq!(r.table(), &vec![500, 400, 600]);
}
