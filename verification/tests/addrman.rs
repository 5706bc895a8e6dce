use hyper_lib::address::{AddressId, NetworkType};
use hyper_lib::addrman::{Addrman, AddrmanEntry, ADDRMAN_HORIZON};
use rand::rngs::StdRng;
use rand::SeedableRng;

const NOW: u64 = 100_000_000;

fn clear(id: u64) -> AddressId {
    AddressId { id, network: NetworkType::Clearnet }
}

fn stored(m: &Addrman, a: AddressId) -> Option<u64> {
    m.entries.get(&a.key()).map(|e| e.timestamp)
}

#[test]
fn terrible_future_bound_is_ten_minutes() {
    let e = AddrmanEntry { address: clear(1), timestamp: NOW + 600 };
    assert!(!e.is_terrible(NOW));
    let e = AddrmanEntry { address: clear(1), timestamp: NOW + 601 };
    assert!(e.is_terrible(NOW));
}

#[test]
fn terrible_past_bound_is_the_horizon() {
    let e = AddrmanEntry { address: clear(1), timestamp: NOW - ADDRMAN_HORIZON };
    assert!(!e.is_terrible(NOW));
    let e = AddrmanEntry { address: clear(1), timestamp: NOW - ADDRMAN_HORIZON - 1 };
    assert!(e.is_terrible(NOW));
    assert_eq!(ADDRMAN_HORIZON, 30 * 86400);
}

#[test]
fn record_connected_refreshes_after_twenty_minutes_only() {
    let mut e = AddrmanEntry { address: clear(1), timestamp: NOW - 1200 };
    e.record_connected(NOW);
    assert_eq!(e.timestamp, NOW - 1200);
    let mut e = AddrmanEntry { address: clear(1), timestamp: NOW - 1201 };
    e.record_connected(NOW);
    assert_eq!(e.timestamp, NOW);
    let mut e = AddrmanEntry { address: clear(1), timestamp: NOW + 5000 };
    e.record_connected(NOW);
    assert_eq!(e.timestamp, NOW + 5000);
}

#[test]
fn add_new_address_subtracts_penalty() {
    let mut m = Addrman::new();
    m.add(clear(1), NOW, 7200, NOW);
    assert_eq!(stored(&m, clear(1)), Some(NOW - 7200));
    m.add(clear(2), 100, 7200, NOW);
    assert_eq!(stored(&m, clear(2)), Some(0));
    assert_eq!(m.entries.len(), 2);
}

#[test]
fn add_fresh_update_needs_one_hour_after_penalty() {
    let mut m = Addrman::new();
    m.add(clear(1), NOW - 10_000, 0, NOW);
    assert_eq!(stored(&m, clear(1)), Some(NOW - 10_000));
    // A relayed fresh timestamp lands at now - 2h, which is not an hour newer.
    m.add(clear(1), NOW, 7200, NOW);
    assert_eq!(stored(&m, clear(1)), Some(NOW - 10_000));
    // Exactly one hour newer is not enough.
    m.add(clear(1), NOW - 6_400, 0, NOW);
    assert_eq!(stored(&m, clear(1)), Some(NOW - 10_000));
    // More than one hour newer replaces.
    m.add(clear(1), NOW - 6_399, 0, NOW);
    assert_eq!(stored(&m, clear(1)), Some(NOW - 6_399));
}

#[test]
fn add_old_update_needs_one_day() {
    let mut m = Addrman::new();
    let base = NOW - 1_000_000;
    m.add(clear(1), base, 0, NOW);
    m.add(clear(1), base + 86_400, 0, NOW);
    assert_eq!(stored(&m, clear(1)), Some(base));
    m.add(clear(1), base + 86_401, 0, NOW);
    assert_eq!(stored(&m, clear(1)), Some(base + 86_401));
}

#[test]
fn add_never_lowers_a_timestamp() {
    let mut m = Addrman::new();
    m.add(clear(1), NOW, 0, NOW);
    m.add(clear(1), NOW - 500_000, 0, NOW);
    assert_eq!(stored(&m, clear(1)), Some(NOW));
}

#[test]
fn add_twice_is_the_same_as_once() {
    let mut a = Addrman::new();
    let mut b = Addrman::new();
    a.add(clear(7), NOW - 3_000, 7200, NOW);
    b.add(clear(7), NOW - 3_000, 7200, NOW);
    b.add(clear(7), NOW - 3_000, 7200, NOW);
    assert_eq!(stored(&a, clear(7)), stored(&b, clear(7)));
}

#[test]
fn record_connected_for_only_touches_known_addresses() {
    let mut m = Addrman::new();
    m.add(clear(1), NOW - 5_000, 0, NOW);
    m.record_connected_for(clear(2), NOW);
    assert_eq!(m.entries.len(), 1);
    m.record_connected_for(clear(1), NOW);
    assert_eq!(stored(&m, clear(1)), Some(NOW));
}

fn filled(n: u64, terrible: u64) -> Addrman {
    let mut m = Addrman::new();
    for i in 0..n {
        let ts = if i < terrible { NOW - ADDRMAN_HORIZON - 100 } else { NOW - 100 };
        m.add(clear(i), ts, 0, NOW);
    }
    m
}

#[test]
fn get_addr_returns_23_percent_of_live_entries() {
    let mut rng = StdRng::seed_from_u64(1);
    let m = filled(100, 0);
    let r = m.get_addr(NOW, &mut rng);
    assert_eq!(r.len(), 23);
    let mut seen = std::collections::HashSet::new();
    for e in &r {
        assert!(!e.is_terrible(NOW));
        assert!(seen.insert(e.address.key()));
        assert_eq!(stored(&m, e.address), Some(e.timestamp));
    }
}

#[test]
fn get_addr_skips_terrible_entries() {
    let mut rng = StdRng::seed_from_u64(2);
    let m = filled(100, 50);
    let r = m.get_addr(NOW, &mut rng);
    assert_eq!(r.len(), 23);
    for e in &r {
        assert!(!e.is_terrible(NOW));
    }
}

#[test]
fn get_addr_small_and_empty() {
    let mut rng = StdRng::seed_from_u64(3);
    assert_eq!(filled(10, 0).get_addr(NOW, &mut rng).len(), 2);
    assert_eq!(filled(4, 0).get_addr(NOW, &mut rng).len(), 0);
    assert_eq!(Addrman::new().get_addr(NOW, &mut rng).len(), 0);
}

#[test]
fn get_addr_caps_at_one_thousand() {
    let mut rng = StdRng::seed_from_u64(4);
    let m = filled(5000, 0);
    assert_eq!(m.get_addr(NOW, &mut rng).len(), 1000);
}

#[test]
fn get_addr_sends_every_live_entry_when_few_are_live() {
    let mut rng = StdRng::seed_from_u64(5);
    let m = filled(100, 90);
    let r = m.get_addr(NOW, &mut rng);
    assert_eq!(r.len(), 10);
    for e in &r {
        assert!(!e.is_terrible(NOW));
    }
}
