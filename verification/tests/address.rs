use hyper_lib::address::{AddressId, AddressRegistry, NetworkSet, NetworkType};

fn a(id: u64, network: NetworkType) -> AddressId {
    AddressId { id, network }
}

#[test]
fn keys_are_distinct_per_address() {
    assert_ne!(a(1, NetworkType::Onion).key(), a(1, NetworkType::Clearnet).key());
    assert_ne!(a(0, NetworkType::Clearnet).key(), a(1, NetworkType::Onion).key());
    assert_eq!(a(5, NetworkType::Onion).key(), 10);
    assert_eq!(a(5, NetworkType::Clearnet).key(), 11);
}

#[test]
fn register_records_owner_and_reachability() {
    let mut reg = AddressRegistry::new();
    reg.register(3, a(0, NetworkType::Onion), true);
    reg.register(3, a(1, NetworkType::Clearnet), false);
    reg.register(4, a(2, NetworkType::Clearnet), true);
    assert!(reg.is_active(a(0, NetworkType::Onion)));
    assert!(reg.is_reachable(a(0, NetworkType::Onion)));
    assert!(!reg.is_reachable(a(1, NetworkType::Clearnet)));
    assert_eq!(reg.owner_of(a(1, NetworkType::Clearnet)), Some(3));
    assert_eq!(reg.owner_of(a(2, NetworkType::Clearnet)), Some(4));
    assert_eq!(reg.owner_of(a(9, NetworkType::Clearnet)), None);
    assert_eq!(reg.node_addresses.get(&3).map(|v| v.len()), Some(2));
}

#[test]
fn deactivate_marks_only_that_nodes_addresses() {
    let mut reg = AddressRegistry::new();
    reg.register(3, a(0, NetworkType::Onion), true);
    reg.register(3, a(1, NetworkType::Clearnet), true);
    reg.register(4, a(2, NetworkType::Clearnet), true);
    reg.deactivate_node(3);
    assert!(!reg.is_active(a(0, NetworkType::Onion)));
    assert!(!reg.is_active(a(1, NetworkType::Clearnet)));
    assert!(reg.is_active(a(2, NetworkType::Clearnet)));
    assert!(reg.is_reachable(a(0, NetworkType::Onion)));
}

#[test]
fn ids_lists_every_registered_address_once() {
    let mut reg = AddressRegistry::new();
    for i in 0..5 {
        reg.register(i as usize, a(i, NetworkType::Clearnet), true);
    }
    let mut ids: Vec<u64> = reg.ids().iter().map(|x| x.id).collect();
    ids.sort();
    assert_eq!(ids, vec![0, 1, 2, 3, 4]);
}

#[test]
fn network_sets() {
    let mut s = NetworkSet::new();
    assert!(!s.contains(NetworkType::Onion) && !s.contains(NetworkType::Clearnet));
    s.insert(NetworkType::Clearnet);
    assert!(s.contains(NetworkType::Clearnet) && !s.contains(NetworkType::Onion));
    let o = NetworkSet::single(NetworkType::Onion);
    assert!(o.contains(NetworkType::Onion) && !o.contains(NetworkType::Clearnet));
}
