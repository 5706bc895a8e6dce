use hyper_lib::address::{AddressId, AddressRegistry, NetworkSet, NetworkType};
use hyper_lib::node::{next_announce_delay, AddrPayload, Event, GetaddrCacheAlgorithm, NetworkMessage, Node};
use rand::rngs::StdRng;
use rand::SeedableRng;

const NOW: u64 = 100_000_000;
const DAY: u64 = 86_400;

fn clear(id: u64) -> AddressId {
    AddressId { id, network: NetworkType::Clearnet }
}

fn onion(id: u64) -> AddressId {
    AddressId { id, network: NetworkType::Onion }
}

fn node(id: usize, addrs: Vec<AddressId>, reachable: NetworkSet, algo: GetaddrCacheAlgorithm) -> Node {
    let mut out = NetworkSet::new();
    for a in &addrs {
        out.insert(a.network);
    }
    Node::new(id, addrs, reachable, out, algo)
}

fn both() -> NetworkSet {
    NetworkSet { onion: true, clearnet: true }
}

fn fill(n: &mut Node, count: u64) {
    for i in 0..count {
        let a = if i % 2 == 0 { clear(1000 + i) } else { onion(1000 + i) };
        n.addrman.add(a, NOW - 100 - i, 0, NOW);
    }
}

fn addr_reply(events: &[Event]) -> (AddressId, AddressId, Vec<AddrPayload>, u64) {
    assert_eq!(events.len(), 1);
    match &events[0] {
        Event::SendMessage { from, to, msg: NetworkMessage::Addr(v), at } => (*from, *to, v.clone(), *at),
        _ => panic!("expected a GETADDR response"),
    }
}

fn pending(n: &Node, a: AddressId) -> usize {
    n.out_peers.get(&a.key()).or(n.in_peers.get(&a.key())).map(|p| p.pending_relay.len()).unwrap()
}

#[test]
fn outbound_connect_sends_one_getaddr() {
    let mut n = node(0, vec![clear(0)], NetworkSet::new(), GetaddrCacheAlgorithm::Current);
    let ev = n.on_connect(clear(5), true, NOW);
    assert_eq!(ev.len(), 2);
    match &ev[0] {
        Event::SendMessage { from, to, msg: NetworkMessage::GetAddr, at } => {
            assert_eq!((*from, *to, *at), (clear(0), clear(5), NOW));
        }
        _ => panic!("expected GETADDR"),
    }
    assert!(matches!(ev[1], Event::SelfAnnounce { node_id: 0, peer_addr, at } if peer_addr == clear(5) && at == NOW + 30));
    let p = n.out_peers.get(&clear(5).key()).unwrap();
    assert!(p.getaddr_sent && !p.getaddr_recvd);
    assert!(n.in_peers.is_empty());
}

#[test]
fn inbound_connect_only_schedules_the_first_self_announcement() {
    let mut n = node(0, vec![clear(0)], NetworkSet::single(NetworkType::Clearnet), GetaddrCacheAlgorithm::Current);
    let ev = n.on_connect(clear(5), false, NOW);
    assert_eq!(ev.len(), 1);
    assert!(matches!(ev[0], Event::SelfAnnounce { node_id: 0, peer_addr, at } if peer_addr == clear(5) && at == NOW + 30));
    assert!(!n.in_peers.get(&clear(5).key()).unwrap().getaddr_sent);
    assert!(n.out_peers.is_empty());
}

#[test]
fn getaddr_answer_comes_from_a_cache_reused_for_the_same_network() {
    let mut rng = StdRng::seed_from_u64(9);
    let mut n = node(0, vec![clear(0)], NetworkSet::single(NetworkType::Clearnet), GetaddrCacheAlgorithm::Current);
    fill(&mut n, 100);
    n.on_connect(clear(5), false, NOW);
    n.on_connect(clear(6), false, NOW);
    assert!(n.check_getaddr_ready(clear(5), NOW));
    let (from, to, first, at) = addr_reply(&n.receive_getaddr(clear(5), NOW, &mut rng));
    assert_eq!((from, to, at), (clear(0), clear(5), NOW));
    assert_eq!(first.len(), 23);
    let c = n.getaddr_cache.clearnet.as_ref().unwrap();
    assert!(c.expires_at >= NOW + 21 * 3600 && c.expires_at < NOW + 27 * 3600);
    assert_eq!(n.node_statistics.getaddr_received, 1);
    // A second requester an hour later gets exactly the same answer.
    let (_, to2, second, _) = addr_reply(&n.receive_getaddr(clear(6), NOW + 3600, &mut rng));
    assert_eq!(to2, clear(6));
    assert_eq!(first, second);
    assert_eq!(n.node_statistics.getaddr_received, 2);
}

#[test]
fn getaddr_is_answered_once_per_connection() {
    let mut rng = StdRng::seed_from_u64(10);
    let mut n = node(0, vec![clear(0)], NetworkSet::single(NetworkType::Clearnet), GetaddrCacheAlgorithm::Current);
    n.on_connect(clear(5), false, NOW);
    n.receive_getaddr(clear(5), NOW, &mut rng);
    assert!(n.in_peers.get(&clear(5).key()).unwrap().getaddr_recvd);
    assert!(!n.check_getaddr_ready(clear(5), NOW));
    assert!(!n.check_getaddr_ready(clear(5), NOW + 10 * DAY));
}

#[test]
fn unreachable_nodes_do_not_answer_getaddr() {
    let mut n = node(0, vec![clear(0)], NetworkSet::new(), GetaddrCacheAlgorithm::Current);
    n.on_connect(clear(5), false, NOW);
    assert!(!n.check_getaddr_ready(clear(5), NOW));
    // A stranger is not answered either.
    let m = node(1, vec![clear(1)], NetworkSet::single(NetworkType::Clearnet), GetaddrCacheAlgorithm::Current);
    assert!(!m.check_getaddr_ready(clear(5), NOW));
}

#[test]
fn expired_cache_is_rebuilt() {
    let mut rng = StdRng::seed_from_u64(11);
    let mut n = node(0, vec![clear(0)], NetworkSet::single(NetworkType::Clearnet), GetaddrCacheAlgorithm::Current);
    fill(&mut n, 40);
    n.on_connect(clear(5), false, NOW);
    n.on_connect(clear(6), false, NOW);
    n.receive_getaddr(clear(5), NOW, &mut rng);
    let old_expiry = n.getaddr_cache.clearnet.as_ref().unwrap().expires_at;
    let later = NOW + 27 * 3600;
    n.receive_getaddr(clear(6), later, &mut rng);
    let c = n.getaddr_cache.clearnet.as_ref().unwrap();
    assert!(c.expires_at >= later + 21 * 3600 && c.expires_at > old_expiry);
}

#[test]
fn fixed_offset_stamps_eight_to_twelve_whole_days_back() {
    let mut rng = StdRng::seed_from_u64(12);
    let mut n = node(0, vec![clear(0)], NetworkSet::single(NetworkType::Clearnet), GetaddrCacheAlgorithm::FixedOffset);
    fill(&mut n, 100);
    n.on_connect(clear(5), false, NOW);
    let (_, _, v, _) = addr_reply(&n.receive_getaddr(clear(5), NOW, &mut rng));
    assert_eq!(v.len(), 23);
    for p in &v {
        let back = NOW - p.timestamp;
        assert!(back >= 8 * DAY && back <= 12 * DAY);
        assert_eq!(back % DAY, 0);
    }
}

#[test]
fn network_based_stamps_cross_network_five_days_back() {
    let mut rng = StdRng::seed_from_u64(13);
    let mut n = node(0, vec![onion(0), clear(1)], both(), GetaddrCacheAlgorithm::NetworkBased);
    fill(&mut n, 100);
    n.on_connect(onion(5), false, NOW);
    let (from, _, v, _) = addr_reply(&n.receive_getaddr(onion(5), NOW, &mut rng));
    assert_eq!(from, onion(0));
    for p in &v {
        let real = n.addrman.entries.get(&p.address.key()).unwrap().timestamp;
        if p.address.network == NetworkType::Onion {
            assert_eq!(p.timestamp, real);
        } else {
            assert_eq!(p.timestamp, NOW - 5 * DAY);
        }
    }
}

#[test]
fn current_algorithm_keeps_real_timestamps() {
    let mut rng = StdRng::seed_from_u64(14);
    let mut n = node(0, vec![clear(0)], NetworkSet::single(NetworkType::Clearnet), GetaddrCacheAlgorithm::Current);
    fill(&mut n, 50);
    n.on_connect(clear(5), false, NOW);
    let (_, _, v, _) = addr_reply(&n.receive_getaddr(clear(5), NOW, &mut rng));
    for p in &v {
        assert_eq!(p.timestamp, n.addrman.entries.get(&p.address.key()).unwrap().timestamp);
    }
}

#[test]
fn stamps_fit_needs_twelve_days_for_fixed_offset() {
    let mut n = node(0, vec![clear(0)], NetworkSet::single(NetworkType::Clearnet), GetaddrCacheAlgorithm::FixedOffset);
    let early = 5 * DAY;
    assert!(n.stamps_fit(NetworkType::Clearnet, early));
    n.addrman.add(clear(9), early - 10, 0, early);
    assert!(!n.stamps_fit(NetworkType::Clearnet, early));
    assert!(n.stamps_fit(NetworkType::Clearnet, 12 * DAY));
}

#[test]
fn getaddr_response_fills_addrman_with_two_hour_penalty() {
    let mut n = node(0, vec![clear(0)], NetworkSet::single(NetworkType::Clearnet), GetaddrCacheAlgorithm::Current);
    n.on_connect(clear(5), true, NOW);
    n.on_connect(clear(6), true, NOW);
    n.receive_addr(vec![AddrPayload { address: clear(7), timestamp: NOW }], NOW);
    assert_eq!(n.addrman.entries.get(&clear(7).key()).unwrap().timestamp, NOW - 7200);
    assert_eq!(n.node_statistics.addr_received, 1);
    assert_eq!(pending(&n, clear(5)) + pending(&n, clear(6)), 0);
}

fn relay_setup() -> (Node, AddressRegistry) {
    let mut reg = AddressRegistry::new();
    for i in 0..10 {
        reg.register(i as usize, clear(i), true);
    }
    let mut n = node(0, vec![clear(0)], NetworkSet::single(NetworkType::Clearnet), GetaddrCacheAlgorithm::Current);
    n.on_connect(clear(1), true, NOW);
    n.on_connect(clear(2), true, NOW);
    n.on_connect(clear(3), true, NOW);
    n.on_connect(clear(4), false, NOW);
    (n, reg)
}

#[test]
fn self_announcement_is_stored_without_penalty_and_relayed() {
    let mut rng = StdRng::seed_from_u64(15);
    let (mut n, reg) = relay_setup();
    let msg = vec![AddrPayload { address: clear(4), timestamp: NOW }];
    assert!(n.check_announce_ready(clear(4), &msg, NOW, &reg));
    let ev = n.receive_addr_announce(clear(4), msg, NOW, &reg, &mut rng);
    assert!(ev.is_empty());
    assert_eq!(n.addrman.entries.get(&clear(4).key()).unwrap().timestamp, NOW);
    assert_eq!(n.node_statistics.addr_announce_received, 1);
    // The sender learns nothing back and inbound peers get nothing queued.
    assert_eq!(pending(&n, clear(4)), 0);
    assert!(n.in_peers.get(&clear(4).key()).unwrap().addr_known.contains(&clear(4).key()));
    let queued = pending(&n, clear(1)) + pending(&n, clear(2)) + pending(&n, clear(3));
    assert!(queued >= 1 && queued <= 2);
    for a in [clear(1), clear(2), clear(3)] {
        if let Some(p) = n.out_peers.get(&a.key()) {
            for q in &p.pending_relay {
                assert_eq!(*q, AddrPayload { address: clear(4), timestamp: NOW });
            }
        }
    }
}

#[test]
fn relayed_address_carries_two_hour_penalty() {
    let mut rng = StdRng::seed_from_u64(16);
    let (mut n, reg) = relay_setup();
    let msg = vec![AddrPayload { address: clear(8), timestamp: NOW }];
    n.receive_addr_announce(clear(4), msg, NOW, &reg, &mut rng);
    assert_eq!(n.addrman.entries.get(&clear(8).key()).unwrap().timestamp, NOW - 7200);
}

#[test]
fn large_batches_are_not_relayed() {
    let mut rng = StdRng::seed_from_u64(17);
    let (mut n, reg) = relay_setup();
    let msg: Vec<AddrPayload> = (0..11).map(|i| AddrPayload { address: clear(100 + i), timestamp: NOW }).collect();
    n.receive_addr_announce(clear(4), msg, NOW, &reg, &mut rng);
    assert_eq!(pending(&n, clear(1)) + pending(&n, clear(2)) + pending(&n, clear(3)), 0);
    assert_eq!(n.addrman.entries.len(), 11);
}

#[test]
fn stale_or_solicited_announcements_are_not_relayed() {
    let mut rng = StdRng::seed_from_u64(18);
    let (mut n, reg) = relay_setup();
    // Older than ten minutes.
    let msg = vec![AddrPayload { address: clear(4), timestamp: NOW - 601 }];
    n.receive_addr_announce(clear(4), msg, NOW, &reg, &mut rng);
    // From a peer we sent GETADDR to.
    let msg = vec![AddrPayload { address: clear(1), timestamp: NOW }];
    n.receive_addr_announce(clear(1), msg, NOW, &reg, &mut rng);
    assert_eq!(pending(&n, clear(1)) + pending(&n, clear(2)) + pending(&n, clear(3)), 0);
}

#[test]
fn unregistered_fresh_address_makes_an_announcement_unready() {
    let (n, reg) = relay_setup();
    let msg = vec![AddrPayload { address: clear(55), timestamp: NOW }];
    assert!(!n.check_announce_ready(clear(4), &msg, NOW, &reg));
    let big: Vec<AddrPayload> = (0..11).map(|i| AddrPayload { address: clear(200 + i), timestamp: NOW }).collect();
    assert!(n.check_announce_ready(clear(4), &big, NOW, &reg));
}

#[test]
fn flush_sends_the_whole_queue_once() {
    let mut rng = StdRng::seed_from_u64(19);
    let (mut n, reg) = relay_setup();
    n.receive_addr_announce(clear(4), vec![AddrPayload { address: clear(4), timestamp: NOW }], NOW, &reg, &mut rng);
    let target = [clear(1), clear(2), clear(3)].into_iter().find(|a| pending(&n, *a) > 0).unwrap();
    let ev = n.flush_addr_queue(target, NOW + 30);
    assert_eq!(ev.len(), 1);
    match &ev[0] {
        Event::SendMessage { from, to, msg: NetworkMessage::AddrAnnounce(v), at } => {
            assert_eq!((*from, *to, *at), (clear(0), target, NOW + 30));
            assert_eq!(v, &vec![AddrPayload { address: clear(4), timestamp: NOW }]);
        }
        _ => panic!("expected an announcement"),
    }
    assert_eq!(pending(&n, target), 0);
    assert_eq!(n.node_statistics.addr_announce_sent, 1);
    assert!(n.flush_addr_queue(target, NOW + 60).is_empty());
    assert!(n.flush_addr_queue(clear(99), NOW + 60).is_empty());
    assert_eq!(n.node_statistics.addr_announce_sent, 1);
}

#[test]
fn self_announce_uses_the_address_on_the_peer_network() {
    let mut n = node(0, vec![onion(0), clear(1)], both(), GetaddrCacheAlgorithm::Current);
    n.on_connect(onion(7), true, NOW);
    let ev = n.self_announce_to_peer(onion(7), NOW);
    assert_eq!(ev.len(), 1);
    match &ev[0] {
        Event::SendMessage { from, to, msg: NetworkMessage::AddrAnnounce(v), at } => {
            assert_eq!((*from, *to, *at), (onion(0), onion(7), NOW));
            assert_eq!(v, &vec![AddrPayload { address: onion(0), timestamp: NOW }]);
        }
        _ => panic!("expected an announcement"),
    }
    assert_eq!(n.node_statistics.addr_announce_sent, 1);
}

#[test]
fn non_listening_nodes_do_not_self_announce() {
    let mut n = node(0, vec![onion(0), clear(1)], NetworkSet::single(NetworkType::Onion), GetaddrCacheAlgorithm::Current);
    n.on_connect(clear(7), true, NOW);
    assert!(n.self_announce_to_peer(clear(7), NOW).is_empty());
    assert_eq!(n.node_statistics.addr_announce_sent, 0);
}

#[test]
fn self_announce_clears_what_the_peer_is_known_to_have() {
    let mut rng = StdRng::seed_from_u64(20);
    let (mut n, reg) = relay_setup();
    n.receive_addr_announce(clear(4), vec![AddrPayload { address: clear(4), timestamp: NOW }], NOW, &reg, &mut rng);
    assert!(!n.in_peers.get(&clear(4).key()).unwrap().addr_known.is_empty());
    n.self_announce_to_peer(clear(4), NOW);
    assert!(n.in_peers.get(&clear(4).key()).unwrap().addr_known.is_empty());
}

#[test]
fn losing_an_outbound_peer_asks_for_a_replacement() {
    let mut n = node(3, vec![clear(0)], NetworkSet::new(), GetaddrCacheAlgorithm::Current);
    n.on_connect(clear(5), true, NOW);
    n.addrman.add(clear(5), NOW - 5000, 0, NOW);
    let ev = n.on_disconnect(clear(5), NOW);
    assert_eq!(ev.len(), 1);
    match &ev[0] {
        Event::NodeReconnect { node_id, network, at } => {
            assert_eq!((*node_id, *network, *at), (3, NetworkType::Clearnet, NOW));
        }
        _ => panic!("expected a reconnect"),
    }
    assert!(n.out_peers.is_empty());
    assert_eq!(n.addrman.entries.get(&clear(5).key()).unwrap().timestamp, NOW);
}

#[test]
fn losing_an_inbound_peer_asks_for_nothing() {
    let mut n = node(3, vec![clear(0)], NetworkSet::single(NetworkType::Clearnet), GetaddrCacheAlgorithm::Current);
    n.on_connect(clear(5), false, NOW);
    n.addrman.add(clear(5), NOW - 600, 0, NOW);
    assert!(n.on_disconnect(clear(5), NOW).is_empty());
    assert!(n.in_peers.is_empty());
    assert_eq!(n.addrman.entries.get(&clear(5).key()).unwrap().timestamp, NOW - 600);
}

#[test]
fn failed_connection_changes_nothing() {
    let mut n = node(3, vec![clear(0)], NetworkSet::new(), GetaddrCacheAlgorithm::Current);
    n.on_connect(clear(5), true, NOW);
    n.on_connect_failed(clear(6), NOW);
    assert_eq!(n.out_peers.len(), 1);
}

#[test]
fn own_address_lookup() {
    let n = node(3, vec![onion(4), clear(5)], both(), GetaddrCacheAlgorithm::Current);
    assert_eq!(n.own_addr_for_network(NetworkType::Clearnet), clear(5));
    assert_eq!(n.find_own(NetworkType::Onion), Some(onion(4)));
    let m = node(4, vec![clear(6)], both(), GetaddrCacheAlgorithm::Current);
    assert_eq!(m.find_own(NetworkType::Onion), None);
}

#[test]
fn caches_are_kept_per_network() {
    let mut rng = StdRng::seed_from_u64(21);
    let mut n = node(0, vec![onion(0), clear(1)], both(), GetaddrCacheAlgorithm::Current);
    fill(&mut n, 60);
    n.on_connect(onion(5), false, NOW);
    n.on_connect(clear(6), false, NOW);
    let (from_o, _, onion_answer, _) = addr_reply(&n.receive_getaddr(onion(5), NOW, &mut rng));
    assert_eq!(from_o, onion(0));
    assert!(n.getaddr_cache.clearnet.is_none());
    let onion_expiry = n.getaddr_cache.onion.as_ref().unwrap().expires_at;
    let (from_c, _, clear_answer, _) = addr_reply(&n.receive_getaddr(clear(6), NOW + 60, &mut rng));
    assert_eq!(from_c, clear(1));
    assert_eq!(n.getaddr_cache.onion.as_ref().unwrap().expires_at, onion_expiry);
    assert_eq!(n.getaddr_cache.onion.as_ref().unwrap().entries, onion_answer);
    assert_eq!(n.getaddr_cache.clearnet.as_ref().unwrap().entries, clear_answer);
    assert_eq!(clear_answer.len(), 13);
}

#[test]
fn each_relayed_address_reaches_at_most_two_peers() {
    let mut rng = StdRng::seed_from_u64(22);
    let (mut n, reg) = relay_setup();
    let msg: Vec<AddrPayload> = (7..10).map(|i| AddrPayload { address: clear(i), timestamp: NOW }).collect();
    n.receive_addr_announce(clear(4), msg, NOW, &reg, &mut rng);
    for i in 7..10 {
        let holders = [clear(1), clear(2), clear(3)]
            .iter()
            .filter(|p| n.out_peers[&p.key()].pending_relay.iter().any(|q| q.address == clear(i)))
            .count();
        assert!(holders >= 1 && holders <= 2);
    }
}

#[test]
fn relays_can_go_to_inbound_peers() {
    let mut reached_inbound = false;
    for seed in 0..64 {
        let mut rng = StdRng::seed_from_u64(seed);
        let (mut n, reg) = relay_setup();
        n.on_connect(clear(5), false, NOW);
        n.on_connect(clear(6), false, NOW);
        let msg = vec![AddrPayload { address: clear(4), timestamp: NOW }];
        n.receive_addr_announce(clear(4), msg, NOW, &reg, &mut rng);
        let all = [clear(1), clear(2), clear(3), clear(5), clear(6)];
        let queued: usize = all.iter().map(|a| pending(&n, *a)).sum();
        // A listening address goes to exactly two of the five candidates.
        assert_eq!(queued, 2);
        assert_eq!(pending(&n, clear(4)), 0);
        if pending(&n, clear(5)) + pending(&n, clear(6)) > 0 {
            reached_inbound = true;
        }
    }
    assert!(reached_inbound);
}

#[test]
fn departed_addresses_are_not_relayed() {
    let mut rng = StdRng::seed_from_u64(20);
    let (mut n, mut reg) = relay_setup();
    reg.deactivate_node(8);
    let msg = vec![AddrPayload { address: clear(8), timestamp: NOW }];
    n.receive_addr_announce(clear(4), msg, NOW, &reg, &mut rng);
    assert_eq!(pending(&n, clear(1)) + pending(&n, clear(2)) + pending(&n, clear(3)), 0);
    // The addrman still takes the address in.
    assert_eq!(n.addrman.entries.get(&clear(8).key()).unwrap().timestamp, NOW - 7200);
}

#[test]
fn self_announcement_delays_stay_within_thirty_days_and_average_about_a_day() {
    let mut rng = StdRng::seed_from_u64(21);
    let mut total: u64 = 0;
    let runs = 2000;
    for _ in 0..runs {
        let d = next_announce_delay(&mut rng);
        assert!(d >= 1 && d <= 600 * 4321);
        total += d;
    }
    let mean = total / runs;
    assert!(mean > 18 * 3600 && mean < 30 * 3600);
}

#[test]
fn a_silent_address_is_relayed_to_one_or_two_peers() {
    for seed in 0..32 {
        let mut rng = StdRng::seed_from_u64(seed);
        let (mut n, mut reg) = relay_setup();
        reg.register(9, clear(19), false);
        let msg = vec![AddrPayload { address: clear(19), timestamp: NOW }];
        n.receive_addr_announce(clear(4), msg, NOW, &reg, &mut rng);
        let queued = pending(&n, clear(1)) + pending(&n, clear(2)) + pending(&n, clear(3));
        assert!(queued == 1 || queued == 2);
    }
}

#[test]
fn with_one_other_peer_a_relay_goes_to_it_alone() {
    let mut rng = StdRng::seed_from_u64(22);
    let mut reg = AddressRegistry::new();
    for i in 0..3 {
        reg.register(i as usize, clear(i), true);
    }
    let mut n = node(0, vec![clear(0)], NetworkSet::single(NetworkType::Clearnet), GetaddrCacheAlgorithm::Current);
    n.on_connect(clear(1), false, NOW);
    n.on_connect(clear(2), false, NOW);
    let msg = vec![AddrPayload { address: clear(1), timestamp: NOW }];
    n.receive_addr_announce(clear(1), msg, NOW, &reg, &mut rng);
    assert_eq!(pending(&n, clear(2)), 1);
    assert_eq!(pending(&n, clear(1)), 0);
}

#[test]
fn each_address_of_a_batch_reaches_exactly_two_peers() {
    for seed in 0..16 {
        let mut rng = StdRng::seed_from_u64(seed);
        let (mut n, reg) = relay_setup();
        let msg: Vec<AddrPayload> = (7..10).map(|i| AddrPayload { address: clear(i), timestamp: NOW }).collect();
        n.receive_addr_announce(clear(4), msg, NOW, &reg, &mut rng);
        for i in 7..10 {
            let holders = [clear(1), clear(2), clear(3)]
                .iter()
                .filter(|p| n.out_peers[&p.key()].pending_relay.iter().any(|q| q.address == clear(i)))
                .count();
            // Each listening address goes to two of the three candidates, whatever its place.
            assert_eq!(holders, 2);
        }
    }
}
