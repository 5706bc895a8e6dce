use hyper_lib::address::{AddressId, NetworkSet, NetworkType};
use hyper_lib::network::Network;
use hyper_lib::node::{AddrPayload, Event, GetaddrCacheAlgorithm, NetworkMessage};
use rand::rngs::StdRng;
use rand::SeedableRng;

const NOW: u64 = 50_000_000;

fn clear_node(net: &mut Network, reachable: bool, outbounds: usize, rng: &mut StdRng) -> (usize, Vec<Event>) {
    let r = if reachable { NetworkSet::single(NetworkType::Clearnet) } else { NetworkSet::new() };
    net.add_node(vec![NetworkType::Clearnet], r, outbounds, GetaddrCacheAlgorithm::Current, NOW, rng)
}

fn getaddr_target(e: &Event) -> (AddressId, AddressId, u64) {
    match e {
        Event::SendMessage { from, to, msg: NetworkMessage::GetAddr, at } => (*from, *to, *at),
        _ => panic!("expected GETADDR"),
    }
}

#[test]
fn new_network_is_empty() {
    let net = Network::new();
    assert!(net.nodes.is_empty());
    assert!(net.registry.addresses.is_empty());
    assert_eq!((net.next_node_id, net.next_addr_id), (0, 0));
}

#[test]
fn joining_nodes_connect_to_listening_peers() {
    let mut rng = StdRng::seed_from_u64(1);
    let mut net = Network::new();
    let (a, ev) = clear_node(&mut net, true, 8, &mut rng);
    assert_eq!((a, ev.len()), (0, 0));
    let (b, ev) = clear_node(&mut net, true, 8, &mut rng);
    assert_eq!(b, 1);
    assert_eq!(ev.len(), 3);
    let (from, to, at) = getaddr_target(&ev[0]);
    assert_eq!(from, net.nodes[&b].addresses[0]);
    assert_eq!(to, net.nodes[&a].addresses[0]);
    assert_eq!(at, NOW);
    // Both ends first announce themselves to the other 30 seconds later.
    assert!(matches!(ev[1], Event::SelfAnnounce { node_id, peer_addr, at } if node_id == b && peer_addr == to && at == NOW + 30));
    assert!(matches!(ev[2], Event::SelfAnnounce { node_id, peer_addr, at } if node_id == a && peer_addr == from && at == NOW + 30));
    assert!(net.nodes[&a].in_peers.contains_key(&from.key()));
    assert!(net.nodes[&b].out_peers.contains_key(&to.key()));
    let (c, ev) = clear_node(&mut net, false, 8, &mut rng);
    assert_eq!(ev.len(), 6);
    assert_eq!(net.nodes[&c].out_peers.len(), 2);
    // Nobody can connect to a node that does not listen.
    let (_, ev) = clear_node(&mut net, false, 8, &mut rng);
    assert_eq!(ev.len(), 6);
    assert!(net.nodes[&c].in_peers.is_empty());
    assert_eq!(net.next_addr_id, 4);
}

#[test]
fn outbound_count_is_capped() {
    let mut rng = StdRng::seed_from_u64(2);
    let mut net = Network::new();
    for _ in 0..6 {
        clear_node(&mut net, true, 8, &mut rng);
    }
    let (id, ev) = clear_node(&mut net, true, 3, &mut rng);
    assert_eq!(ev.len(), 9);
    assert_eq!(net.nodes[&id].out_peers.len(), 3);
}

#[test]
fn networks_do_not_mix() {
    let mut rng = StdRng::seed_from_u64(3);
    let mut net = Network::new();
    clear_node(&mut net, true, 8, &mut rng);
    let (o, ev) = net.add_node(
        vec![NetworkType::Onion],
        NetworkSet::single(NetworkType::Onion),
        8,
        GetaddrCacheAlgorithm::Current,
        NOW,
        &mut rng,
    );
    assert!(ev.is_empty());
    assert!(net.nodes[&o].out_peers.is_empty());
    let (d, ev) = net.add_node(
        vec![NetworkType::Onion, NetworkType::Clearnet],
        NetworkSet::new(),
        8,
        GetaddrCacheAlgorithm::Current,
        NOW,
        &mut rng,
    );
    assert_eq!(ev.len(), 6);
    for e in &ev[..2] {
        let (from, to, _) = getaddr_target(e);
        assert_eq!(from.network, to.network);
    }
    assert_eq!(net.nodes[&d].addresses.len(), 2);
}

#[test]
fn removing_a_node_deactivates_it_and_asks_its_dialers_to_reconnect() {
    let mut rng = StdRng::seed_from_u64(4);
    let mut net = Network::new();
    let (a, _) = clear_node(&mut net, true, 8, &mut rng);
    let (b, _) = clear_node(&mut net, true, 8, &mut rng);
    let a_addr = net.nodes[&a].addresses[0];
    let ev = net.remove_node(a, NOW + 10);
    assert!(!net.nodes.contains_key(&a));
    assert!(!net.registry.is_active(a_addr));
    assert_eq!(ev.len(), 1);
    match &ev[0] {
        Event::NodeReconnect { node_id, network, at } => {
            assert_eq!((*node_id, *network, *at), (b, NetworkType::Clearnet, NOW + 10));
        }
        _ => panic!("expected a reconnect"),
    }
    assert!(net.nodes[&b].out_peers.is_empty());
    assert_eq!(net.node_id_for_addr(a_addr), a);
}

#[test]
fn reconnect_finds_a_new_listening_peer() {
    let mut rng = StdRng::seed_from_u64(5);
    let mut net = Network::new();
    let (a, _) = clear_node(&mut net, true, 1, &mut rng);
    let (b, _) = clear_node(&mut net, true, 1, &mut rng);
    let (c, _) = clear_node(&mut net, true, 0, &mut rng);
    assert_eq!(net.nodes[&b].out_peers.len(), 1);
    net.remove_node(a, NOW);
    let ev = net.reconnect_outbound(b, NetworkType::Clearnet, NOW, &mut rng);
    assert_eq!(ev.len(), 3);
    let (_, to, _) = getaddr_target(&ev[0]);
    assert_eq!(to, net.nodes[&c].addresses[0]);
    // Nothing left to try.
    assert!(net.reconnect_outbound(b, NetworkType::Clearnet, NOW, &mut rng).is_empty());
}

#[test]
fn top_up_fills_to_the_target() {
    let mut rng = StdRng::seed_from_u64(6);
    let mut net = Network::new();
    for _ in 0..5 {
        clear_node(&mut net, true, 0, &mut rng);
    }
    let (x, _) = clear_node(&mut net, false, 1, &mut rng);
    assert_eq!(net.nodes[&x].out_peers.len(), 1);
    let ev = net.top_up_outbounds(x, 3, NOW, &mut rng);
    assert_eq!(ev.len(), 6);
    assert_eq!(net.nodes[&x].out_peers.len(), 3);
    assert!(net.top_up_outbounds(x, 3, NOW, &mut rng).is_empty());
    assert!(net.top_up_outbounds(x, 2, NOW, &mut rng).is_empty());
}

#[test]
fn delivered_getaddr_is_counted_and_answered() {
    let mut rng = StdRng::seed_from_u64(7);
    let mut net = Network::new();
    let (a, _) = clear_node(&mut net, true, 8, &mut rng);
    let (b, ev) = clear_node(&mut net, true, 8, &mut rng);
    let (from, to, at) = getaddr_target(&ev[0]);
    let reply = net.deliver_getaddr(from, to, at, &mut rng);
    assert_eq!(reply.len(), 1);
    assert_eq!(net.nodes[&b].node_statistics.getaddr_sent, 1);
    assert_eq!(net.nodes[&a].node_statistics.getaddr_received, 1);
    match &reply[0] {
        Event::SendMessage { from: f, to: t, msg: NetworkMessage::Addr(v), .. } => {
            assert_eq!((*f, *t), (to, from));
            net.deliver_addr(*f, *t, v.clone(), at);
        }
        _ => panic!("expected a GETADDR response"),
    }
    assert_eq!(net.nodes[&a].node_statistics.addr_sent, 1);
    assert_eq!(net.nodes[&b].node_statistics.addr_received, 1);
    // The same peer asking again on the same connection gets nothing.
    assert!(net.deliver_getaddr(from, to, at, &mut rng).is_empty());
    assert_eq!(net.nodes[&b].node_statistics.getaddr_sent, 1);
}

#[test]
fn messages_to_departed_nodes_change_nothing() {
    let mut rng = StdRng::seed_from_u64(8);
    let mut net = Network::new();
    let (a, _) = clear_node(&mut net, true, 8, &mut rng);
    let (b, ev) = clear_node(&mut net, true, 8, &mut rng);
    let (from, to, at) = getaddr_target(&ev[0]);
    net.remove_node(a, NOW);
    assert!(net.deliver_getaddr(from, to, at, &mut rng).is_empty());
    assert_eq!(net.nodes[&b].node_statistics.getaddr_sent, 0);
    let payload = vec![AddrPayload { address: from, timestamp: at }];
    assert!(net.deliver_announce(from, to, payload, at, &mut rng).is_empty());
    assert!(net.self_announce(a, from, at, &mut rng).is_empty());
    assert!(net.flush_addr_queue(a, from, at).is_empty());
    assert!(net.reconnect(a, NetworkType::Clearnet, at, &mut rng).is_empty());
}

#[test]
fn self_announce_through_the_network() {
    let mut rng = StdRng::seed_from_u64(9);
    let mut net = Network::new();
    let (a, _) = clear_node(&mut net, true, 8, &mut rng);
    let (b, _) = clear_node(&mut net, true, 8, &mut rng);
    let a_addr = net.nodes[&a].addresses[0];
    let b_addr = net.nodes[&b].addresses[0];
    let ev = net.self_announce(b, a_addr, NOW, &mut rng);
    assert_eq!(ev.len(), 2);
    // While still connected, the next self-announcement is scheduled: within 30 days.
    assert!(matches!(ev[1], Event::SelfAnnounce { node_id, peer_addr, at } if node_id == b && peer_addr == a_addr && at > NOW && at <= NOW + 600 * 4321));
    match &ev[0] {
        Event::SendMessage { from, to, msg: NetworkMessage::AddrAnnounce(v), at } => {
            assert_eq!((*from, *to, *at), (b_addr, a_addr, NOW));
            assert_eq!(v, &vec![AddrPayload { address: b_addr, timestamp: NOW }]);
            let r = net.deliver_announce(*from, *to, v.clone(), *at, &mut rng);
            assert!(r.is_empty());
        }
        _ => panic!("expected an announcement"),
    }
    assert_eq!(net.nodes[&a].addrman.entries.get(&b_addr.key()).unwrap().timestamp, NOW);
    assert_eq!(net.nodes[&a].node_statistics.addr_announce_received, 1);
}

#[test]
fn getaddr_to_a_non_listening_node_is_dropped() {
    let mut rng = StdRng::seed_from_u64(10);
    let mut net = Network::new();
    let (a, _) = clear_node(&mut net, false, 8, &mut rng);
    let (b, _) = clear_node(&mut net, false, 8, &mut rng);
    let a_addr = net.nodes[&a].addresses[0];
    let b_addr = net.nodes[&b].addresses[0];
    assert!(net.deliver_getaddr(b_addr, a_addr, NOW, &mut rng).is_empty());
    assert_eq!(net.nodes[&b].node_statistics.getaddr_sent, 0);
    assert_eq!(net.nodes[&a].node_statistics.getaddr_received, 0);
}

#[test]
fn reconnect_skips_nodes_already_connected_on_another_network() {
    let mut rng = StdRng::seed_from_u64(11);
    let mut net = Network::new();
    let both = NetworkSet { onion: true, clearnet: true };
    let (d, _) = net.add_node(vec![NetworkType::Onion, NetworkType::Clearnet], both, 0, GetaddrCacheAlgorithm::Current, NOW, &mut rng);
    let (b, ev) = net.add_node(vec![NetworkType::Onion, NetworkType::Clearnet], NetworkSet::new(), 1, GetaddrCacheAlgorithm::Current, NOW, &mut rng);
    assert_eq!(ev.len(), 3);
    let (_, to, _) = getaddr_target(&ev[0]);
    assert_eq!(net.registry.owner_of(to), Some(d));
    assert!(net.reconnect_outbound(b, NetworkType::Onion, NOW, &mut rng).is_empty());
    assert!(net.reconnect_outbound(b, NetworkType::Clearnet, NOW, &mut rng).is_empty());
    assert_eq!(net.nodes[&b].out_peers.len(), 1);
}

#[test]
fn top_up_skips_connected_addresses_but_not_their_nodes() {
    let mut rng = StdRng::seed_from_u64(14);
    let mut net = Network::new();
    let both = NetworkSet { onion: true, clearnet: true };
    let (d, _) = net.add_node(vec![NetworkType::Onion, NetworkType::Clearnet], both, 0, GetaddrCacheAlgorithm::Current, NOW, &mut rng);
    let (b, ev) = net.add_node(vec![NetworkType::Onion, NetworkType::Clearnet], NetworkSet::new(), 1, GetaddrCacheAlgorithm::Current, NOW, &mut rng);
    let (_, first, _) = getaddr_target(&ev[0]);
    // d's other address is not connected yet: topping up dials it.
    let ev = net.top_up_outbounds(b, 4, NOW, &mut rng);
    assert_eq!(ev.len(), 3);
    let (_, second, _) = getaddr_target(&ev[0]);
    assert_eq!(net.registry.owner_of(second), Some(d));
    assert_ne!(second, first);
    assert_eq!(net.nodes[&b].out_peers.len(), 2);
    // Nothing left to dial.
    assert!(net.top_up_outbounds(b, 4, NOW, &mut rng).is_empty());
}

#[test]
fn a_queued_relay_is_flushed_thirty_seconds_later() {
    let mut rng = StdRng::seed_from_u64(12);
    let mut net = Network::new();
    let (a, _) = clear_node(&mut net, true, 0, &mut rng);
    let (b, _) = clear_node(&mut net, true, 1, &mut rng);
    let (c, _) = clear_node(&mut net, false, 1, &mut rng);
    let a_addr = net.nodes[&a].addresses[0];
    let b_addr = net.nodes[&b].addresses[0];
    let c_addr = net.nodes[&c].addresses[0];
    // b and c both dialed a, the only other listening node when each joined... or b.
    assert!(net.nodes[&a].in_peers.contains_key(&b_addr.key()));
    let ev = net.self_announce(b, a_addr, NOW, &mut rng);
    let r = match &ev[0] {
        Event::SendMessage { from, to, msg: NetworkMessage::AddrAnnounce(v), at } => {
            net.deliver_announce(*from, *to, v.clone(), *at, &mut rng)
        }
        _ => panic!("expected an announcement"),
    };
    // a relays b's address to its other peers (if any); each queue that filled up gets
    // one flush, 30 seconds on.
    let others: Vec<AddressId> = net.nodes[&a]
        .out_peers
        .values()
        .chain(net.nodes[&a].in_peers.values())
        .filter(|p| p.addr != b_addr && !p.pending_relay.is_empty())
        .map(|p| p.addr)
        .collect();
    assert_eq!(r.len(), others.len());
    for e in &r {
        match e {
            Event::FlushAddrQueue { node_id, peer_addr, at } => {
                assert_eq!((*node_id, *at), (a, NOW + 30));
                assert!(others.contains(peer_addr));
            }
            _ => panic!("expected a flush"),
        }
    }
    if net.nodes[&a].in_peers.contains_key(&c_addr.key()) {
        assert_eq!(r.len(), 1);
        let f = net.flush_addr_queue(a, c_addr, NOW + 30);
        assert_eq!(f.len(), 1);
    }
}

#[test]
fn after_a_departure_nobody_stays_connected_to_it() {
    let mut rng = StdRng::seed_from_u64(13);
    let mut net = Network::new();
    for _ in 0..6 {
        clear_node(&mut net, true, 2, &mut rng);
    }
    let gone = 2;
    net.remove_node(gone, NOW);
    for n in net.nodes.values() {
        for p in n.out_peers.values().chain(n.in_peers.values()) {
            assert_ne!(net.registry.owner_of(p.addr), Some(gone));
            // Every remaining connection is known at the other end.
            let o = net.registry.owner_of(p.addr).unwrap();
            let other = &net.nodes[&o];
            let own = n.addresses[0].key();
            assert!(other.out_peers.contains_key(&own) || other.in_peers.contains_key(&own));
        }
        // Every dialed address is still active and belongs to another node.
        for p in n.out_peers.values() {
            assert!(net.registry.is_active(p.addr));
            assert_ne!(net.registry.owner_of(p.addr), Some(n.node_id));
        }
    }
}

#[test]
fn a_departure_refreshes_only_the_departed_address_at_its_peers() {
    let mut rng = StdRng::seed_from_u64(14);
    let mut net = Network::new();
    let (a, _) = clear_node(&mut net, true, 8, &mut rng);
    let (b, _) = clear_node(&mut net, true, 8, &mut rng);
    let a_addr = net.nodes[&a].addresses[0];
    let other = AddressId { id: 77, network: NetworkType::Clearnet };
    let old_ts = NOW - 100_000;
    {
        let nb = net.nodes.get_mut(&b).unwrap();
        nb.addrman.add(a_addr, old_ts, 0, NOW);
        nb.addrman.add(other, old_ts, 0, NOW);
    }
    let s0 = &net.nodes[&b].node_statistics;
    let stats_before = (s0.getaddr_sent, s0.getaddr_received, s0.addr_sent, s0.addr_received, s0.addr_announce_received);
    net.remove_node(a, NOW + 10);
    let nb = &net.nodes[&b];
    assert_eq!(nb.addrman.entries[&a_addr.key()].timestamp, NOW + 10);
    assert_eq!(nb.addrman.entries[&other.key()].timestamp, old_ts);
    assert_eq!(nb.addrman.entries.len(), 2);
    assert!(nb.out_peers.is_empty() && nb.in_peers.is_empty());
    let s1 = &nb.node_statistics;
    assert_eq!((s1.getaddr_sent, s1.getaddr_received, s1.addr_sent, s1.addr_received, s1.addr_announce_received), stats_before);
    // The departed address still answers to the departed node.
    assert_eq!(net.node_id_for_addr(a_addr), a);
}
