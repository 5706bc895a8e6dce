use hyper_lib::address::{AddressId, NetworkType};
use hyper_lib::node::{Event, GetaddrCacheAlgorithm};
use hyper_lib::simulator::{event_time, node_kind_of, node_type_idx, EventQueue, KindCounts, ScheduledEvent, Simulator};
use hyper_lib::statistics::{count_entries, kind_totals, EntryFilter};
use hyper_lib::{SimulationConfig, StartMode};

const START: u64 = 1_700_000_000;
const DAY: u64 = 86_400;

fn config(start_mode: StartMode) -> SimulationConfig {
    SimulationConfig {
        onion: 2,
        clearnet: 3,
        dual_stack: 1,
        reachable_clearnet_pct: 100,
        reachable_onion_pct: 100,
        outbounds: 2,
        days: 2,
        burn_in_days: 1,
        joins_per_day: 2,
        leaves_per_day: 1,
        start_mode,
        dns_sample_pct: 50,
        cache_algo: GetaddrCacheAlgorithm::Current,
    }
}

fn join(at: u64) -> Event {
    Event::NodeJoin { at }
}

#[test]
fn queue_pops_in_time_order_and_keeps_arrival_order_for_ties() {
    let mut q = EventQueue::new();
    q.push(ScheduledEvent::new(Event::NodeLeave { node_id: 1, at: 30 }, 30));
    q.push(ScheduledEvent::new(Event::NodeLeave { node_id: 2, at: 10 }, 10));
    q.push(ScheduledEvent::new(Event::NodeLeave { node_id: 3, at: 30 }, 30));
    q.push(ScheduledEvent::new(Event::NodeLeave { node_id: 4, at: 20 }, 20));
    assert_eq!(q.len(), 4);
    assert_eq!(q.peek_time(), Some(10));
    let mut order = vec![];
    while let Some(se) = q.pop() {
        match se.inner {
            Event::NodeLeave { node_id, .. } => order.push((se.time(), node_id)),
            _ => panic!("unexpected event"),
        }
    }
    assert_eq!(order, vec![(10, 2), (20, 4), (30, 1), (30, 3)]);
    assert_eq!(q.peek_time(), None);
    assert!(q.peek().is_none());
}

#[test]
fn peek_shows_the_earliest_event() {
    let mut q = EventQueue::new();
    q.push(ScheduledEvent::new(join(9), 9));
    q.push(ScheduledEvent::new(Event::NodeLeave { node_id: 5, at: 3 }, 3));
    match q.peek() {
        Some((3, Event::NodeLeave { node_id: 5, .. })) => {}
        _ => panic!("wrong head"),
    }
    assert_eq!(q.len(), 2);
}

#[test]
fn event_times() {
    let a = AddressId { id: 1, network: NetworkType::Onion };
    assert_eq!(event_time(&join(5)), 5);
    assert_eq!(event_time(&Event::NodeLeave { node_id: 0, at: 6 }), 6);
    assert_eq!(event_time(&Event::NodeReconnect { node_id: 0, network: NetworkType::Onion, at: 7 }), 7);
    assert_eq!(event_time(&Event::SelfAnnounce { node_id: 0, peer_addr: a, at: 8 }), 8);
    assert_eq!(event_time(&Event::FlushAddrQueue { node_id: 0, peer_addr: a, at: 9 }), 9);
}

#[test]
fn node_type_indices() {
    assert_eq!(node_type_idx(&[NetworkType::Onion]), 0);
    assert_eq!(node_type_idx(&[NetworkType::Clearnet]), 1);
    assert_eq!(node_type_idx(&[NetworkType::Onion, NetworkType::Clearnet]), 2);
    assert_eq!(node_type_idx(&[]), 2);
}

#[test]
fn layout_orders_onion_clearnet_dual() {
    let mut c = config(StartMode::Cold);
    c.onion = 4;
    c.clearnet = 4;
    c.dual_stack = 2;
    c.reachable_onion_pct = 50;
    c.reachable_clearnet_pct = 25;
    let kinds: Vec<(Vec<NetworkType>, bool, bool)> = (0..11u128)
        .map(|i| {
            let (n, r) = node_kind_of(&c, i);
            (n, r.onion, r.clearnet)
        })
        .collect();
    let (o, cl) = (NetworkType::Onion, NetworkType::Clearnet);
    assert_eq!(kinds[0], (vec![o], true, false));
    assert_eq!(kinds[1], (vec![o], true, false));
    assert_eq!(kinds[2], (vec![o], false, false));
    assert_eq!(kinds[4], (vec![cl], false, true));
    assert_eq!(kinds[5], (vec![cl], false, false));
    assert_eq!(kinds[8], (vec![o, cl], true, false));
    assert_eq!(kinds[9], (vec![o, cl], false, false));
    assert_eq!(kinds[10], (vec![cl], false, false));
}

#[test]
fn kind_counts_saturate() {
    let mut k = KindCounts::zero();
    k.count(0);
    k.count(1);
    k.count(1);
    k.count(7);
    assert_eq!(k, KindCounts { onion: 1, clearnet: 2, dual: 1 });
    let mut full = KindCounts { onion: usize::MAX, clearnet: 0, dual: 0 };
    full.count(0);
    assert_eq!(full.onion, usize::MAX);
}

fn registered(sim: &Simulator) -> usize {
    sim.network.registry.addresses.len()
}

#[test]
fn new_lays_out_the_configured_nodes() {
    let sim = Simulator::new(config(StartMode::Cold), 1, START);
    assert_eq!(sim.network.nodes.len(), 6);
    assert_eq!(registered(&sim), 7);
    let nets = |i: usize| sim.network.nodes[&i].addresses.iter().map(|a| a.network).collect::<Vec<_>>();
    assert_eq!(nets(0), vec![NetworkType::Onion]);
    assert_eq!(nets(2), vec![NetworkType::Clearnet]);
    assert_eq!(nets(5), vec![NetworkType::Onion, NetworkType::Clearnet]);
    for n in sim.network.nodes.values() {
        assert!(n.addrman.entries.is_empty());
        assert_eq!(n.cache_algo, GetaddrCacheAlgorithm::Current);
    }
    assert!(sim.event_queue.len() > 0);
    assert_eq!(sim.start_time, START);
    assert!(sim.stats.is_empty());
}

#[test]
fn warm_start_knows_every_address() {
    let sim = Simulator::new(config(StartMode::Warm), 2, START);
    for n in sim.network.nodes.values() {
        assert_eq!(n.addrman.entries.len(), 7);
        for e in n.addrman.entries.values() {
            assert_eq!(e.timestamp, START);
        }
    }
}

#[test]
fn peers_start_knows_the_connected_peers() {
    let sim = Simulator::new(config(StartMode::Peers), 3, START);
    for n in sim.network.nodes.values() {
        let mut peers: Vec<u128> = n.out_peers.keys().chain(n.in_peers.keys()).copied().collect();
        peers.sort();
        peers.dedup();
        let mut known: Vec<u128> = n.addrman.entries.keys().copied().collect();
        known.sort();
        assert_eq!(known, peers);
    }
}

#[test]
fn dns_start_seeds_a_sample_three_to_seven_days_old() {
    let sim = Simulator::new(config(StartMode::Dns), 4, START);
    for n in sim.network.nodes.values() {
        // 50% of 7 addresses.
        assert_eq!(n.addrman.entries.len(), 3);
        for e in n.addrman.entries.values() {
            assert!(e.timestamp >= START - 7 * DAY && e.timestamp <= START - 3 * DAY);
            assert_eq!((START - e.timestamp) % DAY, 0);
            assert!(sim.network.registry.owner_of(e.address).is_some());
        }
    }
}

#[test]
fn dns_start_seeds_at_least_one_address() {
    let mut c = config(StartMode::Dns);
    c.dns_sample_pct = 1;
    let sim = Simulator::new(c, 5, START);
    for n in sim.network.nodes.values() {
        assert_eq!(n.addrman.entries.len(), 1);
    }
}

#[test]
fn steps_go_forward_in_time() {
    let mut sim = Simulator::new(config(StartMode::Warm), 6, START);
    let mut last = 0;
    let mut n = 0;
    // Self-announcement timers keep the queue going as long as connections last.
    while let Some((e, at)) = sim.step() {
        assert!(at >= last);
        assert_eq!(event_time(&e), at);
        last = at;
        n += 1;
        if at > START + 3 * DAY {
            break;
        }
    }
    assert!(n > 0);
    assert!(last > START + 3 * DAY);
}

#[test]
fn first_steps_exchange_getaddr_and_addr() {
    let mut sim = Simulator::new(config(StartMode::Warm), 7, START);
    let (e, at) = sim.step().unwrap();
    assert_eq!(at, START);
    assert!(matches!(e, Event::SendMessage { .. }));
    let sent: u64 = sim.network.nodes.values().map(|n| n.node_statistics.getaddr_sent).sum();
    let recv: u64 = sim.network.nodes.values().map(|n| n.node_statistics.getaddr_received).sum();
    assert_eq!((sent, recv), (1, 1));
}

#[test]
fn run_records_one_row_per_measured_day() {
    let mut sim = Simulator::new(config(StartMode::Warm), 8, START);
    sim.run();
    assert_eq!(sim.stats.len(), 2);
    assert_eq!(sim.stats[0].day, 0);
    assert_eq!(sim.stats[1].day, 1);
    for row in &sim.stats {
        let c = &row.churn;
        assert_eq!(row.node_count, c.total_onion + c.total_clearnet + c.total_dual);
        assert_eq!(c.joined_onion + c.joined_clearnet + c.joined_dual, 2);
        assert!(c.left_onion + c.left_clearnet + c.left_dual <= 1);
        assert!(row.total_addrman_live <= row.total_addrman);
        assert!(row.departed_fresh <= row.departed);
        assert!(row.stale_30d <= row.stale_7d);
        assert!(row.total_registered >= row.node_count);
    }
    // Three days of churn: 6 joins and at most 3 leaves on top of 6 nodes.
    let last = &sim.stats[1];
    assert!(last.node_count >= 9 && last.node_count <= 12);
}

#[test]
fn warm_start_statistics_on_day_zero() {
    let mut c = config(StartMode::Warm);
    c.joins_per_day = 0;
    c.leaves_per_day = 0;
    c.burn_in_days = 0;
    c.days = 1;
    let mut sim = Simulator::new(c, 9, START);
    sim.run();
    let row = &sim.stats[0];
    assert_eq!(row.node_count, 6);
    assert_eq!(row.total_registered, 7);
    assert_eq!(row.total_addrman, 42);
    assert_eq!(row.total_addrman_live, 42);
    assert_eq!((row.stale_7d, row.stale_30d, row.departed, row.departed_fresh), (0, 0, 0, 0));
    assert_eq!((row.churn.total_onion, row.churn.total_clearnet, row.churn.total_dual), (2, 3, 1));
    assert_eq!(row.churn.joined_onion + row.churn.left_onion, 0);
}

#[test]
fn departed_addresses_are_counted() {
    let mut sim = Simulator::new(config(StartMode::Warm), 15, START);
    sim.process(&Event::NodeLeave { node_id: 5, at: START }, START);
    let now = START + 10;
    assert_eq!(count_entries(&sim.network, EntryFilter::All, now), 35);
    assert_eq!(count_entries(&sim.network, EntryFilter::Live, now), 35);
    assert_eq!(count_entries(&sim.network, EntryFilter::Departed, now), 10);
    assert_eq!(count_entries(&sim.network, EntryFilter::DepartedLive, now), 10);
    assert_eq!(count_entries(&sim.network, EntryFilter::OlderThan7Days, START + 8 * DAY), 35);
    assert_eq!(count_entries(&sim.network, EntryFilter::OlderThan30Days, START + 8 * DAY), 0);
    assert_eq!(count_entries(&sim.network, EntryFilter::DepartedLive, START + 31 * DAY), 0);
    assert_eq!(kind_totals(&sim.network), (2, 3, 0));
}

#[test]
fn leaving_an_unknown_node_changes_nothing() {
    let mut sim = Simulator::new(config(StartMode::Cold), 11, START);
    let before = sim.network.nodes.len();
    let r = sim.process(&Event::NodeLeave { node_id: 999, at: START }, START);
    assert!(r.is_empty());
    assert_eq!(sim.network.nodes.len(), before);
    assert_eq!(sim.day_left, KindCounts::zero());
}

#[test]
fn a_join_adds_one_node_and_counts_it() {
    let mut sim = Simulator::new(config(StartMode::Cold), 12, START);
    let r = sim.process(&join(START + 5), START + 5);
    assert_eq!(sim.network.nodes.len(), 7);
    let k = sim.day_joined;
    assert_eq!(k.onion + k.clearnet + k.dual, 1);
    let getaddrs = r.iter().filter(|e| matches!(e, Event::SendMessage { .. })).count();
    assert_eq!(r.len(), 3 * getaddrs);
    for e in &r {
        match e {
            Event::SendMessage { at, .. } => assert_eq!(*at, START + 5),
            Event::SelfAnnounce { at, .. } => assert_eq!(*at, START + 35),
            _ => panic!("unexpected event"),
        }
    }
}

#[test]
fn a_leave_removes_the_node_and_counts_its_kind() {
    let mut sim = Simulator::new(config(StartMode::Cold), 13, START);
    sim.process(&Event::NodeLeave { node_id: 5, at: START }, START);
    assert!(!sim.network.nodes.contains_key(&5));
    assert_eq!(sim.day_left, KindCounts { onion: 0, clearnet: 0, dual: 1 });
}

#[test]
fn added_events_are_queued_at_their_time() {
    let mut sim = Simulator::new(config(StartMode::Cold), 14, START);
    let n = sim.event_queue.len();
    sim.add_event(join(START - 100));
    assert_eq!(sim.event_queue.len(), n + 1);
    assert_eq!(sim.event_queue.peek_time(), Some(START - 100));
    sim.add_events(vec![join(START - 200), join(START - 50)]);
    assert_eq!(sim.event_queue.len(), n + 3);
    assert_eq!(sim.event_queue.peek_time(), Some(START - 200));
}

#[test]
fn dns_samples_differ_between_nodes() {
    let mut c = config(StartMode::Dns);
    c.onion = 0;
    c.clearnet = 60;
    c.dual_stack = 0;
    c.dns_sample_pct = 1;
    let sim = Simulator::new(c, 16, START);
    let mut seen = std::collections::HashSet::new();
    for n in sim.network.nodes.values() {
        assert_eq!(n.addrman.entries.len(), 1);
        seen.extend(n.addrman.entries.keys().copied());
    }
    assert!(seen.len() > 1);
}

#[test]
fn start_connects_each_node_to_as_many_listening_peers_as_it_can() {
    let sim = Simulator::new(config(StartMode::Cold), 17, START);
    // Everyone listens; with two outbounds, every node but the first of each network
    // dials min(2, earlier listening nodes on its networks) peers, each known inbound.
    for (id, n) in &sim.network.nodes {
        for p in n.out_peers.values() {
            let owner = sim.network.registry.owner_of(p.addr).unwrap();
            assert!(owner < *id);
            let own = n.addresses.iter().find(|a| a.network == p.addr.network).unwrap();
            assert!(sim.network.nodes[&owner].in_peers.contains_key(&own.key()));
        }
    }
    assert_eq!(sim.network.nodes[&0].out_peers.len(), 0);
    assert_eq!(sim.network.nodes[&1].out_peers.len(), 1);
    assert_eq!(sim.network.nodes[&3].out_peers.len(), 1);
    assert_eq!(sim.network.nodes[&4].out_peers.len(), 2);
    assert_eq!(sim.network.nodes[&5].out_peers.len(), 2);
    // One GETADDR per connection is queued at the start.
    let conns: usize = sim.network.nodes.values().map(|n| n.out_peers.len()).sum();
    assert_eq!(sim.event_queue.len(), 3 * conns);
}

#[test]
fn the_queue_holds_nothing_due_by_the_end_of_a_run() {
    let mut sim = Simulator::new(config(StartMode::Warm), 18, START);
    sim.run();
    let end = START + 3 * DAY - 1;
    match sim.event_queue.peek_time() {
        Some(t) => assert!(t > end),
        None => {}
    }
}

#[test]
fn every_day_brings_the_configured_joins_and_leaves() {
    let mut sim = Simulator::new(config(StartMode::Warm), 9, START);
    sim.run_day(0);
    // Burn-in: no row, but the churn happened.
    assert!(sim.stats.is_empty());
    assert_eq!(sim.network.nodes.len(), 6 + 2 - 1);
    sim.run_day(1);
    sim.run_day(2);
    assert_eq!(sim.stats.len(), 2);
    for row in &sim.stats {
        let c = &row.churn;
        assert_eq!(c.joined_onion + c.joined_clearnet + c.joined_dual, 2);
        assert_eq!(c.left_onion + c.left_clearnet + c.left_dual, 1);
    }
    assert_eq!(sim.stats[1].node_count, 6 + 3 * (2 - 1));
}
