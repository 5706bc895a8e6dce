//! Counters kept per node and totals collected once per simulated day.
use vstd::prelude::*;

use crate::address::{AddressRegistry, NetworkType};
use crate::addrman::{terrible, AddrmanEntry};
use crate::fingerprint::{common_count, pair_of, FingerprintAnalyzer};
use crate::maps::map_keys;
use crate::network::Network;
use crate::node::{AddrPayload, NodeId, DAYS};

verus! {

broadcast use vstd::std_specs::hash::group_hash_axioms;

/// Per-node message counters for address relay.
pub struct NodeStatistics {
    pub getaddr_sent: u64,
    pub getaddr_received: u64,
    pub addr_sent: u64,
    pub addr_received: u64,
    pub addr_announce_sent: u64,
    pub addr_announce_received: u64,
}

impl NodeStatistics {
    pub open spec fn all_zero(&self) -> bool {
        &&& self.getaddr_sent == 0
        &&& self.getaddr_received == 0
        &&& self.addr_sent == 0
        &&& self.addr_received == 0
        &&& self.addr_announce_sent == 0
        &&& self.addr_announce_received == 0
    }
}

impl Default for NodeStatistics {
    fn default() -> (r: Self)
        ensures
            r.all_zero(),
    {
        NodeStatistics {
            getaddr_sent: 0,
            getaddr_received: 0,
            addr_sent: 0,
            addr_received: 0,
            addr_announce_sent: 0,
            addr_announce_received: 0,
        }
    }
}

pub struct ChurnStats {
    pub joined_onion: usize,
    pub joined_clearnet: usize,
    pub joined_dual: usize,
    pub left_onion: usize,
    pub left_clearnet: usize,
    pub left_dual: usize,
    pub total_onion: usize,
    pub total_clearnet: usize,
    pub total_dual: usize,
}

/// The totals behind one day's statistics. Averages and ratios are formed from these
/// outside the library.
pub struct DayCounts {
    pub day: u64,
    /// Number of live nodes.
    pub node_count: usize,
    /// Number of registered addresses, active or not.
    pub total_registered: usize,
    /// Addrman entries over all nodes.
    pub total_addrman: u128,
    /// Addrman entries over all nodes that are not terrible.
    pub total_addrman_live: u128,
    /// Entries with a timestamp more than 7 days old.
    pub stale_7d: u128,
    /// Entries with a timestamp more than 30 days old.
    pub stale_30d: u128,
    /// Entries for an address that is not active.
    pub departed: u128,
    /// Entries for an address that is not active, and that are not terrible.
    pub departed_fresh: u128,
    /// For each dual-stack node with both caches: (node, shared pairs, clearnet cache size).
    pub fingerprint: Vec<(NodeId, usize, usize)>,
    pub churn: ChurnStats,
}

/// Which addrman entries a total counts.
#[derive(Clone, Copy, PartialEq, Eq, Debug, Structural)]
pub enum EntryFilter {
    All,
    Live,
    OlderThan7Days,
    OlderThan30Days,
    Departed,
    DepartedLive,
}

/// An address that is registered and still active. An address the registry does not
/// know counts as departed.
pub open spec fn is_active_addr(reg: AddressRegistry, e: AddrmanEntry) -> bool {
    reg.has(e.address) && reg.record(e.address).is_active
}

/// Whether entry `e` is counted by filter `f` at `now`.
pub open spec fn entry_matches(f: EntryFilter, e: AddrmanEntry, now: u64, reg: AddressRegistry) -> bool {
    match f {
        EntryFilter::All => true,
        EntryFilter::Live => !terrible(e.timestamp, now),
        EntryFilter::OlderThan7Days => now - e.timestamp > 7 * DAYS,
        EntryFilter::OlderThan30Days => now - e.timestamp > 30 * DAYS,
        EntryFilter::Departed => !is_active_addr(reg, e),
        EntryFilter::DepartedLive => !is_active_addr(reg, e) && !terrible(e.timestamp, now),
    }
}

/// The addrman entries of the network's nodes counted by `f`, as (node, entry key) pairs.
pub open spec fn entry_pairs(net: Network, f: EntryFilter, now: u64) -> Set<(NodeId, u128)> {
    Set::new(
        |p: (NodeId, u128)|
            net.nodes@.contains_key(p.0) && net.nodes@[p.0].addrman.entries@.contains_key(p.1)
                && entry_matches(f, net.nodes@[p.0].addrman.entries@[p.1], now, net.registry),
    )
}

/// The nodes of a kind (see `kind_of`).
pub open spec fn nodes_of_kind(net: Network, kind: usize) -> Set<NodeId> {
    Set::new(
        |id: NodeId|
            net.nodes@.contains_key(id) && crate::simulator::kind_of(
                crate::simulator::networks_seq(net.nodes@[id].addresses@),
            ) == kind,
    )
}

/// The (address key, timestamp) pairs of a node's cache on a network.
pub open spec fn cache_pairs(net: Network, id: NodeId, network: NetworkType) -> Seq<(u128, u64)> {
    net.nodes@[id].getaddr_cache.cache(network)->0.entries@.map_values(|p: AddrPayload| pair_of(p))
}

/// Node `id` has a non-empty cache on `network`.
pub open spec fn has_cache(net: Network, id: NodeId, network: NetworkType) -> bool {
    &&& net.nodes@.contains_key(id)
    &&& net.nodes@[id].getaddr_cache.cache(network) matches Some(c)
    &&& c.entries@.len() > 0
}

/// The fingerprint rows of a day: one per node with both caches, giving the pairs the
/// two caches share and the size of the clearnet cache.
pub open spec fn fingerprint_ok(net: Network, fp: Seq<(NodeId, usize, usize)>) -> bool {
    &&& forall|i: int|
        0 <= i < fp.len() ==> {
            let (n, shared, total) = #[trigger] fp[i];
            &&& has_cache(net, n, NetworkType::Clearnet)
            &&& has_cache(net, n, NetworkType::Onion)
            &&& shared == common_count(
                cache_pairs(net, n, NetworkType::Clearnet),
                cache_pairs(net, n, NetworkType::Onion),
            )
            &&& total == cache_pairs(net, n, NetworkType::Clearnet).len()
        }
    &&& forall|n: NodeId|
        has_cache(net, n, NetworkType::Clearnet) && has_cache(net, n, NetworkType::Onion)
            ==> exists|i: int| 0 <= i < fp.len() && #[trigger] fp[i].0 == n
    &&& forall|i: int, j: int| 0 <= i < j < fp.len() ==> #[trigger] fp[i].0 != #[trigger] fp[j].0
}

/// Whether `f` counts entry `e` at `now`.
/// Departed entries are counted whatever their age: every addrman entry whose address
/// is unknown to the registry or no longer active is counted by `Departed`, terrible or
/// not; `DepartedLive` counts those of them that are not terrible.
pub proof fn lemma_departed_any_age(e: AddrmanEntry, now: u64, reg: AddressRegistry)
    ensures
        !(reg.has(e.address) && reg.record(e.address).is_active) ==> entry_matches(EntryFilter::Departed, e, now, reg),
        reg.has(e.address) && reg.record(e.address).is_active ==> !entry_matches(EntryFilter::Departed, e, now, reg),
        entry_matches(EntryFilter::DepartedLive, e, now, reg) <==> entry_matches(EntryFilter::Departed, e, now, reg)
            && !terrible(e.timestamp, now),
{
}

/// What each age filter counts, by the entry's timestamp: every entry; the entries not
/// terrible (at most thirty days old and at most ten minutes ahead); those more than
/// seven days old; those more than thirty days old, all of which are also more than
/// seven days old.
pub proof fn lemma_age_filters(e: AddrmanEntry, now: u64, reg: AddressRegistry)
    ensures
        entry_matches(EntryFilter::All, e, now, reg),
        entry_matches(EntryFilter::Live, e, now, reg) <==> now - 30 * 86400 <= e.timestamp <= now + 600,
        entry_matches(EntryFilter::OlderThan7Days, e, now, reg) <==> e.timestamp < now - 7 * 86400,
        entry_matches(EntryFilter::OlderThan30Days, e, now, reg) <==> e.timestamp < now - 30 * 86400,
        entry_matches(EntryFilter::OlderThan30Days, e, now, reg) ==> entry_matches(EntryFilter::OlderThan7Days, e, now, reg),
{
}

/// Over a whole network: the departed entries include the live departed ones, and a
/// terrible entry of a departed address is counted as departed though not as live.
pub proof fn lemma_departed_counts(net: Network, now: u64)
    ensures
        entry_pairs(net, EntryFilter::DepartedLive, now).subset_of(entry_pairs(net, EntryFilter::Departed, now)),
        forall|id: NodeId, k: u128|
            #![trigger net.nodes@[id].addrman.entries@[k]]
            net.nodes@.contains_key(id) && net.nodes@[id].addrman.entries@.contains_key(k) && !(net.registry.has(
                net.nodes@[id].addrman.entries@[k].address,
            ) && net.registry.record(net.nodes@[id].addrman.entries@[k].address).is_active) ==> entry_pairs(
                net,
                EntryFilter::Departed,
                now,
            ).contains((id, k)),
{
}

pub fn entry_counted(f: EntryFilter, e: &AddrmanEntry, now: u64, reg: &AddressRegistry) -> (r: bool)
    ensures
        r == entry_matches(f, *e, now, *reg),
{
    let active = match reg.owner_of(e.address) {
        Some(_) => reg.is_active(e.address),
        None => false,
    };
    match f {
        EntryFilter::All => true,
        EntryFilter::Live => !e.is_terrible(now),
        EntryFilter::OlderThan7Days => now.saturating_sub(e.timestamp) > 7 * DAYS,
        EntryFilter::OlderThan30Days => now.saturating_sub(e.timestamp) > 30 * DAYS,
        EntryFilter::Departed => !active,
        EntryFilter::DepartedLive => !active && !e.is_terrible(now),
    }
}

/// The number of addrman entries, over all nodes, that `f` counts at `now`.
pub fn count_entries(net: &Network, f: EntryFilter, now: u64) -> (r: u128)
    ensures
        r == entry_pairs(*net, f, now).len(),
{
    let ids = map_keys(&net.nodes);
    let mut total: u128 = 0;
    let ghost mut seen: Set<(NodeId, u128)> = Set::empty();
    let mut i: usize = 0;
    while i < ids.len()
        invariant
            ids@.to_set() == net.nodes@.dom(),
            ids@.no_duplicates(),
            0 <= i <= ids.len(),
            seen.finite(),
            total == seen.len(),
            total <= i * 0x1_0000_0000_0000_0000,
            seen == Set::new(
                |p: (NodeId, u128)|
                    ids@.take(i as int).contains(p.0) && net.nodes@.contains_key(p.0)
                        && net.nodes@[p.0].addrman.entries@.contains_key(p.1) && entry_matches(
                        f,
                        net.nodes@[p.0].addrman.entries@[p.1],
                        now,
                        net.registry,
                    ),
            ),
        decreases ids.len() - i,
    {
        let id = ids[i];
        proof {
            assert(ids@.take(i + 1) =~= ids@.take(i as int).push(id));
            assert(!ids@.take(i as int).contains(id));
            assert(ids@.to_set().contains(id)) by {
                assert(ids@.contains(id));
            }
        }
        let ghost seen0 = seen;
        match net.nodes.get(&id) {
            Some(n) => {
                let keys = map_keys(&n.addrman.entries);
                let mut j: usize = 0;
                while j < keys.len()
                    invariant
                        net.nodes@.contains_key(id),
                        *n == net.nodes@[id],
                        keys@.to_set() == n.addrman.entries@.dom(),
                        keys@.no_duplicates(),
                        !ids@.take(i as int).contains(id),
                        0 <= i < ids.len(),
                        0 <= j <= keys.len(),
                        seen.finite(),
                        total == seen.len(),
                        total <= i * 0x1_0000_0000_0000_0000 + j,
                        seen0 == Set::new(
                            |p: (NodeId, u128)|
                                ids@.take(i as int).contains(p.0) && net.nodes@.contains_key(p.0)
                                    && net.nodes@[p.0].addrman.entries@.contains_key(p.1)
                                    && entry_matches(
                                    f,
                                    net.nodes@[p.0].addrman.entries@[p.1],
                                    now,
                                    net.registry,
                                ),
                        ),
                        seen == seen0.union(
                            Set::new(
                                |p: (NodeId, u128)|
                                    p.0 == id && keys@.take(j as int).contains(p.1)
                                        && n.addrman.entries@.contains_key(p.1) && entry_matches(
                                        f,
                                        n.addrman.entries@[p.1],
                                        now,
                                        net.registry,
                                    ),
                            ),
                        ),
                    decreases keys.len() - j,
                {
                    let k = keys[j];
                    proof {
                        assert(keys@.take(j + 1) =~= keys@.take(j as int).push(k));
                        assert(!keys@.take(j as int).contains(k));
                        assert(keys@.to_set().contains(k)) by {
                            assert(keys@.contains(k));
                        }
                    }
                    let counted = match n.addrman.entries.get(&k) {
                        Some(e) => entry_counted(f, e, now, &net.registry),
                        None => false,
                    };
                    let ghost seen1 = seen;
                    if counted {
                        assert(total + 1 <= u128::MAX) by (nonlinear_arith)
                            requires
                                total <= i * 0x1_0000_0000_0000_0000 + j,
                                i < 0x1_0000_0000_0000_0000 - 1,
                                j < 0x1_0000_0000_0000_0000 - 1,
                        ;
                        total = total + 1;
                        proof {
                            assert(!seen1.contains((id, k)));
                            seen = seen1.insert((id, k));
                        }
                    }
                    proof {
                        assert(n.addrman.entries@.contains_key(k));
                        assert(counted == entry_matches(f, n.addrman.entries@[k], now, net.registry));
                        let next = Set::new(
                            |p: (NodeId, u128)|
                                p.0 == id && keys@.take(j + 1).contains(p.1)
                                    && n.addrman.entries@.contains_key(p.1) && entry_matches(
                                    f,
                                    n.addrman.entries@[p.1],
                                    now,
                                    net.registry,
                                ),
                        );
                        assert forall|p: (NodeId, u128)| #[trigger] next.contains(p) implies seen.contains(p) by {
                            if p.1 != k {
                                let t1 = keys@.take(j + 1);
                                let q = choose|q: int| 0 <= q < t1.len() && t1[q] == p.1;
                                assert(keys@.take(j as int)[q] == p.1);
                            }
                        }
                        assert forall|p: (NodeId, u128)| #[trigger] seen.contains(p) && !seen0.contains(p) implies next.contains(p) by {
                            if p != (id, k) {
                                let t0 = keys@.take(j as int);
                                let q = choose|q: int| 0 <= q < t0.len() && t0[q] == p.1;
                                assert(keys@.take(j + 1)[q] == p.1);
                            } else {
                                assert(keys@.take(j + 1)[j as int] == k);
                            }
                        }
                        assert(seen =~= seen0.union(
                            Set::new(
                                |p: (NodeId, u128)|
                                    p.0 == id && keys@.take(j + 1).contains(p.1)
                                        && n.addrman.entries@.contains_key(p.1) && entry_matches(
                                        f,
                                        n.addrman.entries@[p.1],
                                        now,
                                        net.registry,
                                    ),
                            ),
                        ));
                    }
                    j = j + 1;
                }
                proof {
                    assert(keys@.take(keys@.len() as int) =~= keys@);
                    assert(total <= (i + 1) * 0x1_0000_0000_0000_0000) by (nonlinear_arith)
                        requires
                            total <= i * 0x1_0000_0000_0000_0000 + j,
                            j < 0x1_0000_0000_0000_0000,
                    ;
                }
            },
            None => {
                proof {
                    assert(false);
                }
            },
        }
        proof {
            let next = Set::new(
                |p: (NodeId, u128)|
                    ids@.take(i + 1).contains(p.0) && net.nodes@.contains_key(p.0)
                        && net.nodes@[p.0].addrman.entries@.contains_key(p.1) && entry_matches(
                        f,
                        net.nodes@[p.0].addrman.entries@[p.1],
                        now,
                        net.registry,
                    ),
            );
            assert forall|p: (NodeId, u128)| #[trigger] next.contains(p) implies seen.contains(p) by {
                if p.0 != id {
                    let t1 = ids@.take(i + 1);
                    let q = choose|q: int| 0 <= q < t1.len() && t1[q] == p.0;
                    assert(ids@.take(i as int)[q] == p.0);
                } else {
                    assert(net.nodes@[id].addrman.entries@.dom().contains(p.1));
                }
            }
            assert forall|p: (NodeId, u128)| #[trigger] seen.contains(p) implies next.contains(p) by {
                if seen0.contains(p) {
                    let t0 = ids@.take(i as int);
                    let q = choose|q: int| 0 <= q < t0.len() && t0[q] == p.0;
                    assert(ids@.take(i + 1)[q] == p.0);
                } else {
                    assert(ids@.take(i + 1)[i as int] == id);
                }
            }
            assert(seen =~= Set::new(
                |p: (NodeId, u128)|
                    ids@.take(i + 1).contains(p.0) && net.nodes@.contains_key(p.0)
                        && net.nodes@[p.0].addrman.entries@.contains_key(p.1) && entry_matches(
                        f,
                        net.nodes@[p.0].addrman.entries@[p.1],
                        now,
                        net.registry,
                    ),
            ));
        }
        i = i + 1;
    }
    proof {
        assert(ids@.take(ids@.len() as int) =~= ids@);
        assert(seen =~= entry_pairs(*net, f, now)) by {
            assert forall|p: (NodeId, u128)| entry_pairs(*net, f, now).contains(p) implies seen.contains(p) by {
                assert(ids@.to_set().contains(p.0));
            }
        }
    }
    total
}

/// The number of nodes of each kind: onion-only, clearnet-only, dual-stack.
pub fn kind_totals(net: &Network) -> (r: (usize, usize, usize))
    ensures
        r.0 == nodes_of_kind(*net, 0).len(),
        r.1 == nodes_of_kind(*net, 1).len(),
        r.2 == nodes_of_kind(*net, 2).len(),
{
    let ids = map_keys(&net.nodes);
    let mut c0: usize = 0;
    let mut c1: usize = 0;
    let mut c2: usize = 0;
    let ghost mut s0: Set<NodeId> = Set::empty();
    let ghost mut s1: Set<NodeId> = Set::empty();
    let ghost mut s2: Set<NodeId> = Set::empty();
    let mut i: usize = 0;
    while i < ids.len()
        invariant
            ids@.to_set() == net.nodes@.dom(),
            ids@.no_duplicates(),
            0 <= i <= ids.len(),
            c0 + c1 + c2 == i,
            s0.finite(),
            s1.finite(),
            s2.finite(),
            c0 == s0.len(),
            c1 == s1.len(),
            c2 == s2.len(),
            s0 == Set::new(|id: NodeId| ids@.take(i as int).contains(id) && nodes_of_kind(*net, 0).contains(id)),
            s1 == Set::new(|id: NodeId| ids@.take(i as int).contains(id) && nodes_of_kind(*net, 1).contains(id)),
            s2 == Set::new(|id: NodeId| ids@.take(i as int).contains(id) && nodes_of_kind(*net, 2).contains(id)),
        decreases ids.len() - i,
    {
        let id = ids[i];
        proof {
            assert(ids@.take(i + 1) =~= ids@.take(i as int).push(id));
            assert(!ids@.take(i as int).contains(id));
            assert(ids@.to_set().contains(id)) by {
                assert(ids@.contains(id));
            }
        }
        let nets = match net.nodes.get(&id) {
            Some(n) => crate::simulator::networks_vec(&n.addresses),
            None => Vec::new(),
        };
        let kind = crate::simulator::node_type_idx(nets.as_slice());
        let ghost t = ids@.take(i + 1);
        proof {
            assert(nodes_of_kind(*net, kind).contains(id));
        }
        if kind == 0 {
            c0 = c0 + 1;
            proof {
                s0 = s0.insert(id);
            }
        } else if kind == 1 {
            c1 = c1 + 1;
            proof {
                s1 = s1.insert(id);
            }
        } else {
            c2 = c2 + 1;
            proof {
                s2 = s2.insert(id);
            }
        }
        proof {
            assert forall|x: NodeId| #[trigger] t.contains(x) == (ids@.take(i as int).contains(x) || x == id) by {
                if ids@.take(i as int).contains(x) {
                    let q = choose|q: int| 0 <= q < i && ids@.take(i as int)[q] == x;
                    assert(t[q] == x);
                }
                if x == id {
                    assert(t[i as int] == id);
                }
                if t.contains(x) && x != id {
                    let q = choose|q: int| 0 <= q < i + 1 && t[q] == x;
                    assert(ids@.take(i as int)[q] == x);
                }
            }
            assert(s0 =~= Set::new(|x: NodeId| t.contains(x) && nodes_of_kind(*net, 0).contains(x)));
            assert(s1 =~= Set::new(|x: NodeId| t.contains(x) && nodes_of_kind(*net, 1).contains(x)));
            assert(s2 =~= Set::new(|x: NodeId| t.contains(x) && nodes_of_kind(*net, 2).contains(x)));
        }
        i = i + 1;
    }
    proof {
        assert(ids@.take(ids@.len() as int) =~= ids@);
        assert forall|x: NodeId| #[trigger] nodes_of_kind(*net, 0).contains(x) implies ids@.contains(x) by {
            assert(ids@.to_set().contains(x));
        }
        assert forall|x: NodeId| #[trigger] nodes_of_kind(*net, 1).contains(x) implies ids@.contains(x) by {
            assert(ids@.to_set().contains(x));
        }
        assert forall|x: NodeId| #[trigger] nodes_of_kind(*net, 2).contains(x) implies ids@.contains(x) by {
            assert(ids@.to_set().contains(x));
        }
        assert(s0 =~= nodes_of_kind(*net, 0));
        assert(s1 =~= nodes_of_kind(*net, 1));
        assert(s2 =~= nodes_of_kind(*net, 2));
    }
    (c0, c1, c2)
}

/// Record every non-empty GETADDR cache of every node.
pub fn record_caches(net: &Network) -> (a: FingerprintAnalyzer)
    ensures
        a.wf(),
        forall|network: NetworkType| #[trigger]
            a.recorded(network).dom() == Set::new(|id: NodeId| has_cache(*net, id, network)),
        forall|network: NetworkType, id: NodeId| #[trigger]
            a.recorded(network).contains_key(id) ==> a.recorded(network)[id].to_multiset()
                == cache_pairs(*net, id, network).to_multiset(),
{
    let ids = map_keys(&net.nodes);
    let mut a = FingerprintAnalyzer::new();
    let mut i: usize = 0;
    while i < ids.len()
        invariant
            ids@.to_set() == net.nodes@.dom(),
            ids@.no_duplicates(),
            0 <= i <= ids.len(),
            a.wf(),
            forall|network: NetworkType| #[trigger]
                a.recorded(network).dom() == Set::new(
                    |id: NodeId| ids@.take(i as int).contains(id) && has_cache(*net, id, network),
                ),
            forall|network: NetworkType, id: NodeId| #[trigger]
                a.recorded(network).contains_key(id) ==> a.recorded(network)[id].to_multiset()
                    == cache_pairs(*net, id, network).to_multiset(),
        decreases ids.len() - i,
    {
        let id = ids[i];
        let ghost t = ids@.take(i + 1);
        proof {
            assert(ids@.take(i + 1) =~= ids@.take(i as int).push(id));
            assert(ids@.to_set().contains(id)) by {
                assert(ids@.contains(id));
            }
            assert forall|x: NodeId| #[trigger] t.contains(x) == (ids@.take(i as int).contains(x) || x == id) by {
                if ids@.take(i as int).contains(x) {
                    let q = choose|q: int| 0 <= q < i && ids@.take(i as int)[q] == x;
                    assert(t[q] == x);
                }
                if x == id {
                    assert(t[i as int] == id);
                }
                if t.contains(x) && x != id {
                    let q = choose|q: int| 0 <= q < i + 1 && t[q] == x;
                    assert(ids@.take(i as int)[q] == x);
                }
            }
        }
        match net.nodes.get(&id) {
            Some(n) => {
                let ghost a0 = a;
                match n.getaddr_cache.get(NetworkType::Clearnet) {
                    Some(c) => {
                        if c.entries.len() > 0 {
                            a.record(id, NetworkType::Clearnet, c.entries.as_slice());
                        }
                    },
                    None => {},
                }
                match n.getaddr_cache.get(NetworkType::Onion) {
                    Some(c) => {
                        if c.entries.len() > 0 {
                            a.record(id, NetworkType::Onion, c.entries.as_slice());
                        }
                    },
                    None => {},
                }
                proof {
                    assert forall|network: NetworkType| #[trigger]
                        a.recorded(network).dom() =~= Set::new(
                            |x: NodeId| t.contains(x) && has_cache(*net, x, network),
                        ) by {}
                    assert forall|network: NetworkType, x: NodeId| #[trigger]
                        a.recorded(network).contains_key(x) implies a.recorded(network)[x].to_multiset()
                            == cache_pairs(*net, x, network).to_multiset() by {
                        if x != id {
                            assert(a0.recorded(network).contains_key(x));
                        }
                    }
                }
            },
            None => {
                proof {
                    assert(false);
                }
            },
        }
        i = i + 1;
    }
    proof {
        assert(ids@.take(ids@.len() as int) =~= ids@);
        assert forall|network: NetworkType| #[trigger]
            a.recorded(network).dom() =~= Set::new(|id: NodeId| has_cache(*net, id, network)) by {
            assert forall|x: NodeId| has_cache(*net, x, network) implies ids@.contains(x) by {
                assert(ids@.to_set().contains(x));
            }
        }
    }
    a
}

} // verus!
