//! The simulated network: its nodes, their connections, and the address registry.
use std::collections::{HashMap, HashSet};

use rand::rngs::StdRng;
use vstd::prelude::*;

use crate::address::{
    addr_key, lemma_key_injective, Address, AddressId, AddressRegistry, NetworkSet, NetworkType,
};
use crate::maps::{btree_keys, map_keys};
use crate::node::{
    announce_timer, first_on, is_getaddr, later, lemma_closed_none, lemma_closed_step, lemma_first_on_contains,
    lemma_first_on_some, Event, GetaddrCacheAlgorithm, Node, NodeId, SELF_ANNOUNCE_DELAY,
};
use crate::random::{choose_multiple, choose_one};

verus! {

broadcast use {vstd::std_specs::hash::group_hash_axioms, vstd::std_specs::btree::group_btree_axioms};

/// A registered address a node may open an outbound connection to: its owner listens,
/// is another node, is still in the network, the address is on one of `nets` and its
/// key is not in `skip` (the addresses to leave out).
pub open spec fn eligible(a: Address, node: NodeId, nets: NetworkSet, skip: Set<u128>) -> bool {
    &&& a.is_reachable
    &&& a.owner_node != node
    &&& a.is_active
    &&& nets.has(a.id.network)
    &&& !skip.contains(addr_key(a.id))
}

/// `b` is `a` with, at most, other connections: identity, addrman, caches and counters
/// are as they were.
pub open spec fn same_but_links(a: Node, b: Node) -> bool {
    b == (Node { out_peers: b.out_peers, in_peers: b.in_peers, ..a })
}

/// The networks of a list of addresses.
pub open spec fn networks_of(s: Seq<AddressId>, n: NetworkType) -> bool {
    exists|i: int| 0 <= i < s.len() && #[trigger] s[i].network == n
}

pub struct Network {
    pub nodes: HashMap<NodeId, Node>,
    pub registry: AddressRegistry,
    pub next_node_id: NodeId,
    pub next_addr_id: u64,
}

impl Network {
    /// A peer address a node may hold: registered, on a network the node has an address on.
    pub open spec fn peer_ok(&self, node: Node, a: AddressId) -> bool {
        self.registry.has(a) && node.own_addr(a.network) is Some
    }

    /// A registry record: its id was handed out, it is listed under its owner, and an
    /// active address belongs to a node still in the network.
    pub open spec fn record_ok(&self, rec: Address) -> bool {
        &&& rec.id.id < self.next_addr_id
        &&& self.registry.addresses_of(rec.owner_node).contains(rec.id)
        &&& rec.is_active ==> self.nodes@.contains_key(rec.owner_node)
    }

    /// A node's address list names registered addresses it owns.
    pub open spec fn list_ok(&self, n: NodeId) -> bool {
        &&& n < self.next_node_id
        &&& forall|i: int|
            0 <= i < self.registry.addresses_of(n).len() ==> self.registry.has(
                #[trigger] self.registry.addresses_of(n)[i],
            ) && self.registry.record(self.registry.addresses_of(n)[i]).owner_node == n
    }

    pub open spec fn node_ok(&self, id: NodeId) -> bool {
        let node = self.nodes@[id];
        &&& node.wf()
        &&& node.node_id == id
        &&& id < self.next_node_id
        &&& self.registry.addresses_of(id) == node.addresses@
        &&& forall|k: u128| #[trigger]
            node.out_peers@.contains_key(k) ==> self.peer_ok(node, node.out_peers@[k].addr)
        &&& forall|k: u128| #[trigger]
            node.in_peers@.contains_key(k) ==> self.peer_ok(node, node.in_peers@[k].addr)
    }

    /// The invariant every operation on the network keeps.
    pub open spec fn wf(&self) -> bool {
        &&& self.registry.wf()
        &&& forall|k: u128| #[trigger]
            self.registry.addresses@.contains_key(k) ==> self.record_ok(self.registry.addresses@[k])
        &&& forall|n: NodeId| #[trigger] self.registry.node_addresses@.contains_key(n) ==> self.list_ok(n)
        &&& forall|id: NodeId| #[trigger] self.nodes@.contains_key(id) ==> self.node_ok(id)
    }

    /// The number of registered addresses eligible for an outbound connection.
    pub open spec fn eligible_count(&self, node: NodeId, nets: NetworkSet, skip: Set<u128>) -> nat {
        self.registry.addresses@.dom().filter(
            |k: u128| eligible(self.registry.addresses@[k], node, nets, skip),
        ).len()
    }

    pub fn new() -> (r: Self)
        ensures
            r.wf(),
            r.nodes@ == Map::<NodeId, Node>::empty(),
            r.registry.addresses@ == Map::<u128, Address>::empty(),
            r.next_node_id == 0,
            r.next_addr_id == 0,
    {
        Network { nodes: HashMap::new(), registry: AddressRegistry::new(), next_node_id: 0, next_addr_id: 0 }
    }

    pub fn node_id_for_addr(&self, addr: AddressId) -> (r: NodeId)
        requires
            self.registry.has(addr),
        ensures
            r == self.registry.record(addr).owner_node,
    {
        match self.registry.owner_of(addr) {
            Some(n) => n,
            None => {
                proof {
                    assert(false);
                }
                0
            },
        }
    }

    fn own_addr_of(&self, node_id: NodeId, network: NetworkType) -> (r: AddressId)
        requires
            self.nodes@.contains_key(node_id),
            self.nodes@[node_id].own_addr(network) is Some,
        ensures
            self.nodes@[node_id].own_addr(network) == Some(r),
            r.network == network,
    {
        match self.nodes.get(&node_id) {
            Some(n) => n.own_addr_for_network(network),
            None => {
                proof {
                    assert(false);
                }
                AddressId { id: 0, network }
            },
        }
    }

    /// The nodes `id` is connected to, inbound or outbound, on any network.
    pub open spec fn peer_owners(&self, id: NodeId) -> Set<NodeId> {
        Set::new(
            |o: NodeId|
                exists|a: AddressId|
                    #[trigger] self.nodes@[id].has_peer(a) && self.registry.record(a).owner_node == o,
        )
    }

    /// The nodes `id` is connected to (see `peer_owners`).
    fn connected_owners(&self, id: NodeId) -> (r: HashSet<NodeId>)
        requires
            self.wf(),
            self.nodes@.contains_key(id),
        ensures
            r@ == self.peer_owners(id),
    {
        let addrs = match self.nodes.get(&id) {
            Some(n) => {
                proof {
                    assert(self.node_ok(id));
                }
                n.connected_addrs()
            },
            None => Vec::new(),
        };
        let ghost node = self.nodes@[id];
        proof {
            assert forall|j: int| 0 <= j < addrs.len() implies node.has_peer(#[trigger] addrs@[j])
                && self.registry.has(addrs@[j]) by {
                let k = addr_key(addrs@[j]);
                assert(self.node_ok(id));
                if node.out_peers@.contains_key(k) && node.out_peers@[k].addr == addrs@[j] {
                    assert(self.peer_ok(node, node.out_peers@[k].addr));
                } else {
                    assert(self.peer_ok(node, node.in_peers@[k].addr));
                }
            }
        }
        let mut r: HashSet<NodeId> = HashSet::new();
        let mut i: usize = 0;
        while i < addrs.len()
            invariant
                0 <= i <= addrs.len(),
                forall|j: int| 0 <= j < addrs.len() ==> node.has_peer(#[trigger] addrs@[j])
                    && self.registry.has(addrs@[j]),
                r@ == Set::new(
                    |o: NodeId| exists|j: int| 0 <= j < i && #[trigger] self.registry.record(addrs@[j]).owner_node == o,
                ),
            decreases addrs.len() - i,
        {
            let o = self.node_id_for_addr(addrs[i]);
            r.insert(o);
            proof {
                assert(r@ =~= Set::new(
                    |o2: NodeId| exists|j: int| 0 <= j < i + 1 && #[trigger] self.registry.record(addrs@[j]).owner_node == o2,
                )) by {
                    assert forall|o2: NodeId| (exists|j: int| 0 <= j < i + 1 && #[trigger] self.registry.record(addrs@[j]).owner_node == o2)
                        implies r@.contains(o2) by {
                        let j = choose|j: int| 0 <= j < i + 1 && #[trigger] self.registry.record(addrs@[j]).owner_node == o2;
                        if j < i {
                            assert(exists|j2: int| 0 <= j2 < i && #[trigger] self.registry.record(addrs@[j2]).owner_node == o2);
                        }
                    }
                }
            }
            i = i + 1;
        }
        proof {
            assert(r@ =~= self.peer_owners(id)) by {
                assert forall|o: NodeId| self.peer_owners(id).contains(o) implies r@.contains(o) by {
                    let a = choose|a: AddressId| #[trigger] node.has_peer(a) && self.registry.record(a).owner_node == o;
                    assert(addrs@.contains(a));
                    let j = choose|j: int| 0 <= j < addrs.len() && addrs@[j] == a;
                    assert(self.registry.record(addrs@[j]).owner_node == o);
                }
                assert forall|o: NodeId| r@.contains(o) implies self.peer_owners(id).contains(o) by {
                    let j = choose|j: int| 0 <= j < addrs.len() && #[trigger] self.registry.record(addrs@[j]).owner_node == o;
                    assert(node.has_peer(addrs@[j]));
                }
            }
        }
        r
    }

    /// The keys of the registered addresses whose owners are in `owners`.
    pub open spec fn owned_keys(&self, owners: Set<NodeId>) -> Set<u128> {
        self.registry.addresses@.dom().filter(|k: u128| owners.contains(self.registry.addresses@[k].owner_node))
    }

    /// The keys of the registered addresses of the nodes in `owners`.
    fn keys_owned_by(&self, owners: &HashSet<NodeId>) -> (r: HashSet<u128>)
        ensures
            r@ == self.owned_keys(owners@),
    {
        let keys = map_keys(&self.registry.addresses);
        let mut r: HashSet<u128> = HashSet::new();
        let mut i: usize = 0;
        while i < keys.len()
            invariant
                keys@.to_set() == self.registry.addresses@.dom(),
                0 <= i <= keys.len(),
                r@ == keys@.take(i as int).to_set().filter(|k: u128| owners@.contains(self.registry.addresses@[k].owner_node)),
            decreases keys.len() - i,
        {
            let k = keys[i];
            proof {
                assert(keys@.contains(k));
                assert(keys@.to_set().contains(k));
                assert(keys@.take(i + 1) =~= keys@.take(i as int).push(k));
                keys@.take(i as int).lemma_push_to_set_commute(k);
            }
            match self.registry.addresses.get(&k) {
                Some(a) => {
                    if owners.contains(&a.owner_node) {
                        r.insert(k);
                    }
                },
                None => {},
            }
            proof {
                assert(r@ =~= keys@.take(i + 1).to_set().filter(|k2: u128| owners@.contains(self.registry.addresses@[k2].owner_node)));
            }
            i = i + 1;
        }
        proof {
            assert(keys@.take(keys.len() as int) =~= keys@);
            assert(r@ =~= self.owned_keys(owners@));
        }
        r
    }

    /// The registered addresses eligible for an outbound connection from `node`.
    fn eligible_addresses(&self, node: NodeId, nets: NetworkSet, skip: &HashSet<u128>) -> (r: Vec<
        AddressId,
    >)
        requires
            self.registry.wf(),
        ensures
            r.len() == self.eligible_count(node, nets, skip@),
            forall|i: int|
                0 <= i < r.len() ==> self.registry.has(#[trigger] r@[i]) && eligible(
                    self.registry.record(r@[i]),
                    node,
                    nets,
                    skip@,
                ) && self.registry.record(r@[i]).id == r@[i],
            r@.no_duplicates(),
    {
        let keys = map_keys(&self.registry.addresses);
        let ghost pred = |k: u128| eligible(self.registry.addresses@[k], node, nets, skip@);
        let mut r: Vec<AddressId> = Vec::new();
        let ghost mut chosen: Seq<u128> = Seq::empty();
        let mut i: usize = 0;
        while i < keys.len()
            invariant
                self.registry.wf(),
                pred == (|k: u128| eligible(self.registry.addresses@[k], node, nets, skip@)),
                keys@.to_set() == self.registry.addresses@.dom(),
                keys@.no_duplicates(),
                0 <= i <= keys.len(),
                chosen.len() == r.len(),
                chosen.no_duplicates(),
                forall|j: int|
                    0 <= j < chosen.len() ==> self.registry.addresses@.contains_key(
                        #[trigger] chosen[j],
                    ) && r@[j] == self.registry.addresses@[chosen[j]].id && pred(chosen[j]),
                chosen.to_set() == keys@.take(i as int).to_set().filter(pred),
            decreases keys.len() - i,
        {
            let k = keys[i];
            assert(keys@.to_set().contains(k)) by {
                assert(keys@.contains(k));
            }
            let a = match self.registry.addresses.get(&k) {
                Some(a) => *a,
                None => {
                    proof {
                        assert(false);
                    }
                    return Vec::new();
                },
            };
            proof {
                assert(keys@.take(i + 1) =~= keys@.take(i as int).push(k));
                assert(!keys@.take(i as int).contains(k));
            }
            if a.is_reachable && a.owner_node != node && a.is_active && nets.contains(a.id.network)
                && !skip.contains(&a.id.key()) {
                r.push(a.id);
                proof {
                    assert(!chosen.contains(k)) by {
                        if chosen.contains(k) {
                            assert(chosen.to_set().contains(k));
                        }
                    }
                    let old_chosen = chosen;
                    chosen = chosen.push(k);
                    old_chosen.lemma_push_to_set_commute(k);
                    keys@.take(i as int).lemma_push_to_set_commute(k);
                    assert(pred(k));
                    assert(chosen.to_set() =~= keys@.take(i + 1).to_set().filter(pred));
                }
            } else {
                proof {
                    keys@.take(i as int).lemma_push_to_set_commute(k);
                    assert(!pred(k));
                    assert(chosen.to_set() =~= keys@.take(i + 1).to_set().filter(pred));
                }
            }
            i = i + 1;
        }
        proof {
            assert(keys@.take(keys.len() as int) =~= keys@);
            assert(self.registry.addresses@.dom().filter(pred) =~= chosen.to_set());
            chosen.unique_seq_to_set();
            assert forall|j: int| 0 <= j < r.len() implies self.registry.has(#[trigger] r@[j])
                && eligible(self.registry.record(r@[j]), node, nets, skip@)
                && self.registry.record(r@[j]).id == r@[j] by {
                assert(self.registry.addresses@.contains_key(chosen[j]));
                assert(addr_key(self.registry.addresses@[chosen[j]].id) == chosen[j]);
            }
            assert forall|j: int, l: int| 0 <= j < r.len() && 0 <= l < r.len() && j != l implies r@[j] != r@[l] by {
                assert(addr_key(self.registry.addresses@[chosen[j]].id) == chosen[j]);
                assert(addr_key(self.registry.addresses@[chosen[l]].id) == chosen[l]);
            }
        }
        r
    }

    /// Open an outbound connection from `from_node` to `to_addr`: both ends record the
    /// connection and the initiator sends GETADDR.
    fn connect(&mut self, from_node: NodeId, to_addr: AddressId, now: u64) -> (r: Vec<Event>)
        requires
            old(self).wf(),
            old(self).nodes@.contains_key(from_node),
            old(self).registry.has(to_addr),
            old(self).registry.record(to_addr).is_active,
            old(self).registry.record(to_addr).owner_node != from_node,
            old(self).nodes@[from_node].own_addr(to_addr.network) is Some,
        ensures
            final(self).wf(),
            final(self).registry == old(self).registry,
            final(self).next_node_id == old(self).next_node_id,
            final(self).next_addr_id == old(self).next_addr_id,
            final(self).nodes@.dom() == old(self).nodes@.dom(),
            ({
                let to_node = old(self).registry.record(to_addr).owner_node;
                let from_addr = old(self).nodes@[from_node].own_addr(to_addr.network)->0;
                &&& Node::connect_post(
                    old(self).nodes@[from_node],
                    final(self).nodes@[from_node],
                    to_addr,
                    true,
                )
                &&& Node::connect_post(
                    old(self).nodes@[to_node],
                    final(self).nodes@[to_node],
                    from_addr,
                    false,
                )
                &&& forall|id: NodeId|
                    id != from_node && id != to_node ==> #[trigger] final(self).nodes@.get(id)
                        == old(self).nodes@.get(id)
                &&& r@.len() == 3
                &&& is_getaddr(r@[0], from_addr, to_addr, now)
                &&& r@[1] == announce_timer(from_node, to_addr, later(now, SELF_ANNOUNCE_DELAY))
                &&& r@[2] == announce_timer(to_node, from_addr, later(now, SELF_ANNOUNCE_DELAY))
            }),
    {
        let from_addr = self.own_addr_of(from_node, to_addr.network);
        let to_node = self.node_id_for_addr(to_addr);
        let ghost nodes0 = self.nodes@;
        proof {
            let rec = self.registry.record(to_addr);
            assert(self.registry.addresses@.contains_key(addr_key(to_addr)));
            assert(self.record_ok(rec));
            lemma_key_injective(rec.id, to_addr);
            assert(self.node_ok(to_node));
            lemma_first_on_some(self.nodes@[to_node].addresses@, to_addr);
            assert(self.node_ok(from_node));
            let fs = self.nodes@[from_node].addresses@;
            lemma_first_on_contains(fs, to_addr.network);
            let fi = choose|fi: int| 0 <= fi < fs.len() && fs[fi] == from_addr;
            assert(self.registry.addresses_of(from_node)[fi] == from_addr);
            assert(self.list_ok(from_node));
        }
        let mut events: Vec<Event> = Vec::new();
        match self.nodes.remove(&from_node) {
            Some(n) => {
                let mut n = n;
                let mut e = n.on_connect(to_addr, true, now);
                events.append(&mut e);
                self.nodes.insert(from_node, n);
            },
            None => {},
        }
        let ghost nodes1 = self.nodes@;
        match self.nodes.remove(&to_node) {
            Some(n) => {
                let mut n = n;
                let mut e = n.on_connect(from_addr, false, now);
                events.append(&mut e);
                self.nodes.insert(to_node, n);
            },
            None => {},
        }
        proof {
            assert(self.nodes@.dom() =~= nodes0.dom());
            assert forall|id: NodeId| #[trigger] self.nodes@.contains_key(id) implies self.node_ok(
                id,
            ) by {
                assert(nodes0.contains_key(id));
                let node0 = nodes0[id];
                let node = self.nodes@[id];
                assert(old(self).node_ok(id));
                if id == from_node || id == to_node {
                    assert(node.addresses == node0.addresses);
                    assert forall|k: u128| #[trigger] node.out_peers@.contains_key(k) implies self.peer_ok(
                        node,
                        node.out_peers@[k].addr,
                    ) by {
                        if !node0.out_peers@.contains_key(k) || (id == from_node && k == addr_key(
                            to_addr,
                        )) {
                            assert(id == from_node);
                            assert(node.out_peers@[k].addr == to_addr);
                        } else {
                            assert(node.out_peers@.get(k) == node0.out_peers@.get(k)) by {
                                if id == to_node && id != from_node {
                                    assert(node.out_peers == node0.out_peers);
                                }
                            }
                        }
                    }
                    assert forall|k: u128| #[trigger] node.in_peers@.contains_key(k) implies self.peer_ok(
                        node,
                        node.in_peers@[k].addr,
                    ) by {
                        if !node0.in_peers@.contains_key(k) || (id == to_node && k == addr_key(
                            from_addr,
                        )) {
                            assert(id == to_node);
                            assert(node.in_peers@[k].addr == from_addr);
                        } else {
                            assert(node.in_peers@.get(k) == node0.in_peers@.get(k)) by {
                                if id == from_node && id != to_node {
                                    assert(node.in_peers == node0.in_peers);
                                }
                            }
                        }
                    }
                }
            }
            assert forall|k: u128| #[trigger] self.registry.addresses@.contains_key(k) implies self.record_ok(
                self.registry.addresses@[k],
            ) by {
                assert(old(self).record_ok(self.registry.addresses@[k]));
            }
            assert forall|n: NodeId| #[trigger] self.registry.node_addresses@.contains_key(n) implies self.list_ok(
                n,
            ) by {
                assert(old(self).list_ok(n));
            }
        }
        events
    }

    /// The networks a list of addresses is on.
    fn networks_set(addrs: &Vec<AddressId>) -> (r: NetworkSet)
        ensures
            forall|n: NetworkType| #[trigger] r.has(n) <==> networks_of(addrs@, n),
    {
        let mut r = NetworkSet::new();
        let mut i: usize = 0;
        while i < addrs.len()
            invariant
                0 <= i <= addrs.len(),
                forall|n: NetworkType| #[trigger] r.has(n) <==> networks_of(addrs@.take(i as int), n),
            decreases addrs.len() - i,
        {
            r.insert(addrs[i].network);
            proof {
                assert forall|n: NetworkType| #[trigger] r.has(n) <==> networks_of(addrs@.take(i + 1), n) by {
                    if networks_of(addrs@.take(i + 1), n) {
                        let j = choose|j: int| 0 <= j < i + 1 && #[trigger] addrs@.take(i + 1)[j].network == n;
                        if j < i {
                            assert(addrs@.take(i as int)[j].network == n);
                        }
                    }
                    if networks_of(addrs@.take(i as int), n) {
                        let j = choose|j: int| 0 <= j < i && #[trigger] addrs@.take(i as int)[j].network == n;
                        assert(addrs@.take(i + 1)[j].network == n);
                    }
                    if n == addrs@[i as int].network {
                        assert(addrs@.take(i + 1)[i as int].network == n);
                    }
                }
            }
            i = i + 1;
        }
        proof {
            assert(addrs@.take(addrs.len() as int) =~= addrs@);
        }
        r
    }

    /// Up to `n` random addresses, from reachable nodes other than `joining` that are
    /// still in the network, on a network one of `own_addresses` is on.
    fn suitable_outbound_candidates(
        &self,
        joining: NodeId,
        own_addresses: &Vec<AddressId>,
        rng: &mut StdRng,
        n: usize,
    ) -> (r: Vec<AddressId>)
        requires
            self.registry.wf(),
        ensures
            ({
                let c = self.eligible_count(joining, Network::nets_of(own_addresses@), Set::empty());
                r.len() == if n < c {
                    n as nat
                } else {
                    c
                }
            }),
            forall|i: int|
                0 <= i < r.len() ==> self.registry.has(#[trigger] r@[i]) && eligible(
                    self.registry.record(r@[i]),
                    joining,
                    Network::nets_of(own_addresses@),
                    Set::empty(),
                ),
            r@.no_duplicates(),
    {
        let nets = Network::networks_set(own_addresses);
        let skip: HashSet<u128> = HashSet::new();
        proof {
            assert(nets.has(NetworkType::Onion) == networks_of(own_addresses@, NetworkType::Onion));
            assert(nets.has(NetworkType::Clearnet) == networks_of(own_addresses@, NetworkType::Clearnet));
            assert(nets == Network::nets_of(own_addresses@));
        }
        let eligible_list = self.eligible_addresses(joining, nets, &skip);
        pick_some(rng, eligible_list, n, Ghost(|a: AddressId| self.registry.has(a) && eligible(self.registry.record(a), joining, nets, skip@)))
    }

    /// Register a new node with one fresh address per entry of `networks` and add it,
    /// unconnected, to the network.
    fn register_node(
        &mut self,
        networks: &Vec<NetworkType>,
        reachable_on: NetworkSet,
        cache_algo: GetaddrCacheAlgorithm,
    ) -> (r: NodeId)
        requires
            old(self).wf(),
            old(self).next_node_id < usize::MAX,
            old(self).next_addr_id + networks.len() <= u64::MAX,
        ensures
            final(self).wf(),
            r == old(self).next_node_id,
            final(self).next_node_id == old(self).next_node_id + 1,
            final(self).next_addr_id == old(self).next_addr_id + networks.len(),
            final(self).nodes@.dom() == old(self).nodes@.dom().insert(r),
            forall|id: NodeId| id != r ==> #[trigger] final(self).nodes@.get(id) == old(self).nodes@.get(id),
            ({
                let node = final(self).nodes@[r];
                &&& node.node_id == r
                &&& node.addresses@.len() == networks.len()
                &&& forall|i: int|
                    0 <= i < networks.len() ==> #[trigger] node.addresses@[i] == (AddressId {
                        id: (old(self).next_addr_id + i) as u64,
                        network: networks@[i],
                    })
                &&& node.reachable_networks == reachable_on
                &&& node.outbound_networks == Network::nets_of(node.addresses@)
                &&& node.cache_algo == cache_algo
                &&& node.out_peers@ == Map::<u128, crate::node::Peer>::empty()
                &&& node.in_peers@ == Map::<u128, crate::node::Peer>::empty()
                &&& node.addrman@ == Map::<AddressId, u64>::empty()
                &&& node.node_statistics.all_zero()
                &&& forall|n: NetworkType| #[trigger] node.getaddr_cache.cache(n) is None
                &&& forall|i: int|
                    0 <= i < networks.len() ==> final(self).registry.has(#[trigger] node.addresses@[i])
                        && final(self).registry.record(node.addresses@[i]) == (Address {
                        id: node.addresses@[i],
                        owner_node: r,
                        is_active: true,
                        is_reachable: reachable_on.has(networks@[i]),
                    })
            }),
            forall|k: u128| #[trigger]
                old(self).registry.addresses@.contains_key(k) ==> final(
                    self).registry.addresses@.contains_key(k) && final(self).registry.addresses@[k]
                    == old(self).registry.addresses@[k],
            forall|k: u128| #[trigger]
                final(self).registry.addresses@.contains_key(k) && !old(
                    self).registry.addresses@.contains_key(k) ==> final(
                    self).registry.addresses@[k].owner_node == r,
    {
        let node_id = self.next_node_id;
        self.next_node_id = self.next_node_id + 1;
        let ghost base = self.next_addr_id;
        let mut addresses: Vec<AddressId> = Vec::new();
        let mut i: usize = 0;
        proof {
            assert(!old(self).registry.node_addresses@.contains_key(node_id)) by {
                if old(self).registry.node_addresses@.contains_key(node_id) {
                    assert(old(self).list_ok(node_id));
                }
            }
            assert(self.registry.addresses_of(node_id) =~= addresses@);
        }
        while i < networks.len()
            invariant
                self.registry.wf(),
                self.nodes == old(self).nodes,
                node_id == old(self).next_node_id,
                self.next_node_id == node_id + 1,
                base == old(self).next_addr_id,
                self.next_addr_id == base + i,
                base + networks.len() <= u64::MAX,
                0 <= i <= networks.len(),
                addresses@.len() == i,
                forall|j: int|
                    0 <= j < i ==> #[trigger] addresses@[j] == (AddressId {
                        id: (base + j) as u64,
                        network: networks@[j],
                    }),
                self.registry.addresses_of(node_id) == addresses@,
                forall|n: NodeId|
                    n != node_id ==> #[trigger] self.registry.node_addresses@.get(n) == old(
                        self).registry.node_addresses@.get(n),
                forall|k: u128| #[trigger]
                    old(self).registry.addresses@.contains_key(k) ==> self.registry.addresses@.contains_key(k)
                        && self.registry.addresses@[k] == old(self).registry.addresses@[k],
                forall|k: u128| #[trigger]
                    self.registry.addresses@.contains_key(k) && !old(
                        self).registry.addresses@.contains_key(k) ==> self.registry.addresses@[k].owner_node
                        == node_id && self.registry.addresses@[k].is_active && self.registry.addresses@[k].id.id >= base
                        && self.registry.addresses@[k].id.id < base + i
                        && addresses@.contains(self.registry.addresses@[k].id),
                forall|j: int|
                    0 <= j < i ==> self.registry.has(#[trigger] addresses@[j]) && self.registry.record(
                        addresses@[j],
                    ) == (Address {
                        id: addresses@[j],
                        owner_node: node_id,
                        is_active: true,
                        is_reachable: reachable_on.has(networks@[j]),
                    }),
                forall|k: u128| #[trigger]
                    old(self).registry.addresses@.contains_key(k) ==> old(self).registry.addresses@[k].id.id < base,
            decreases networks.len() - i,
        {
            let net = networks[i];
            let addr = AddressId { id: self.next_addr_id, network: net };
            self.next_addr_id = self.next_addr_id + 1;
            let reach = reachable_on.contains(net);
            let ghost before = self.registry.addresses@;
            let ghost before_na = self.registry.node_addresses@;
            let ghost prev_addrs = addresses@;
            proof {
                assert(!before.contains_key(addr_key(addr))) by {
                    if before.contains_key(addr_key(addr)) {
                        let rec = before[addr_key(addr)];
                        lemma_key_injective(rec.id, addr);
                        if !old(self).registry.addresses@.contains_key(addr_key(addr)) {
                            let j = choose|j: int| 0 <= j < addresses@.len() && addresses@[j] == rec.id;
                        }
                    }
                }
            }
            self.registry.register(node_id, addr, reach);
            addresses.push(addr);
            proof {
                assert forall|n: NodeId| n != node_id implies #[trigger] self.registry.node_addresses@.get(n)
                    == before_na.get(n) by {
                    if before_na.contains_key(n) {
                        assert(self.registry.node_addresses@.contains_key(n));
                    }
                }
                assert forall|k: u128| #[trigger]
                    self.registry.addresses@.contains_key(k) && !old(
                        self).registry.addresses@.contains_key(k) implies self.registry.addresses@[k].owner_node
                        == node_id && self.registry.addresses@[k].is_active && self.registry.addresses@[k].id.id >= base
                        && self.registry.addresses@[k].id.id < base + i + 1
                        && addresses@.contains(self.registry.addresses@[k].id) by {
                    if k == addr_key(addr) {
                        assert(addresses@[i as int] == addr);
                    } else {
                        let id = self.registry.addresses@[k].id;
                        assert(before.contains_key(k));
                        assert(prev_addrs.contains(id));
                        let j = choose|j: int| 0 <= j < prev_addrs.len() && prev_addrs[j] == id;
                        assert(addresses@[j] == id);
                    }
                }
                assert forall|j: int|
                    0 <= j < i + 1 implies self.registry.has(#[trigger] addresses@[j]) && self.registry.record(
                        addresses@[j],
                    ) == (Address {
                        id: addresses@[j],
                        owner_node: node_id,
                        is_active: true,
                        is_reachable: reachable_on.has(networks@[j]),
                    }) by {
                    if j < i {
                        lemma_key_injective(addresses@[j], addr);
                    }
                }
            }
            i = i + 1;
        }
        let outbound = Network::networks_set(&addresses);
        proof {
            assert(outbound.has(NetworkType::Onion) == networks_of(addresses@, NetworkType::Onion));
            assert(outbound.has(NetworkType::Clearnet) == networks_of(addresses@, NetworkType::Clearnet));
        }
        let ghost addrs = addresses@;
        let node = Node::new(node_id, addresses, reachable_on, outbound, cache_algo);
        self.nodes.insert(node_id, node);
        proof {
            assert(self.nodes@.dom() =~= old(self).nodes@.dom().insert(node_id));
            assert forall|k: u128| #[trigger] self.registry.addresses@.contains_key(k) implies self.record_ok(
                self.registry.addresses@[k],
            ) by {
                let rec = self.registry.addresses@[k];
                if old(self).registry.addresses@.contains_key(k) {
                    assert(old(self).record_ok(rec));
                    if old(self).registry.addresses_of(rec.owner_node).contains(rec.id) {
                        assert(old(self).registry.node_addresses@.contains_key(rec.owner_node));
                        assert(old(self).list_ok(rec.owner_node));
                        assert(rec.owner_node != node_id);
                        assert(self.registry.node_addresses@.get(rec.owner_node) == old(
                            self).registry.node_addresses@.get(rec.owner_node));
                    }
                }
            }
            assert forall|n: NodeId| #[trigger] self.registry.node_addresses@.contains_key(n) implies self.list_ok(
                n,
            ) by {
                if n != node_id {
                    assert(self.registry.node_addresses@.get(n) == old(self).registry.node_addresses@.get(n));
                    assert(old(self).registry.node_addresses@.contains_key(n));
                    assert(old(self).list_ok(n));
                    assert(self.registry.addresses_of(n) == old(self).registry.addresses_of(n));
                    assert forall|j: int|
                        0 <= j < self.registry.addresses_of(n).len() implies self.registry.has(
                            #[trigger] self.registry.addresses_of(n)[j],
                        ) && self.registry.record(self.registry.addresses_of(n)[j]).owner_node == n by {
                        assert(old(self).registry.has(old(self).registry.addresses_of(n)[j]));
                    }
                }
            }
            assert forall|id: NodeId| #[trigger] self.nodes@.contains_key(id) implies self.node_ok(id) by {
                if id != node_id {
                    assert(old(self).node_ok(id));
                    let nd = self.nodes@[id];
                    assert(self.registry.node_addresses@.get(id) == old(self).registry.node_addresses@.get(id));
                    assert(self.registry.addresses_of(id) == old(self).registry.addresses_of(id));
                    assert forall|k: u128| #[trigger] nd.out_peers@.contains_key(k) implies self.peer_ok(
                        nd,
                        nd.out_peers@[k].addr,
                    ) by {
                        assert(old(self).peer_ok(nd, nd.out_peers@[k].addr));
                        assert(old(self).registry.addresses@.contains_key(addr_key(nd.out_peers@[k].addr)));
                    }
                    assert forall|k: u128| #[trigger] nd.in_peers@.contains_key(k) implies self.peer_ok(
                        nd,
                        nd.in_peers@[k].addr,
                    ) by {
                        assert(old(self).peer_ok(nd, nd.in_peers@[k].addr));
                        assert(old(self).registry.addresses@.contains_key(addr_key(nd.in_peers@[k].addr)));
                    }
                }
            }
        }
        node_id
    }

    /// Open an outbound connection from `node_id` to each address of `cands` in turn.
    /// The GETADDRs come first, in the order of `cands`; then, per connection, the first
    /// self-announcement timers of the initiator and of the peer.
    fn connect_all(&mut self, node_id: NodeId, cands: &Vec<AddressId>, now: u64) -> (r: Vec<Event>)
        requires
            old(self).wf(),
            old(self).nodes@.contains_key(node_id),
            forall|i: int|
                0 <= i < cands.len() ==> {
                    &&& old(self).registry.has(#[trigger] cands@[i])
                    &&& old(self).registry.record(cands@[i]).is_active
                    &&& old(self).registry.record(cands@[i]).owner_node != node_id
                    &&& old(self).nodes@[node_id].own_addr(cands@[i].network) is Some
                },
        ensures
            final(self).wf(),
            final(self).registry == old(self).registry,
            final(self).next_node_id == old(self).next_node_id,
            final(self).next_addr_id == old(self).next_addr_id,
            final(self).nodes@.dom() == old(self).nodes@.dom(),
            forall|id: NodeId| #[trigger]
                final(self).nodes@.contains_key(id) ==> final(self).nodes@[id].same_identity(
                    &old(self).nodes@[id],
                ) && final(self).nodes@[id].addrman == old(self).nodes@[id].addrman,
            Network::connected_events(*old(self), node_id, cands@, now, r@),
            Network::linked(*old(self), *final(self), node_id, cands@),
    {
        let mut events: Vec<Event> = Vec::new();
        let mut timers: Vec<Event> = Vec::new();
        let mut i: usize = 0;
        proof {
            assert(cands@.take(0) =~= Seq::<AddressId>::empty());
        }
        while i < cands.len()
            invariant
                self.wf(),
                self.registry == old(self).registry,
                self.next_node_id == old(self).next_node_id,
                self.next_addr_id == old(self).next_addr_id,
                self.nodes@.dom() == old(self).nodes@.dom(),
                self.nodes@.contains_key(node_id),
                forall|id: NodeId| #[trigger]
                    self.nodes@.contains_key(id) ==> self.nodes@[id].same_identity(
                        &old(self).nodes@[id],
                    ) && self.nodes@[id].addrman == old(self).nodes@[id].addrman,
                0 <= i <= cands.len(),
                events@.len() == i,
                timers@.len() == 2 * i,
                forall|j: int|
                    0 <= j < i ==> is_getaddr(
                        #[trigger] events@[j],
                        old(self).nodes@[node_id].own_addr(cands@[j].network)->0,
                        cands@[j],
                        now,
                    ),
                forall|j: int|
                    0 <= j < i ==> Network::timer_pair(
                        *old(self),
                        node_id,
                        cands@[j],
                        now,
                        #[trigger] timers@[2 * j],
                        timers@[2 * j + 1],
                    ),
                forall|j: int|
                    0 <= j < cands.len() ==> {
                        &&& self.registry.has(#[trigger] cands@[j])
                        &&& self.registry.record(cands@[j]).is_active
                        &&& self.registry.record(cands@[j]).owner_node != node_id
                        &&& old(self).nodes@[node_id].own_addr(cands@[j].network) is Some
                    },
                Network::linked(*old(self), *self, node_id, cands@.take(i as int)),
                old(self).wf(),
                old(self).nodes@.contains_key(node_id),
            decreases cands.len() - i,
        {
            let c = cands[i];
            let ghost before = self.nodes@;
            let ghost sb = *self;
            proof {
                assert(self.nodes@[node_id].addresses == old(self).nodes@[node_id].addresses);
            }
            let mut e = self.connect(node_id, c, now);
            proof {
                assert forall|j: int| 0 <= j < cands.len() implies old(self).nodes@.contains_key(
                    old(self).registry.record(#[trigger] cands@[j]).owner_node,
                ) by {
                    let rec = old(self).registry.record(cands@[j]);
                    assert(old(self).registry.addresses@.contains_key(addr_key(cands@[j])));
                    assert(old(self).record_ok(rec));
                }
                lemma_linked_step(*old(self), sb, *self, node_id, cands@, i as int);
            }
            proof {
                assert forall|id: NodeId| #[trigger]
                    self.nodes@.contains_key(id) implies self.nodes@[id].same_identity(
                        &old(self).nodes@[id],
                    ) && self.nodes@[id].addrman == old(self).nodes@[id].addrman by {
                    assert(before.contains_key(id));
                    if self.nodes@.get(id) == before.get(id) {
                        assert(self.nodes@[id] == before[id]);
                    }
                }
                assert(self.registry.record(c).owner_node == old(self).registry.record(c).owner_node);
            }
            let ghost t0 = timers@;
            let ghost e0 = e@;
            let third = e.pop();
            let second = e.pop();
            let first = e.pop();
            match (first, second, third) {
                (Some(g), Some(a), Some(b)) => {
                    proof {
                        assert(g == e0[0] && a == e0[1] && b == e0[2]);
                    }
                    events.push(g);
                    timers.push(a);
                    timers.push(b);
                },
                _ => {
                    proof {
                        assert(false);
                    }
                },
            }
            proof {
                assert forall|j: int| 0 <= j < i + 1 implies Network::timer_pair(
                    *old(self),
                    node_id,
                    cands@[j],
                    now,
                    #[trigger] timers@[2 * j],
                    timers@[2 * j + 1],
                ) by {
                    if j < i {
                        assert(timers@[2 * j] == t0[2 * j]);
                        assert(timers@[2 * j + 1] == t0[2 * j + 1]);
                    }
                }
            }
            i = i + 1;
        }
        proof {
            assert(cands@.take(cands@.len() as int) =~= cands@);
        }
        let ghost ev = events@;
        let ghost tv = timers@;
        events.append(&mut timers);
        proof {
            assert forall|j: int| 0 <= j < cands@.len() implies Network::timer_pair(
                *old(self),
                node_id,
                cands@[j],
                now,
                #[trigger] events@[cands@.len() + 2 * j],
                events@[cands@.len() + 2 * j + 1],
            ) by {
                assert(events@[cands@.len() + 2 * j] == tv[2 * j]);
                assert(events@[cands@.len() + 2 * j + 1] == tv[2 * j + 1]);
            }
        }
        events
    }

    /// `post` is `pre` with `node_id` connected out to each of `cands`: its outbound
    /// peers are the old ones and `cands`; no other node gained or lost an outbound peer
    /// or lost an inbound one; the owner of each of `cands` has the connection inbound,
    /// from `node_id`'s address on that network.
    pub open spec fn linked(pre: Network, post: Network, node_id: NodeId, cands: Seq<AddressId>) -> bool {
        &&& post.nodes@.dom() == pre.nodes@.dom()
        &&& forall|k: u128|
            #[trigger] post.nodes@[node_id].out_peers@.contains_key(k) <==> pre.nodes@[node_id].out_peers@.contains_key(k)
                || exists|j: int| 0 <= j < cands.len() && k == addr_key(#[trigger] cands[j])
        &&& forall|id: NodeId, k: u128|
            id != node_id && #[trigger] pre.nodes@.contains_key(id) ==> (#[trigger] post.nodes@[id].out_peers@.contains_key(k)
                <==> pre.nodes@[id].out_peers@.contains_key(k))
        &&& forall|id: NodeId, k: u128|
            #[trigger] pre.nodes@.contains_key(id) && #[trigger] pre.nodes@[id].in_peers@.contains_key(k)
                ==> post.nodes@[id].in_peers@.contains_key(k)
        &&& forall|j: int|
            0 <= j < cands.len() ==> post.nodes@[pre.registry.record(#[trigger] cands[j]).owner_node].in_peers@.contains_key(
                addr_key(pre.nodes@[node_id].own_addr(cands[j].network)->0),
            )
        &&& post.nodes@[node_id].in_peers@.dom() == pre.nodes@[node_id].in_peers@.dom()
        &&& forall|id: NodeId, k: u128|
            #[trigger] pre.nodes@.contains_key(id) && #[trigger] post.nodes@[id].in_peers@.contains_key(k)
                && !pre.nodes@[id].in_peers@.contains_key(k) ==> exists|j: int|
                0 <= j < cands.len() && pre.registry.record(#[trigger] cands[j]).owner_node == id && k == addr_key(
                    pre.nodes@[node_id].own_addr(cands[j].network)->0,
                )
        &&& forall|id: NodeId| #[trigger] pre.nodes@.contains_key(id) ==> same_but_links(pre.nodes@[id], post.nodes@[id])
        &&& forall|id: NodeId, k: u128|
            #[trigger] pre.nodes@.contains_key(id) && #[trigger] pre.nodes@[id].out_peers@.contains_key(k)
                && !(id == node_id && Network::dials(cands, k)) ==> post.nodes@[id].out_peers@[k] == pre.nodes@[id].out_peers@[k]
        &&& forall|id: NodeId, k: u128|
            #[trigger] pre.nodes@.contains_key(id) && #[trigger] pre.nodes@[id].in_peers@.contains_key(k)
                && !Network::answers(pre, node_id, cands, id, k) ==> post.nodes@[id].in_peers@[k] == pre.nodes@[id].in_peers@[k]
        &&& forall|id: NodeId|
            #[trigger] pre.nodes@.contains_key(id) && id != node_id && !Network::dialed_node(pre, cands, id) ==> post.nodes@[id]
                == pre.nodes@[id]
        &&& forall|j: int| 0 <= j < cands.len() && !pre.nodes@[node_id].out_peers@.contains_key(addr_key(#[trigger] cands[j]))
            ==> post.nodes@[node_id].out_peers@[addr_key(cands[j])].is_fresh(cands[j], true)
    }

    /// Some address of `cands` has key `k`.
    pub open spec fn dials(cands: Seq<AddressId>, k: u128) -> bool {
        exists|j: int| 0 <= j < cands.len() && addr_key(#[trigger] cands[j]) == k
    }

    /// Some address of `cands` belongs to node `id`.
    pub open spec fn dialed_node(pre: Network, cands: Seq<AddressId>, id: NodeId) -> bool {
        exists|j: int| 0 <= j < cands.len() && pre.registry.record(#[trigger] cands[j]).owner_node == id
    }

    /// Key `k` at node `id` is where a connection from `node_id` to one of `cands` lands.
    pub open spec fn answers(pre: Network, node_id: NodeId, cands: Seq<AddressId>, id: NodeId, k: u128) -> bool {
        exists|j: int|
            0 <= j < cands.len() && pre.registry.record(#[trigger] cands[j]).owner_node == id && k == addr_key(
                pre.nodes@[node_id].own_addr(cands[j].network)->0,
            )
    }

    /// The first self-announcement timers of a connection from `node_id` to `c`: one
    /// at the initiator for `c`, one at `c`'s owner for the initiator's address.
    pub open spec fn timer_pair(pre: Network, node_id: NodeId, c: AddressId, now: u64, a: Event, b: Event) -> bool {
        &&& a == announce_timer(node_id, c, later(now, SELF_ANNOUNCE_DELAY))
        &&& b == announce_timer(
            pre.registry.record(c).owner_node,
            pre.nodes@[node_id].own_addr(c.network)->0,
            later(now, SELF_ANNOUNCE_DELAY),
        )
    }

    /// The events of connecting `node_id` to each of `cands`: a GETADDR per connection,
    /// in order, then the pair of first self-announcement timers per connection.
    pub open spec fn connected_events(pre: Network, node_id: NodeId, cands: Seq<AddressId>, now: u64, r: Seq<Event>) -> bool {
        &&& r.len() == 3 * cands.len()
        &&& forall|i: int|
            0 <= i < cands.len() ==> is_getaddr(
                #[trigger] r[i],
                pre.nodes@[node_id].own_addr(cands[i].network)->0,
                cands[i],
                now,
            )
        &&& forall|i: int|
            0 <= i < cands.len() ==> Network::timer_pair(
                pre,
                node_id,
                cands[i],
                now,
                #[trigger] r[cands.len() + 2 * i],
                r[cands.len() + 2 * i + 1],
            )
    }

    /// `r` is what `id` sent on opening `m` outbound connections, each to an address
    /// eligible under `nets` and `skip`: the GETADDRs first, then the pair of first
    /// self-announcement timers of each connection.
    pub open spec fn batch_ok(net: Network, id: NodeId, nets: NetworkSet, skip: Set<u128>, now: u64, m: int, r: Seq<Event>) -> bool {
        &&& r.len() == 3 * m
        &&& forall|i: int, j: int|
            0 <= i < m && 0 <= j < m && i != j ==> send_target(#[trigger] r[i]) != send_target(#[trigger] r[j])
        &&& forall|i: int|
            0 <= i < m ==> {
                let t = send_target(#[trigger] r[i]);
                &&& net.registry.has(t)
                &&& eligible(net.registry.record(t), id, nets, skip)
                &&& is_getaddr(r[i], net.nodes@[id].own_addr(t.network)->0, t, now)
                &&& Network::timer_pair(net, id, t, now, r[m + 2 * i], r[m + 2 * i + 1])
            }
    }

    /// After `id` opened the `m` connections that `r` starts with (their GETADDRs): its
    /// outbound peers are its old ones, if it had any, and the GETADDRs' targets; no
    /// other node gained or lost an outbound peer or lost an inbound one; each target's
    /// owner has the connection inbound, from `id`'s address on that network.
    pub open spec fn peers_linked(pre: Network, post: Network, id: NodeId, m: int, r: Seq<Event>) -> bool {
        &&& forall|k: u128|
            #[trigger] post.nodes@[id].out_peers@.contains_key(k) <==> (pre.nodes@.contains_key(id)
                && pre.nodes@[id].out_peers@.contains_key(k)) || exists|i: int|
                0 <= i < m && k == addr_key(send_target(#[trigger] r[i]))
        &&& forall|j: NodeId, k: u128|
            j != id && #[trigger] pre.nodes@.contains_key(j) ==> (#[trigger] post.nodes@[j].out_peers@.contains_key(k)
                <==> pre.nodes@[j].out_peers@.contains_key(k))
        &&& forall|j: NodeId, k: u128|
            #[trigger] pre.nodes@.contains_key(j) && #[trigger] pre.nodes@[j].in_peers@.contains_key(k)
                ==> post.nodes@[j].in_peers@.contains_key(k)
        &&& forall|i: int|
            0 <= i < m ==> post.nodes@[post.registry.record(send_target(#[trigger] r[i])).owner_node].in_peers@.contains_key(
                addr_key(post.nodes@[id].own_addr(send_target(r[i]).network)->0),
            )
        &&& forall|k: u128|
            #[trigger] post.nodes@[id].in_peers@.contains_key(k) ==> pre.nodes@.contains_key(id)
                && pre.nodes@[id].in_peers@.contains_key(k)
        &&& forall|j: NodeId, k: u128|
            #[trigger] pre.nodes@.contains_key(j) && #[trigger] post.nodes@[j].in_peers@.contains_key(k)
                && !pre.nodes@[j].in_peers@.contains_key(k) ==> exists|i: int|
                0 <= i < m && post.registry.record(send_target(#[trigger] r[i])).owner_node == j && k == addr_key(
                    post.nodes@[id].own_addr(send_target(r[i]).network)->0,
                )
        &&& forall|j: NodeId| #[trigger] pre.nodes@.contains_key(j) ==> same_but_links(pre.nodes@[j], post.nodes@[j])
        &&& forall|j: NodeId, k: u128|
            #[trigger] pre.nodes@.contains_key(j) && #[trigger] pre.nodes@[j].out_peers@.contains_key(k)
                && !(j == id && exists|i: int| 0 <= i < m && k == addr_key(send_target(#[trigger] r[i])))
                ==> post.nodes@[j].out_peers@[k] == pre.nodes@[j].out_peers@[k]
        &&& forall|j: NodeId, k: u128|
            #[trigger] pre.nodes@.contains_key(j) && #[trigger] pre.nodes@[j].in_peers@.contains_key(k)
                && !(exists|i: int|
                0 <= i < m && post.registry.record(send_target(#[trigger] r[i])).owner_node == j && k == addr_key(
                    post.nodes@[id].own_addr(send_target(r[i]).network)->0,
                )) ==> post.nodes@[j].in_peers@[k] == pre.nodes@[j].in_peers@[k]
        &&& forall|j: NodeId|
            #[trigger] pre.nodes@.contains_key(j) && j != id && !(exists|i: int|
                0 <= i < m && post.registry.record(send_target(#[trigger] r[i])).owner_node == j) ==> post.nodes@[j]
                == pre.nodes@[j]
        &&& forall|i: int|
            0 <= i < m && !(pre.nodes@.contains_key(id) && pre.nodes@[id].out_peers@.contains_key(addr_key(send_target(#[trigger] r[i]))))
                ==> post.nodes@[id].out_peers@[addr_key(send_target(r[i]))].is_fresh(send_target(r[i]), true)
    }

    /// The network after adding node `id` on `networks`, and the messages it sent.
    pub open spec fn add_post(pre: Network, post: Network, networks: Seq<NetworkType>, reachable_on: NetworkSet, n_outbound: usize, cache_algo: GetaddrCacheAlgorithm, now: u64, id: NodeId, r: Seq<Event>) -> bool {
        &&& post.wf()
        &&& id == pre.next_node_id
        &&& post.next_node_id == pre.next_node_id + 1
        &&& post.next_addr_id == pre.next_addr_id + networks.len()
        &&& post.nodes@.dom() == pre.nodes@.dom().insert(id)
        &&& forall|j: NodeId| #[trigger]
            pre.nodes@.contains_key(j) ==> post.nodes@[j].same_identity(&pre.nodes@[j])
                && post.nodes@[j].addrman == pre.nodes@[j].addrman
        &&& post.nodes@[id].addrman@ == Map::<AddressId, u64>::empty()
        &&& forall|k: u128| #[trigger]
            pre.registry.addresses@.contains_key(k) ==> post.registry.addresses@.contains_key(k)
                && post.registry.addresses@[k] == pre.registry.addresses@[k]
        &&& forall|k: u128| #[trigger]
            post.registry.addresses@.contains_key(k) && !pre.registry.addresses@.contains_key(k)
                ==> post.registry.addresses@[k].owner_node == id
        &&& forall|i: int|
            0 <= i < networks.len() ==> post.registry.has(#[trigger] post.nodes@[id].addresses@[i])
                && post.registry.record(post.nodes@[id].addresses@[i]) == (Address {
                id: post.nodes@[id].addresses@[i],
                owner_node: id,
                is_active: true,
                is_reachable: reachable_on.has(networks[i]),
            })
        &&& ({
            let node = post.nodes@[id];
            let nets = Network::nets_of(node.addresses@);
            let c = post.eligible_count(id, nets, Set::empty());
            &&& node.addresses@.len() == networks.len()
            &&& forall|i: int|
                0 <= i < networks.len() ==> #[trigger] node.addresses@[i] == (AddressId {
                    id: (pre.next_addr_id + i) as u64,
                    network: networks[i],
                })
            &&& node.reachable_networks == reachable_on
            &&& node.cache_algo == cache_algo
            &&& Network::batch_ok(post, id, nets, Set::empty(), now, if n_outbound < c {
                n_outbound as int
            } else {
                c as int
            }, r)
            &&& Network::peers_linked(pre, post, id, if n_outbound < c {
                n_outbound as int
            } else {
                c as int
            }, r)
            &&& node.out_peers@.dom().len() == if n_outbound < c {
                n_outbound as int
            } else {
                c as int
            }
        })
    }

    /// Add a new node with the given network types and reachability.
    /// Connects it to up to `n_outbound` randomly selected reachable peers.
    pub fn add_node(
        &mut self,
        networks: Vec<NetworkType>,
        reachable_on: NetworkSet,
        n_outbound: usize,
        cache_algo: GetaddrCacheAlgorithm,
        now: u64,
        rng: &mut StdRng,
    ) -> (r: (NodeId, Vec<Event>))
        requires
            old(self).wf(),
            old(self).next_node_id < usize::MAX,
            old(self).next_addr_id + networks.len() <= u64::MAX,
        ensures
            Network::add_post(*old(self), *final(self), networks@, reachable_on, n_outbound, cache_algo, now, r.0, r.1@),
    {
        let node_id = self.register_node(&networks, reachable_on, cache_algo);
        let own = match self.nodes.get(&node_id) {
            Some(n) => copy_addrs(&n.addresses),
            None => Vec::new(),
        };
        let cands = self.suitable_outbound_candidates(node_id, &own, rng, n_outbound);
        let ghost mid = *self;
        proof {
            assert forall|i: int| 0 <= i < cands.len() implies {
                &&& self.registry.has(#[trigger] cands@[i])
                &&& self.registry.record(cands@[i]).is_active
                &&& self.registry.record(cands@[i]).owner_node != node_id
                &&& self.nodes@[node_id].own_addr(cands@[i].network) is Some
            } by {
                let c = cands@[i];
                assert(Network::nets_of(own@).has(c.network));
                assert(networks_of(own@, c.network));
                let j = choose|j: int| 0 <= j < own@.len() && #[trigger] own@[j].network == c.network;
                assert(own@.contains(own@[j]));
                lemma_first_on_some(own@, own@[j]);
            }
        }
        let events = self.connect_all(node_id, &cands, now);
        proof {
            let node = self.nodes@[node_id];
            assert(node.addresses == mid.nodes@[node_id].addresses);
            let m = cands@.len() as int;
            assert forall|i: int| 0 <= i < m implies {
                let t = send_target(#[trigger] events@[i]);
                &&& self.registry.has(t)
                &&& eligible(self.registry.record(t), node_id, Network::nets_of(node.addresses@), Set::empty())
                &&& is_getaddr(events@[i], node.own_addr(t.network)->0, t, now)
                &&& Network::timer_pair(*self, node_id, t, now, events@[m + 2 * i], events@[m + 2 * i + 1])
            } by {
                assert(send_target(events@[i]) == cands@[i]);
                assert(Network::timer_pair(mid, node_id, cands@[i], now, events@[m + 2 * i], events@[m + 2 * i + 1]));
            }
            assert forall|i: int| 0 <= i < cands.len() implies send_target(#[trigger] events@[i]) == cands@[i] by {}
            assert forall|j: NodeId| j != node_id && #[trigger] old(self).nodes@.contains_key(j) implies mid.nodes@[j]
                == old(self).nodes@[j] by {
                assert(mid.nodes@.get(j) == old(self).nodes@.get(j));
            }
            assert(!old(self).nodes@.contains_key(node_id)) by {
                if old(self).nodes@.contains_key(node_id) {
                    assert(old(self).node_ok(node_id));
                }
            }
            lemma_peers_linked(*old(self), mid, *self, node_id, cands@, events@);
            let ks = cands@.map_values(|a: AddressId| addr_key(a));
            assert forall|x: int, y: int| 0 <= x < ks.len() && 0 <= y < ks.len() && x != y implies ks[x] != ks[y] by {
                lemma_key_injective(cands@[x], cands@[y]);
            }
            assert(self.nodes@[node_id].out_peers@.dom() =~= ks.to_set()) by {
                assert forall|k: u128| #[trigger] self.nodes@[node_id].out_peers@.dom().contains(k) implies ks.to_set().contains(k) by {
                    let i = choose|i: int| 0 <= i < cands@.len() && k == addr_key(send_target(#[trigger] events@[i]));
                    assert(ks[i] == k);
                }
                assert forall|k: u128| #[trigger] ks.to_set().contains(k) implies self.nodes@[node_id].out_peers@.dom().contains(k) by {
                    let i = choose|i: int| 0 <= i < ks.len() && ks[i] == k;
                    assert(send_target(events@[i]) == cands@[i]);
                }
            }
            ks.unique_seq_to_set();
            assert forall|j: NodeId| #[trigger] old(self).nodes@.contains_key(j) implies self.nodes@[
                j
            ].same_identity(&old(self).nodes@[j]) && self.nodes@[j].addrman == old(self).nodes@[j].addrman by {
                assert(old(self).node_ok(j));
                assert(mid.nodes@.get(j) == old(self).nodes@.get(j));
            }
        }
        (node_id, events)
    }

    /// The network after `node_id` looked for a new outbound peer on `network`.
    pub open spec fn reconnect_post(pre: Network, post: Network, node_id: NodeId, network: NetworkType, now: u64, r: Seq<Event>) -> bool {
        &&& post.wf()
        &&& post.registry == pre.registry
        &&& post.next_node_id == pre.next_node_id
        &&& post.next_addr_id == pre.next_addr_id
        &&& post.nodes@.dom() == pre.nodes@.dom()
        &&& forall|j: NodeId| #[trigger] pre.nodes@.contains_key(j) ==> post.nodes@[j].same_identity(&pre.nodes@[j])
        &&& Network::batch_ok(pre, node_id, NetworkSet::on(network), Network::reconnect_skip(pre, node_id), now, Network::reconnect_count(pre, node_id, network), r)
        &&& Network::peers_linked(pre, post, node_id, Network::reconnect_count(pre, node_id, network), r)
    }

    /// The addresses reconnecting leaves out: every address of a node `node_id` is
    /// already connected to, either way, on any network.
    pub open spec fn reconnect_skip(pre: Network, node_id: NodeId) -> Set<u128> {
        pre.owned_keys(pre.peer_owners(node_id))
    }

    /// Reconnecting on `network` opens one connection when there is an address to dial.
    pub open spec fn reconnect_count(pre: Network, node_id: NodeId, network: NetworkType) -> int {
        if pre.eligible_count(node_id, NetworkSet::on(network), Network::reconnect_skip(pre, node_id)) == 0 {
            0
        } else {
            1
        }
    }

    /// Find a new outbound peer for `node_id` on `network` and connect to it.
    /// Excludes nodes the caller is already connected to (inbound or outbound, on any
    /// network).
    pub fn reconnect_outbound(
        &mut self,
        node_id: NodeId,
        network: NetworkType,
        now: u64,
        rng: &mut StdRng,
    ) -> (r: Vec<Event>)
        requires
            old(self).wf(),
            old(self).nodes@.contains_key(node_id),
            old(self).nodes@[node_id].own_addr(network) is Some,
        ensures
            Network::reconnect_post(*old(self), *final(self), node_id, network, now, r@),
            Network::reconnect_count(*old(self), node_id, network) == 0 ==> *final(self) == *old(self)
                && *final(rng) == *old(rng),
    {
        let owners = self.connected_owners(node_id);
        let skip = self.keys_owned_by(&owners);
        let nets = NetworkSet::single(network);
        proof {
            assert(nets == (NetworkSet { onion: network == NetworkType::Onion, clearnet: network == NetworkType::Clearnet })) by {
                assert(nets.has(NetworkType::Onion) == (NetworkType::Onion == network));
                assert(nets.has(NetworkType::Clearnet) == (NetworkType::Clearnet == network));
            }
        }
        let list = self.eligible_addresses(node_id, nets, &skip);
        if list.len() == 0 {
            return Vec::new();
        }
        let ghost all = list@;
        let pick = choose_one(rng, list);
        match pick {
            Some(c) => {
                proof {
                    let j = choose|j: int| 0 <= j < all.len() && all[j] == c;
                    assert(self.registry.has(all[j]));
                    assert(nets.has(c.network));
                }
                let mut cands: Vec<AddressId> = Vec::new();
                cands.push(c);
                let events = self.connect_all(node_id, &cands, now);
                proof {
                    assert(send_target(events@[0]) == c);
                    assert(Network::timer_pair(*old(self), node_id, cands@[0], now, events@[1int + 2 * 0int], events@[1int + 2 * 0int + 1]));
                }
                events
            },
            None => Vec::new(),
        }
    }

    /// The network after `node_id` topped its outbound connections up towards `target`.
    pub open spec fn top_up_post(pre: Network, post: Network, node_id: NodeId, target: usize, now: u64, r: Seq<Event>) -> bool {
        &&& post.wf()
        &&& post.registry == pre.registry
        &&& post.next_node_id == pre.next_node_id
        &&& post.next_addr_id == pre.next_addr_id
        &&& post.nodes@.dom() == pre.nodes@.dom()
        &&& forall|j: NodeId| #[trigger] pre.nodes@.contains_key(j) ==> post.nodes@[j].same_identity(&pre.nodes@[j])
        &&& Network::batch_ok(pre, node_id, Network::nets_of(pre.nodes@[node_id].addresses@), Network::top_up_skip(pre, node_id), now, Network::top_up_count(pre, node_id, target), r)
        &&& Network::peers_linked(pre, post, node_id, Network::top_up_count(pre, node_id, target), r)
    }

    /// The addresses topping up leaves out: those `node_id` is already connected to.
    pub open spec fn top_up_skip(pre: Network, node_id: NodeId) -> Set<u128> {
        pre.nodes@[node_id].out_peers@.dom().union(pre.nodes@[node_id].in_peers@.dom())
    }

    /// How many connections topping up towards `target` opens: those missing, or as many
    /// as there are addresses to dial.
    pub open spec fn top_up_count(pre: Network, node_id: NodeId, target: usize) -> int {
        let node = pre.nodes@[node_id];
        let needed = if target > node.out_peers@.dom().len() {
            target - node.out_peers@.dom().len()
        } else {
            0
        };
        let c = pre.eligible_count(node_id, Network::nets_of(node.addresses@), Network::top_up_skip(pre, node_id));
        if needed < c {
            needed
        } else {
            c as int
        }
    }

    /// Top up a node's outbound connections to `target` if it currently has fewer.
    /// Excludes already-connected peers: every address the node has a connection to,
    /// either way.
    pub fn top_up_outbounds(&mut self, node_id: NodeId, target: usize, now: u64, rng: &mut StdRng) -> (r: Vec<Event>)
        requires
            old(self).wf(),
            old(self).nodes@.contains_key(node_id),
        ensures
            Network::top_up_post(*old(self), *final(self), node_id, target, now, r@),
            Network::top_up_count(*old(self), node_id, target) == 0 ==> *final(self) == *old(self)
                && *final(rng) == *old(rng),
    {
        let skip = match self.nodes.get(&node_id) {
            Some(n) => n.connected_keys(),
            None => HashSet::new(),
        };
        let (current, own) = match self.nodes.get(&node_id) {
            Some(n) => (n.out_peers.len(), copy_addrs(&n.addresses)),
            None => (0, Vec::new()),
        };
        let needed = target.saturating_sub(current);
        if needed == 0 {
            return Vec::new();
        }
        let nets = Network::networks_set(&own);
        proof {
            assert(nets.has(NetworkType::Onion) == networks_of(own@, NetworkType::Onion));
            assert(nets.has(NetworkType::Clearnet) == networks_of(own@, NetworkType::Clearnet));
            assert(nets == Network::nets_of(own@));
        }
        let list = self.eligible_addresses(node_id, nets, &skip);
        if list.len() == 0 {
            return Vec::new();
        }
        let cands = pick_some(
            rng,
            list,
            needed,
            Ghost(|a: AddressId| self.registry.has(a) && eligible(self.registry.record(a), node_id, nets, skip@)),
        );
        proof {
            assert forall|i: int| 0 <= i < cands.len() implies {
                &&& self.registry.has(#[trigger] cands@[i])
                &&& self.registry.record(cands@[i]).is_active
                &&& self.registry.record(cands@[i]).owner_node != node_id
                &&& self.nodes@[node_id].own_addr(cands@[i].network) is Some
            } by {
                let c = cands@[i];
                assert(nets.has(c.network));
                assert(networks_of(own@, c.network));
                let j = choose|j: int| 0 <= j < own@.len() && #[trigger] own@[j].network == c.network;
                assert(own@.contains(own@[j]));
                lemma_first_on_some(own@, own@[j]);
            }
        }
        let events = self.connect_all(node_id, &cands, now);
        proof {
            let m = cands@.len() as int;
            assert forall|i: int| 0 <= i < m implies send_target(#[trigger] events@[i]) == cands@[i]
                && Network::timer_pair(*old(self), node_id, cands@[i], now, events@[m + 2 * i], events@[m + 2 * i + 1]) by {}
            lemma_peers_linked(*old(self), *old(self), *self, node_id, cands@, events@);
        }
        events
    }

    /// The network after `node_id` left it, and the reconnections its peers ask for.
    pub open spec fn remove_post(pre: Network, post: Network, node_id: NodeId, now: u64, r: Seq<Event>) -> bool {
        &&& post.wf()
        &&& post.nodes@.dom() == pre.nodes@.dom().remove(node_id)
        &&& post.next_node_id == pre.next_node_id
        &&& post.next_addr_id == pre.next_addr_id
        &&& post.registry.addresses@.dom() == pre.registry.addresses@.dom()
        &&& forall|k: u128| #[trigger]
            post.registry.addresses@.contains_key(k) ==> post.registry.addresses@[k] == (
            if pre.registry.addresses_of(node_id).contains(pre.registry.addresses@[k].id) {
                Address { is_active: false, ..pre.registry.addresses@[k] }
            } else {
                pre.registry.addresses@[k]
            })
        &&& ({
            let d = pre.nodes@[node_id];
            &&& forall|p: AddressId|
                #[trigger] d.has_peer(p) && post.nodes@.contains_key(pre.registry.record(p).owner_node)
                    ==> !post.nodes@[pre.registry.record(p).owner_node].has_peer(d.own_addr(p.network)->0)
            &&& forall|i: int|
                0 <= i < r.len() ==> Network::lost_outbound(pre, node_id, now, #[trigger] r[i])
            &&& forall|p: AddressId|
                #[trigger] d.has_peer(p) && post.nodes@.contains_key(pre.registry.record(p).owner_node)
                    && pre.nodes@[pre.registry.record(p).owner_node].has_out(d.own_addr(p.network)->0)
                    ==> exists|i: int|
                    0 <= i < r.len() && r[i] == Network::reconnect_event(pre.registry.record(p).owner_node, p.network, now)
            &&& forall|j: NodeId|
                #[trigger] post.nodes@.contains_key(j) && !Network::peer_node_of(pre, node_id, j) ==> post.nodes@[j]
                    == pre.nodes@[j]
            &&& forall|j: NodeId, k: u128|
                #[trigger] post.nodes@.contains_key(j) && #[trigger] post.nodes@[j].out_peers@.contains_key(k)
                    ==> pre.nodes@[j].out_peers@.contains_key(k) && post.nodes@[j].out_peers@[k].addr == pre.nodes@[j].out_peers@[k].addr
            &&& forall|j: NodeId, k: u128|
                #[trigger] post.nodes@.contains_key(j) && #[trigger] post.nodes@[j].in_peers@.contains_key(k)
                    ==> pre.nodes@[j].in_peers@.contains_key(k) && post.nodes@[j].in_peers@[k].addr == pre.nodes@[j].in_peers@[k].addr
            &&& forall|j: NodeId, k: u128|
                #[trigger] post.nodes@.contains_key(j) && #[trigger] pre.nodes@[j].out_peers@.contains_key(k)
                    && !post.nodes@[j].out_peers@.contains_key(k) ==> pre.registry.record(pre.nodes@[j].out_peers@[k].addr).owner_node == node_id
            &&& forall|j: NodeId, k: u128|
                #[trigger] post.nodes@.contains_key(j) && #[trigger] pre.nodes@[j].in_peers@.contains_key(k)
                    && !post.nodes@[j].in_peers@.contains_key(k) ==> pre.registry.record(pre.nodes@[j].in_peers@[k].addr).owner_node == node_id
            &&& forall|j: NodeId| #[trigger] post.nodes@.contains_key(j) ==> post.nodes@[j].same_identity(&pre.nodes@[j])
            &&& forall|j: NodeId| #[trigger]
                post.nodes@.contains_key(j) ==> Node::closed_post(
                    pre.nodes@[j],
                    post.nodes@[j],
                    Network::cut_set(pre, node_id, j),
                    now,
                )
            &&& r.no_duplicates()
        })
    }

    /// The addresses of `node_id` through which node `j`, another node, was connected to
    /// it: `node_id`'s own address on the network of each of its peers that `j` owns.
    pub open spec fn cut_set(pre: Network, node_id: NodeId, j: NodeId) -> Set<AddressId> {
        Set::new(
            |a: AddressId|
                exists|p: AddressId|
                    #[trigger] pre.nodes@[node_id].has_peer(p) && pre.registry.record(p).owner_node == j
                        && j != node_id && a == pre.nodes@[node_id].own_addr(p.network)->0,
        )
    }

    /// The same as `cut_set`, over the first `i` addresses of `peers` only.
    spec fn cut_prefix(pre: Network, node_id: NodeId, peers: Seq<AddressId>, i: int, j: NodeId) -> Set<
        AddressId,
    > {
        Set::new(
            |a: AddressId|
                exists|q: int|
                    #![trigger peers[q]]
                    0 <= q < i && pre.registry.record(peers[q]).owner_node == j && j != node_id && a
                        == pre.nodes@[node_id].own_addr(peers[q].network)->0,
        )
    }

    proof fn lemma_cut_prefix_step(pre: Network, node_id: NodeId, peers: Seq<AddressId>, i: int, j: NodeId)
        requires
            0 <= i < peers.len(),
        ensures
            Network::cut_prefix(pre, node_id, peers, i + 1, j) == if pre.registry.record(peers[i]).owner_node
                == j && j != node_id {
                Network::cut_prefix(pre, node_id, peers, i, j).insert(
                    pre.nodes@[node_id].own_addr(peers[i].network)->0,
                )
            } else {
                Network::cut_prefix(pre, node_id, peers, i, j)
            },
    {
        let s0 = Network::cut_prefix(pre, node_id, peers, i, j);
        let s1 = Network::cut_prefix(pre, node_id, peers, i + 1, j);
        let x = pre.nodes@[node_id].own_addr(peers[i].network)->0;
        if pre.registry.record(peers[i]).owner_node == j && j != node_id {
            assert forall|a: AddressId| s1.contains(a) implies s0.insert(x).contains(a) by {
                let q = choose|q: int|
                    #![trigger peers[q]]
                    0 <= q < i + 1 && pre.registry.record(peers[q]).owner_node == j && j != node_id && a
                        == pre.nodes@[node_id].own_addr(peers[q].network)->0;
                if q < i {
                    assert(s0.contains(a));
                }
            }
            assert forall|a: AddressId| s0.insert(x).contains(a) implies s1.contains(a) by {
                if a == x {
                    assert(peers[i] == peers[i]);
                } else {
                    let q = choose|q: int|
                        #![trigger peers[q]]
                        0 <= q < i && pre.registry.record(peers[q]).owner_node == j && j != node_id && a
                            == pre.nodes@[node_id].own_addr(peers[q].network)->0;
                    assert(peers[q] == peers[q]);
                }
            }
            assert(s1 =~= s0.insert(x));
        } else {
            assert forall|a: AddressId| s1.contains(a) implies s0.contains(a) by {
                let q = choose|q: int|
                    #![trigger peers[q]]
                    0 <= q < i + 1 && pre.registry.record(peers[q]).owner_node == j && j != node_id && a
                        == pre.nodes@[node_id].own_addr(peers[q].network)->0;
                assert(q < i);
                assert(peers[q] == peers[q]);
            }
            assert forall|a: AddressId| s0.contains(a) implies s1.contains(a) by {
                let q = choose|q: int|
                    #![trigger peers[q]]
                    0 <= q < i && pre.registry.record(peers[q]).owner_node == j && j != node_id && a
                        == pre.nodes@[node_id].own_addr(peers[q].network)->0;
                assert(peers[q] == peers[q]);
            }
            assert(s1 =~= s0);
        }
    }

    proof fn lemma_cut_prefix_all(pre: Network, node_id: NodeId, peers: Seq<AddressId>, j: NodeId)
        requires
            forall|q: int| 0 <= q < peers.len() ==> pre.nodes@[node_id].has_peer(#[trigger] peers[q]),
            forall|p: AddressId| #[trigger] pre.nodes@[node_id].has_peer(p) ==> peers.contains(p),
        ensures
            Network::cut_prefix(pre, node_id, peers, peers.len() as int, j) == Network::cut_set(pre, node_id, j),
    {
        let s0 = Network::cut_prefix(pre, node_id, peers, peers.len() as int, j);
        let s1 = Network::cut_set(pre, node_id, j);
        assert forall|a: AddressId| s0.contains(a) implies s1.contains(a) by {
            let q = choose|q: int|
                #![trigger peers[q]]
                0 <= q < peers.len() && pre.registry.record(peers[q]).owner_node == j && j != node_id && a
                    == pre.nodes@[node_id].own_addr(peers[q].network)->0;
            assert(pre.nodes@[node_id].has_peer(peers[q]));
        }
        assert forall|a: AddressId| s1.contains(a) implies s0.contains(a) by {
            let p = choose|p: AddressId|
                #[trigger] pre.nodes@[node_id].has_peer(p) && pre.registry.record(p).owner_node == j
                    && j != node_id && a == pre.nodes@[node_id].own_addr(p.network)->0;
            assert(peers.contains(p));
            let q = choose|q: int| 0 <= q < peers.len() && peers[q] == p;
            assert(peers[q] == p);
        }
        assert(s0 =~= s1);
    }

    /// The event asking node `j` to replace an outbound peer on `n`.
    pub open spec fn reconnect_event(j: NodeId, n: NetworkType, now: u64) -> Event {
        Event::NodeReconnect { node_id: j, network: n, at: now }
    }

    /// `e` asks a node, other than `node_id`, that had `node_id`'s address on a network
    /// as an outbound peer to replace it.
    pub open spec fn lost_outbound(pre: Network, node_id: NodeId, now: u64, e: Event) -> bool {
        e matches Event::NodeReconnect { node_id: j, network: n, at } && at == now && j != node_id
            && pre.nodes@.contains_key(j) && pre.nodes@[j].has_out(pre.nodes@[node_id].own_addr(n)->0)
    }

    /// Node `j` owns an address `node_id` is connected to.
    pub open spec fn peer_node_of(pre: Network, node_id: NodeId, j: NodeId) -> bool {
        exists|p: AddressId| #[trigger] pre.nodes@[node_id].has_peer(p) && pre.registry.record(p).owner_node == j
    }

    /// Remove a node: mark its addresses inactive and tell each of its peers of the
    /// disconnect. Returns NodeReconnect events for any peer that lost an outbound
    /// connection.
    #[verifier::rlimit(80)]
    pub fn remove_node(&mut self, node_id: NodeId, now: u64) -> (r: Vec<Event>)
        requires
            old(self).wf(),
            old(self).nodes@.contains_key(node_id),
            old(self).registry.node_addresses@.contains_key(node_id),
        ensures
            Network::remove_post(*old(self), *final(self), node_id, now, r@),
    {
        let ghost pre = *self;
        self.registry.deactivate_node(node_id);
        proof {
            assert forall|k: u128| #[trigger] self.registry.addresses@.contains_key(k) implies self.record_ok(
                self.registry.addresses@[k],
            ) by {
                assert(pre.record_ok(pre.registry.addresses@[k]));
            }
            assert forall|n: NodeId| #[trigger] self.registry.node_addresses@.contains_key(n) implies self.list_ok(
                n,
            ) by {
                assert(pre.list_ok(n));
                assert forall|j: int|
                    0 <= j < self.registry.addresses_of(n).len() implies self.registry.has(
                        #[trigger] self.registry.addresses_of(n)[j],
                    ) && self.registry.record(self.registry.addresses_of(n)[j]).owner_node == n by {
                    assert(pre.registry.has(pre.registry.addresses_of(n)[j]));
                }
            }
            assert forall|id: NodeId| #[trigger] self.nodes@.contains_key(id) implies self.node_ok(id) by {
                assert(pre.node_ok(id));
            }
        }
        let peers = match self.nodes.get(&node_id) {
            Some(n) => n.connected_addrs(),
            None => Vec::new(),
        };
        let ghost departing_node = self.nodes@[node_id];
        let ghost reg1 = self.registry;
        proof {
            assert(pre.node_ok(node_id));
            assert forall|p: AddressId| #[trigger] reg1.has(p) implies reg1.record(p).owner_node
                == pre.registry.record(p).owner_node by {}
        }
        let mut events: Vec<Event> = Vec::new();
        let mut i: usize = 0;
        proof {
            assert forall|j: NodeId| #[trigger] self.nodes@.contains_key(j) && j != node_id implies Node::closed_post(
                pre.nodes@[j],
                self.nodes@[j],
                Network::cut_prefix(pre, node_id, peers@, 0, j),
                now,
            ) by {
                assert(pre.node_ok(j));
                lemma_closed_none(pre.nodes@[j], now);
                assert(Network::cut_prefix(pre, node_id, peers@, 0, j) =~= Set::empty());
            }
        }
        while i < peers.len()
            invariant
                self.wf(),
                pre.wf(),
                self.registry == reg1,
                forall|j: NodeId| #[trigger]
                    self.nodes@.contains_key(j) && j != node_id ==> Node::closed_post(
                        pre.nodes@[j],
                        self.nodes@[j],
                        Network::cut_prefix(pre, node_id, peers@, i as int, j),
                        now,
                    ),
                events@.no_duplicates(),
                forall|l: int|
                    0 <= l < events@.len() ==> (#[trigger] events@[l] matches Event::NodeReconnect {
                        node_id: j,
                        network: n,
                        ..
                    } ==> (self.nodes@.contains_key(j) ==> !self.nodes@[j].has_out(
                        departing_node.own_addr(n)->0,
                    ))),
                self.nodes@.dom() == pre.nodes@.dom(),
                self.nodes@.contains_key(node_id),
                self.nodes@[node_id].same_identity(&departing_node),
                departing_node == pre.nodes@[node_id],
                self.next_node_id == pre.next_node_id,
                self.next_addr_id == pre.next_addr_id,
                0 <= i <= peers.len(),
                forall|p: AddressId| #[trigger] reg1.has(p) ==> reg1.record(p).owner_node
                    == pre.registry.record(p).owner_node,
                forall|j: int|
                    0 <= j < peers.len() ==> self.registry.has(#[trigger] peers@[j]) && departing_node.own_addr(
                        peers@[j].network,
                    ) is Some && departing_node.has_peer(peers@[j]),
                forall|j: NodeId, k: u128|
                    #[trigger] self.nodes@.contains_key(j) && #[trigger] self.nodes@[j].out_peers@.contains_key(k)
                        ==> pre.nodes@[j].out_peers@.contains_key(k),
                forall|j: NodeId, k: u128|
                    #[trigger] self.nodes@.contains_key(j) && #[trigger] self.nodes@[j].in_peers@.contains_key(k)
                        ==> pre.nodes@[j].in_peers@.contains_key(k),
                forall|q: int|
                    0 <= q < i ==> {
                        let o = reg1.record(#[trigger] peers@[q]).owner_node;
                        o != node_id && self.nodes@.contains_key(o) ==> !self.nodes@[o].has_peer(
                            departing_node.own_addr(peers@[q].network)->0,
                        )
                    },
                forall|l: int| 0 <= l < events@.len() ==> Network::lost_outbound(pre, node_id, now, #[trigger] events@[l]),
                forall|j: NodeId, k: u128|
                    j != node_id && #[trigger] self.nodes@.contains_key(j) && #[trigger] pre.nodes@[j].out_peers@.contains_key(k)
                        && !self.nodes@[j].out_peers@.contains_key(k) ==> exists|l: int|
                        0 <= l < events@.len() && events@[l] == Network::reconnect_event(
                            j,
                            pre.nodes@[j].out_peers@[k].addr.network,
                            now,
                        ),
                forall|j: NodeId|
                    #[trigger] self.nodes@.contains_key(j) && !Network::peer_node_of(pre, node_id, j) ==> self.nodes@[j]
                        == pre.nodes@[j],
                forall|j: NodeId, k: u128|
                    #[trigger] self.nodes@.contains_key(j) && #[trigger] pre.nodes@[j].out_peers@.contains_key(k)
                        && !self.nodes@[j].out_peers@.contains_key(k) ==> pre.registry.record(pre.nodes@[j].out_peers@[k].addr).owner_node == node_id,
                forall|j: NodeId, k: u128|
                    #[trigger] self.nodes@.contains_key(j) && #[trigger] pre.nodes@[j].in_peers@.contains_key(k)
                        && !self.nodes@[j].in_peers@.contains_key(k) ==> pre.registry.record(pre.nodes@[j].in_peers@[k].addr).owner_node == node_id,
                forall|j: NodeId| #[trigger] self.nodes@.contains_key(j) ==> self.nodes@[j].same_identity(&pre.nodes@[j]),
            decreases peers.len() - i,
        {
            let peer_addr = peers[i];
            let peer_node_id = self.node_id_for_addr(peer_addr);
            let departing_addr = self.own_addr_of(node_id, peer_addr.network);
            let ghost before = *self;
            let ghost ev0 = events@;
            proof {
                assert(departing_node.own_addr(peer_addr.network) == Some(departing_addr));
                assert(departing_node.has_peer(peer_addr));
            }
            if peer_node_id != node_id && self.nodes.contains_key(&peer_node_id) {
                match self.nodes.remove(&peer_node_id) {
                    Some(n) => {
                        let mut n = n;
                        proof {
                            assert(before.node_ok(peer_node_id));
                        }
                        let mut e = n.on_disconnect(departing_addr, now);
                        proof {
                            let o = peer_node_id;
                            let kd = addr_key(departing_addr);
                            if before.nodes@[o].has_out(departing_addr) {
                                assert(pre.nodes@[o].out_peers@.contains_key(kd));
                                assert(Network::lost_outbound(pre, node_id, now, e@[0]));
                            }
                        }
                        let ghost new_events = e@;
                        events.append(&mut e);
                        self.nodes.insert(peer_node_id, n);
                        proof {
                            assert(self.nodes@ =~= before.nodes@.insert(peer_node_id, self.nodes@[peer_node_id]));
                            Network::lemma_disconnect_events(
                                before,
                                *self,
                                departing_node,
                                peer_node_id,
                                departing_addr,
                                now,
                                ev0,
                                new_events,
                            );
                        }
                    },
                    None => {
                        proof {
                            assert(false);
                        }
                    },
                }
                proof {
                    let o = peer_node_id;
                    assert(peer_addr == peers@[i as int]);
                    assert(reg1.has(peers@[i as int]));
                    assert forall|j: NodeId| #[trigger]
                        self.nodes@.contains_key(j) && j != node_id implies Node::closed_post(
                            pre.nodes@[j],
                            self.nodes@[j],
                            Network::cut_prefix(pre, node_id, peers@, i + 1, j),
                            now,
                        ) by {
                        Network::lemma_cut_prefix_step(pre, node_id, peers@, i as int, j);
                        if j == o {
                            lemma_closed_step(
                                pre.nodes@[o],
                                before.nodes@[o],
                                self.nodes@[o],
                                Network::cut_prefix(pre, node_id, peers@, i as int, o),
                                departing_addr,
                                now,
                            );
                        } else {
                            assert(self.nodes@[j] == before.nodes@[j]);
                        }
                    }
                }
                proof {
                    let o = peer_node_id;
                    let kd = addr_key(departing_addr);
                    assert(self.nodes@.dom() =~= before.nodes@.dom());
                    assert forall|id: NodeId| #[trigger] self.nodes@.contains_key(id) implies self.node_ok(
                        id,
                    ) by {
                        assert(before.node_ok(id));
                        if id == peer_node_id {
                            let nd = self.nodes@[id];
                            let nd0 = before.nodes@[id];
                            assert forall|k: u128| #[trigger] nd.out_peers@.contains_key(k) implies self.peer_ok(
                                nd,
                                nd.out_peers@[k].addr,
                            ) by {
                                assert(nd0.out_peers@.contains_key(k));
                            }
                            assert forall|k: u128| #[trigger] nd.in_peers@.contains_key(k) implies self.peer_ok(
                                nd,
                                nd.in_peers@[k].addr,
                            ) by {
                                assert(nd0.in_peers@.contains_key(k));
                            }
                        }
                    }
                    assert forall|j: NodeId, k: u128|
                        #[trigger] self.nodes@.contains_key(j) && #[trigger] self.nodes@[j].out_peers@.contains_key(k)
                            implies pre.nodes@[j].out_peers@.contains_key(k) by {
                        assert(before.nodes@[j].out_peers@.contains_key(k));
                    }
                    assert forall|j: NodeId, k: u128|
                        #[trigger] self.nodes@.contains_key(j) && #[trigger] self.nodes@[j].in_peers@.contains_key(k)
                            implies pre.nodes@[j].in_peers@.contains_key(k) by {
                        assert(before.nodes@[j].in_peers@.contains_key(k));
                    }
                    assert forall|q: int| 0 <= q < i + 1 implies {
                        let o2 = reg1.record(#[trigger] peers@[q]).owner_node;
                        o2 != node_id && self.nodes@.contains_key(o2) ==> !self.nodes@[o2].has_peer(
                            departing_node.own_addr(peers@[q].network)->0,
                        )
                    } by {
                        let o2 = reg1.record(peers@[q]).owner_node;
                        let d2 = departing_node.own_addr(peers@[q].network)->0;
                        if o2 != node_id && self.nodes@.contains_key(o2) && q < i {
                            assert(!before.nodes@[o2].has_peer(d2));
                            if o2 != o {
                                assert(self.nodes@[o2] == before.nodes@[o2]);
                            }
                        }
                    }
                    assert forall|l: int| 0 <= l < events@.len() implies Network::lost_outbound(
                        pre,
                        node_id,
                        now,
                        #[trigger] events@[l],
                    ) by {
                        if l < ev0.len() {
                            assert(events@[l] == ev0[l]);
                        }
                    }
                    assert forall|j: NodeId, k: u128|
                        j != node_id && #[trigger] self.nodes@.contains_key(j) && #[trigger] pre.nodes@[j].out_peers@.contains_key(k)
                            && !self.nodes@[j].out_peers@.contains_key(k) implies exists|l: int|
                            0 <= l < events@.len() && events@[l] == Network::reconnect_event(
                                j,
                                pre.nodes@[j].out_peers@[k].addr.network,
                                now,
                            ) by {
                        if j == o && k == kd && before.nodes@[o].out_peers@.contains_key(kd) {
                            assert(pre.wf());
                            assert(pre.node_ok(o));
                            assert(addr_key(pre.nodes@[o].out_peers@[k].addr) == k);
                            lemma_key_injective(pre.nodes@[o].out_peers@[k].addr, departing_addr);
                            assert(events@[ev0.len() as int] == Network::reconnect_event(o, departing_addr.network, now));
                        } else {
                            assert(!before.nodes@[j].out_peers@.contains_key(k)) by {
                                if j != o {
                                    assert(self.nodes@[j] == before.nodes@[j]);
                                }
                            }
                            let l = choose|l: int|
                                0 <= l < ev0.len() && ev0[l] == Network::reconnect_event(
                                    j,
                                    pre.nodes@[j].out_peers@[k].addr.network,
                                    now,
                                );
                            assert(events@[l] == ev0[l]);
                        }
                    }
                    assert forall|j: NodeId|
                        #[trigger] self.nodes@.contains_key(j) && !Network::peer_node_of(pre, node_id, j) implies self.nodes@[j]
                            == pre.nodes@[j] by {
                        if j == o {
                            assert(pre.nodes@[node_id].has_peer(peer_addr) && pre.registry.record(peer_addr).owner_node == j);
                        }
                    }
                    lemma_owns_own(pre, node_id, peer_addr.network);
                    assert forall|j: NodeId, k: u128|
                        #[trigger] self.nodes@.contains_key(j) && #[trigger] pre.nodes@[j].out_peers@.contains_key(k)
                            && !self.nodes@[j].out_peers@.contains_key(k) implies pre.registry.record(pre.nodes@[j].out_peers@[k].addr).owner_node == node_id by {
                        if before.nodes@[j].out_peers@.contains_key(k) {
                            assert(j == o && k == kd);
                            assert(pre.node_ok(o));
                            lemma_key_injective(pre.nodes@[o].out_peers@[k].addr, departing_addr);
                        }
                    }
                    assert forall|j: NodeId, k: u128|
                        #[trigger] self.nodes@.contains_key(j) && #[trigger] pre.nodes@[j].in_peers@.contains_key(k)
                            && !self.nodes@[j].in_peers@.contains_key(k) implies pre.registry.record(pre.nodes@[j].in_peers@[k].addr).owner_node == node_id by {
                        if before.nodes@[j].in_peers@.contains_key(k) {
                            assert(j == o && k == kd);
                            assert(pre.node_ok(o));
                            lemma_key_injective(pre.nodes@[o].in_peers@[k].addr, departing_addr);
                        }
                    }
                }
            } else {
                proof {
                    assert(peer_addr == peers@[i as int]);
                    assert(reg1.has(peers@[i as int]));
                    assert forall|j: NodeId| #[trigger]
                        self.nodes@.contains_key(j) && j != node_id implies Node::closed_post(
                            pre.nodes@[j],
                            self.nodes@[j],
                            Network::cut_prefix(pre, node_id, peers@, i + 1, j),
                            now,
                        ) by {
                        Network::lemma_cut_prefix_step(pre, node_id, peers@, i as int, j);
                    }
                    assert forall|q: int| 0 <= q < i + 1 implies {
                        let o2 = reg1.record(#[trigger] peers@[q]).owner_node;
                        o2 != node_id && self.nodes@.contains_key(o2) ==> !self.nodes@[o2].has_peer(
                            departing_node.own_addr(peers@[q].network)->0,
                        )
                    } by {}
                }
            }
            i = i + 1;
        }
        let ghost last = *self;
        self.nodes.remove(&node_id);
        proof {
            assert(self.nodes@.dom() =~= pre.nodes@.dom().remove(node_id));
            assert forall|k: u128| #[trigger] self.registry.addresses@.contains_key(k) implies self.record_ok(
                self.registry.addresses@[k],
            ) by {
                let rec = self.registry.addresses@[k];
                assert(reg1.addresses@.contains_key(k));
                assert(pre.registry.addresses@.contains_key(k));
                assert(pre.record_ok(pre.registry.addresses@[k]));
            }
            let d = pre.nodes@[node_id];
            assert forall|p: AddressId|
                #[trigger] d.has_peer(p) && self.nodes@.contains_key(pre.registry.record(p).owner_node)
                    implies !self.nodes@[pre.registry.record(p).owner_node].has_peer(d.own_addr(p.network)->0) by {
                let q = choose|q: int| 0 <= q < peers@.len() && peers@[q] == p;
                assert(reg1.has(peers@[q]));
            }
            assert forall|p: AddressId|
                #[trigger] d.has_peer(p) && self.nodes@.contains_key(pre.registry.record(p).owner_node)
                    && pre.nodes@[pre.registry.record(p).owner_node].has_out(d.own_addr(p.network)->0)
                    implies exists|l: int|
                    0 <= l < events@.len() && events@[l] == Network::reconnect_event(
                        pre.registry.record(p).owner_node,
                        p.network,
                        now,
                    ) by {
                let q = choose|q: int| 0 <= q < peers@.len() && peers@[q] == p;
                assert(reg1.has(peers@[q]));
                let o = pre.registry.record(p).owner_node;
                let dd = d.own_addr(p.network)->0;
                let k = addr_key(dd);
                assert(last.nodes@.contains_key(o));
                assert(!last.nodes@[o].has_peer(dd));
                assert(pre.node_ok(o));
                lemma_key_injective(pre.nodes@[o].out_peers@[k].addr, dd);
                lemma_first_on_contains(d.addresses@, p.network);
            }
            assert forall|j: NodeId, k: u128|
                #[trigger] self.nodes@.contains_key(j) && #[trigger] self.nodes@[j].out_peers@.contains_key(k)
                    implies pre.nodes@[j].out_peers@.contains_key(k) && self.nodes@[j].out_peers@[k].addr == pre.nodes@[j].out_peers@[k].addr by {
                assert(last.nodes@.contains_key(j));
                assert(self.node_ok(j));
                assert(pre.node_ok(j));
                lemma_key_injective(self.nodes@[j].out_peers@[k].addr, pre.nodes@[j].out_peers@[k].addr);
            }
            assert forall|j: NodeId, k: u128|
                #[trigger] self.nodes@.contains_key(j) && #[trigger] self.nodes@[j].in_peers@.contains_key(k)
                    implies pre.nodes@[j].in_peers@.contains_key(k) && self.nodes@[j].in_peers@[k].addr == pre.nodes@[j].in_peers@[k].addr by {
                assert(last.nodes@.contains_key(j));
                assert(self.node_ok(j));
                assert(pre.node_ok(j));
                lemma_key_injective(self.nodes@[j].in_peers@[k].addr, pre.nodes@[j].in_peers@[k].addr);
            }
            assert forall|j: NodeId| #[trigger] self.nodes@.contains_key(j) implies Node::closed_post(
                pre.nodes@[j],
                self.nodes@[j],
                Network::cut_set(pre, node_id, j),
                now,
            ) by {
                assert(last.nodes@.contains_key(j));
                Network::lemma_cut_prefix_all(pre, node_id, peers@, j);
            }
        }
        events
    }

    /// What closing one connection of node `o` does to the reconnection events gathered
    /// so far: no event repeats, and no node still has as outbound peer the address an
    /// event of it asks to replace.
    proof fn lemma_disconnect_events(
        before: Network,
        after: Network,
        d: Node,
        o: NodeId,
        a: AddressId,
        now: u64,
        ev0: Seq<Event>,
        new_events: Seq<Event>,
    )
        requires
            before.nodes@.contains_key(o),
            after.nodes@ == before.nodes@.insert(o, after.nodes@[o]),
            Node::disconnect_post(before.nodes@[o], after.nodes@[o], a, now),
            d.own_addr(a.network) == Some(a),
            new_events.len() == if before.nodes@[o].has_out(a) {
                1int
            } else {
                0int
            },
            before.nodes@[o].has_out(a) ==> new_events[0] == (Event::NodeReconnect {
                node_id: before.nodes@[o].node_id,
                network: a.network,
                at: now,
            }),
            before.nodes@[o].node_id == o,
            ev0.no_duplicates(),
            forall|l: int|
                0 <= l < ev0.len() ==> (#[trigger] ev0[l] matches Event::NodeReconnect { node_id: j, network: n, .. }
                    ==> (before.nodes@.contains_key(j) ==> !before.nodes@[j].has_out(d.own_addr(n)->0))),
        ensures
            (ev0 + new_events).no_duplicates(),
            forall|l: int|
                0 <= l < (ev0 + new_events).len() ==> (#[trigger] (ev0 + new_events)[l] matches Event::NodeReconnect {
                    node_id: j,
                    network: n,
                    ..
                } ==> (after.nodes@.contains_key(j) ==> !after.nodes@[j].has_out(d.own_addr(n)->0))),
    {
        let all = ev0 + new_events;
        assert forall|l: int| 0 <= l < ev0.len() implies all[l] != Event::NodeReconnect {
            node_id: o,
            network: a.network,
            at: now,
        } || !before.nodes@[o].has_out(a) by {
            assert(all[l] == ev0[l]);
        }
        assert forall|x: int, y: int| 0 <= x < all.len() && 0 <= y < all.len() && x != y implies all[x]
            != all[y] by {
            if x < ev0.len() && y < ev0.len() {
                assert(all[x] == ev0[x]);
                assert(all[y] == ev0[y]);
            } else if x < ev0.len() {
                assert(all[x] == ev0[x]);
            } else if y < ev0.len() {
                assert(all[y] == ev0[y]);
            }
        }
        assert forall|j: NodeId, x: AddressId|
            after.nodes@.contains_key(j) && #[trigger] after.nodes@[j].has_out(x) implies before.nodes@[j].has_out(x) by {
            if j != o {
                assert(after.nodes@[j] == before.nodes@[j]);
            }
        }
        assert forall|l: int| 0 <= l < all.len() implies (#[trigger] all[l] matches Event::NodeReconnect {
            node_id: j,
            network: n,
            ..
        } ==> (after.nodes@.contains_key(j) ==> !after.nodes@[j].has_out(d.own_addr(n)->0))) by {
            if l < ev0.len() {
                assert(all[l] == ev0[l]);
            }
        }
    }

    /// The set of networks of a list of addresses.
    pub open spec fn nets_of(s: Seq<AddressId>) -> NetworkSet {
        NetworkSet { onion: networks_of(s, NetworkType::Onion), clearnet: networks_of(s, NetworkType::Clearnet) }
    }
}

/// A node that keeps its identity and its set of connections can be put back in place
/// of the old one: whatever else changed in it, the network's invariant still holds.
pub proof fn lemma_replace_node(pre: Network, post: Network, id: NodeId)
    requires
        pre.wf(),
        pre.nodes@.contains_key(id),
        post.registry == pre.registry,
        post.next_node_id == pre.next_node_id,
        post.next_addr_id == pre.next_addr_id,
        post.nodes@ == pre.nodes@.insert(id, post.nodes@[id]),
        post.nodes@[id].wf(),
        post.nodes@[id].same_identity(&pre.nodes@[id]),
        post.nodes@[id].out_peers@.dom() == pre.nodes@[id].out_peers@.dom(),
        post.nodes@[id].in_peers@.dom() == pre.nodes@[id].in_peers@.dom(),
    ensures
        post.wf(),
{
    assert(post.nodes@.dom() =~= pre.nodes@.dom());
    assert forall|k: u128| #[trigger] post.registry.addresses@.contains_key(k) implies post.record_ok(
        post.registry.addresses@[k],
    ) by {
        assert(pre.record_ok(pre.registry.addresses@[k]));
    }
    assert forall|n: NodeId| #[trigger] post.registry.node_addresses@.contains_key(n) implies post.list_ok(n) by {
        assert(pre.list_ok(n));
    }
    assert forall|j: NodeId| #[trigger] post.nodes@.contains_key(j) implies post.node_ok(j) by {
        assert(pre.node_ok(j));
        if j == id {
            let nd = post.nodes@[j];
            let nd0 = pre.nodes@[j];
            assert forall|k: u128| #[trigger] nd.out_peers@.contains_key(k) implies post.peer_ok(
                nd,
                nd.out_peers@[k].addr,
            ) by {
                assert(nd0.out_peers@.contains_key(k));
                lemma_key_injective(nd.out_peers@[k].addr, nd0.out_peers@[k].addr);
            }
            assert forall|k: u128| #[trigger] nd.in_peers@.contains_key(k) implies post.peer_ok(
                nd,
                nd.in_peers@[k].addr,
            ) by {
                assert(nd0.in_peers@.contains_key(k));
                lemma_key_injective(nd.in_peers@[k].addr, nd0.in_peers@[k].addr);
            }
        }
    }
}

/// The target of a message; meaningless for other events.
/// Every node has at most one address per network.
pub open spec fn single_homed(net: Network) -> bool {
    forall|j: NodeId, p: int, q: int|
        #![trigger net.nodes@[j].addresses@[p], net.nodes@[j].addresses@[q]]
        net.nodes@.contains_key(j) && 0 <= p < net.nodes@[j].addresses@.len() && 0 <= q
            < net.nodes@[j].addresses@.len() && p != q ==> net.nodes@[j].addresses@[p].network
            != net.nodes@[j].addresses@[q].network
}

/// Connections are known at both ends: for every outbound peer the owner of the dialed
/// address is in the network and has the dialer's address on that network inbound; for
/// every inbound peer the owner of the dialing address has ours on that network outbound.
pub open spec fn symmetric(net: Network) -> bool {
    &&& out_linked(net)
    &&& in_linked(net)
}

/// For every outbound peer the owner of the dialed address is in the network and has
/// the dialer's address on that network inbound.
pub open spec fn out_linked(net: Network) -> bool {
    forall|j: NodeId, k: u128|
        #[trigger] net.nodes@.contains_key(j) && #[trigger] net.nodes@[j].out_peers@.contains_key(k) ==> {
            let t = net.nodes@[j].out_peers@[k].addr;
            let o = net.registry.record(t).owner_node;
            &&& net.nodes@.contains_key(o)
            &&& net.nodes@[o].in_peers@.contains_key(addr_key(net.nodes@[j].own_addr(t.network)->0))
        }
}

/// For every inbound peer the owner of the dialing address is in the network and has
/// our address on that network outbound.
pub open spec fn in_linked(net: Network) -> bool {
    forall|j: NodeId, k: u128|
        #[trigger] net.nodes@.contains_key(j) && #[trigger] net.nodes@[j].in_peers@.contains_key(k) ==> {
            let t = net.nodes@[j].in_peers@[k].addr;
            let o = net.registry.record(t).owner_node;
            &&& net.nodes@.contains_key(o)
            &&& net.nodes@[o].out_peers@.contains_key(addr_key(net.nodes@[j].own_addr(t.network)->0))
        }
}

/// On a list with one address per network, an address is the list's own on its network.
proof fn lemma_own_unique(s: Seq<AddressId>, t: AddressId)
    requires
        s.contains(t),
        forall|p: int, q: int| 0 <= p < s.len() && 0 <= q < s.len() && p != q ==> #[trigger] s[p].network != #[trigger] s[q].network,
    ensures
        first_on(s, t.network) == Some(t),
{
    lemma_first_on_some(s, t);
    let f = first_on(s, t.network)->0;
    let p = choose|p: int| 0 <= p < s.len() && s[p] == f;
    let q = choose|q: int| 0 <= q < s.len() && s[q] == t;
    if p != q {
        assert(s[p].network != s[q].network);
    }
}

/// A node of a well-formed network owns its own addresses.
proof fn lemma_owns_own(net: Network, j: NodeId, n: NetworkType)
    requires
        net.wf(),
        net.nodes@.contains_key(j),
        net.nodes@[j].own_addr(n) is Some,
    ensures
        net.registry.has(net.nodes@[j].own_addr(n)->0),
        net.registry.record(net.nodes@[j].own_addr(n)->0).owner_node == j,
        net.nodes@[j].addresses@.contains(net.nodes@[j].own_addr(n)->0),
{
    assert(net.node_ok(j));
    let s = net.nodes@[j].addresses@;
    lemma_first_on_contains(s, n);
    let a = net.nodes@[j].own_addr(n)->0;
    let i = choose|i: int| 0 <= i < s.len() && s[i] == a;
    assert(net.registry.addresses_of(j)[i] == a);
    assert(net.registry.node_addresses@.contains_key(j) || net.registry.addresses_of(j).len() == 0);
    assert(net.list_ok(j));
}

/// An address of a well-formed network belongs to a node that lists it.
proof fn lemma_owner_lists(net: Network, t: AddressId)
    requires
        net.wf(),
        net.registry.has(t),
        net.nodes@.contains_key(net.registry.record(t).owner_node),
    ensures
        net.nodes@[net.registry.record(t).owner_node].addresses@.contains(t),
{
    let rec = net.registry.record(t);
    assert(net.registry.addresses@.contains_key(addr_key(t)));
    assert(net.record_ok(rec));
    lemma_key_injective(rec.id, t);
    assert(net.node_ok(rec.owner_node));
}

/// Joining keeps every outbound connection known at the dialed end.
proof fn lemma_out_linked_kept_on_join(
    pre: Network,
    post: Network,
    networks: Seq<NetworkType>,
    reachable_on: NetworkSet,
    n_outbound: usize,
    cache_algo: GetaddrCacheAlgorithm,
    now: u64,
    id: NodeId,
    r: Seq<Event>,
)
    requires
        pre.wf(),
        Network::add_post(pre, post, networks, reachable_on, n_outbound, cache_algo, now, id, r),
        out_linked(pre),
    ensures
        out_linked(post),
{
    let node = post.nodes@[id];
    let nets = Network::nets_of(node.addresses@);
    let c = post.eligible_count(id, nets, Set::empty());
    let m = if n_outbound < c {
        n_outbound as int
    } else {
        c as int
    };
    assert(!pre.nodes@.contains_key(id)) by {
        if pre.nodes@.contains_key(id) {
            assert(pre.node_ok(id));
        }
    }
    assert forall|j: NodeId, k: u128|
        #[trigger] post.nodes@.contains_key(j) && #[trigger] post.nodes@[j].out_peers@.contains_key(k) implies {
            let t = post.nodes@[j].out_peers@[k].addr;
            let o = post.registry.record(t).owner_node;
            &&& post.nodes@.contains_key(o)
            &&& post.nodes@[o].in_peers@.contains_key(addr_key(post.nodes@[j].own_addr(t.network)->0))
        } by {
        let t = post.nodes@[j].out_peers@[k].addr;
        assert(post.node_ok(j));
        assert(addr_key(t) == k);
        assert(post.registry.has(t));
        let rec = post.registry.record(t);
        assert(post.registry.addresses@.contains_key(addr_key(t)));
        if j == id {
            let q = choose|q: int| 0 <= q < m && k == addr_key(send_target(#[trigger] r[q]));
            lemma_key_injective(t, send_target(r[q]));
            assert(post.record_ok(rec));
        } else {
            assert(pre.nodes@[j].out_peers@.contains_key(k));
            assert(pre.node_ok(j));
            let t0 = pre.nodes@[j].out_peers@[k].addr;
            lemma_key_injective(t, t0);
            assert(post.nodes@[j].same_identity(&pre.nodes@[j]));
            assert(pre.registry.addresses@.contains_key(addr_key(t0)));
            let o = pre.registry.record(t0).owner_node;
            assert(pre.nodes@[o].in_peers@.contains_key(addr_key(pre.nodes@[j].own_addr(t0.network)->0)));
        }
    }
}

/// Joining keeps connections known at both ends, on a network whose nodes have one
/// address per network.
pub proof fn lemma_symmetry_kept_on_join(
    pre: Network,
    post: Network,
    networks: Seq<NetworkType>,
    reachable_on: NetworkSet,
    n_outbound: usize,
    cache_algo: GetaddrCacheAlgorithm,
    now: u64,
    id: NodeId,
    r: Seq<Event>,
)
    requires
        pre.wf(),
        Network::add_post(pre, post, networks, reachable_on, n_outbound, cache_algo, now, id, r),
        symmetric(pre),
        single_homed(pre),
    ensures
        symmetric(post),
{
    let node = post.nodes@[id];
    let nets = Network::nets_of(node.addresses@);
    let c = post.eligible_count(id, nets, Set::empty());
    let m = if n_outbound < c {
        n_outbound as int
    } else {
        c as int
    };
    assert(!pre.nodes@.contains_key(id)) by {
        if pre.nodes@.contains_key(id) {
            assert(pre.node_ok(id));
        }
    }
    lemma_out_linked_kept_on_join(pre, post, networks, reachable_on, n_outbound, cache_algo, now, id, r);
    assert forall|j: NodeId, k: u128|
        #[trigger] post.nodes@.contains_key(j) && #[trigger] post.nodes@[j].in_peers@.contains_key(k) implies {
            let t = post.nodes@[j].in_peers@[k].addr;
            let o = post.registry.record(t).owner_node;
            &&& post.nodes@.contains_key(o)
            &&& post.nodes@[o].out_peers@.contains_key(addr_key(post.nodes@[j].own_addr(t.network)->0))
        } by {
        let t = post.nodes@[j].in_peers@[k].addr;
        assert(post.node_ok(j));
        assert(addr_key(t) == k);
        if j == id {
            assert(false);
        } else if pre.nodes@[j].in_peers@.contains_key(k) {
            assert(pre.node_ok(j));
            let t0 = pre.nodes@[j].in_peers@[k].addr;
            lemma_key_injective(t, t0);
            assert(post.nodes@[j].same_identity(&pre.nodes@[j]));
            assert(pre.registry.addresses@.contains_key(addr_key(t0)));
            let o = pre.registry.record(t0).owner_node;
            assert(pre.nodes@.contains_key(o));
            assert(pre.nodes@[o].out_peers@.contains_key(addr_key(pre.nodes@[j].own_addr(t0.network)->0)));
            if o != id {
                assert(post.nodes@[o].out_peers@.contains_key(addr_key(pre.nodes@[j].own_addr(t0.network)->0)));
            }
        } else {
            let q = choose|q: int|
                0 <= q < m && post.registry.record(send_target(#[trigger] r[q])).owner_node == j && k == addr_key(
                    post.nodes@[id].own_addr(send_target(r[q]).network)->0,
                );
            let tq = send_target(r[q]);
            let own = post.nodes@[id].own_addr(tq.network)->0;
            assert(is_getaddr(r[q], post.nodes@[id].own_addr(tq.network)->0, tq, now));
            assert(eligible(post.registry.record(tq), id, nets, Set::empty()));
            assert(post.registry.addresses@.contains_key(addr_key(tq)));
            lemma_key_injective(post.registry.record(tq).id, tq);
            assert(nets.has(tq.network));
            assert(networks_of(node.addresses@, tq.network));
            let w = choose|w: int| 0 <= w < node.addresses@.len() && #[trigger] node.addresses@[w].network == tq.network;
            assert(node.addresses@.contains(node.addresses@[w]));
            lemma_first_on_some(node.addresses@, node.addresses@[w]);
            lemma_key_injective(t, own);
            lemma_owns_own(post, id, tq.network);
            lemma_first_on_contains(post.nodes@[id].addresses@, tq.network);
            assert(post.nodes@[id].out_peers@.contains_key(addr_key(tq)));
            lemma_owner_lists(post, tq);
            assert(post.nodes@[j].same_identity(&pre.nodes@[j]));
            assert forall|p: int, q2: int|
                0 <= p < post.nodes@[j].addresses@.len() && 0 <= q2 < post.nodes@[j].addresses@.len() && p != q2 implies
                #[trigger] post.nodes@[j].addresses@[p].network != #[trigger] post.nodes@[j].addresses@[q2].network by {
                assert(pre.nodes@[j].addresses@[p] == post.nodes@[j].addresses@[p]);
                assert(pre.nodes@[j].addresses@[q2] == post.nodes@[j].addresses@[q2]);
            }
            lemma_own_unique(post.nodes@[j].addresses@, tq);
        }
    }
}

/// New outbound connections of a node already in the network keep every outbound
/// connection known at the dialed end.
proof fn lemma_out_linked_linked(
    pre: Network,
    post: Network,
    id: NodeId,
    nets: NetworkSet,
    skip: Set<u128>,
    now: u64,
    m: int,
    r: Seq<Event>,
)
    requires
        pre.wf(),
        post.wf(),
        out_linked(pre),
        post.registry == pre.registry,
        post.nodes@.dom() == pre.nodes@.dom(),
        pre.nodes@.contains_key(id),
        forall|j: NodeId| #[trigger] pre.nodes@.contains_key(j) ==> post.nodes@[j].same_identity(&pre.nodes@[j]),
        Network::batch_ok(pre, id, nets, skip, now, m, r),
        Network::peers_linked(pre, post, id, m, r),
    ensures
        out_linked(post),
{
    assert forall|j: NodeId, k: u128|
        #[trigger] post.nodes@.contains_key(j) && #[trigger] post.nodes@[j].out_peers@.contains_key(k) implies {
            let t = post.nodes@[j].out_peers@[k].addr;
            let o = post.registry.record(t).owner_node;
            &&& post.nodes@.contains_key(o)
            &&& post.nodes@[o].in_peers@.contains_key(addr_key(post.nodes@[j].own_addr(t.network)->0))
        } by {
        let t = post.nodes@[j].out_peers@[k].addr;
        assert(post.node_ok(j));
        assert(addr_key(t) == k);
        assert(post.registry.has(t));
        let rec = post.registry.record(t);
        assert(post.registry.addresses@.contains_key(addr_key(t)));
        assert(post.nodes@[j].same_identity(&pre.nodes@[j]));
        if pre.nodes@[j].out_peers@.contains_key(k) {
            assert(pre.node_ok(j));
            let t0 = pre.nodes@[j].out_peers@[k].addr;
            lemma_key_injective(t, t0);
            let o = pre.registry.record(t0).owner_node;
            assert(pre.nodes@[o].in_peers@.contains_key(addr_key(pre.nodes@[j].own_addr(t0.network)->0)));
        } else {
            assert(j == id);
            let q = choose|q: int| 0 <= q < m && k == addr_key(send_target(#[trigger] r[q]));
            lemma_key_injective(t, send_target(r[q]));
            assert(post.record_ok(rec));
        }
    }
}

/// New outbound connections of a node already in the network keep connections known
/// at both ends, on a network whose nodes have one address per network.
proof fn lemma_symmetry_linked(
    pre: Network,
    post: Network,
    id: NodeId,
    nets: NetworkSet,
    skip: Set<u128>,
    now: u64,
    m: int,
    r: Seq<Event>,
)
    requires
        pre.wf(),
        post.wf(),
        symmetric(pre),
        single_homed(pre),
        post.registry == pre.registry,
        post.nodes@.dom() == pre.nodes@.dom(),
        pre.nodes@.contains_key(id),
        forall|j: NodeId| #[trigger] pre.nodes@.contains_key(j) ==> post.nodes@[j].same_identity(&pre.nodes@[j]),
        Network::batch_ok(pre, id, nets, skip, now, m, r),
        Network::peers_linked(pre, post, id, m, r),
        forall|q: int| 0 <= q < m ==> pre.nodes@[id].own_addr(send_target(#[trigger] r[q]).network) is Some,
    ensures
        symmetric(post),
{
    lemma_out_linked_linked(pre, post, id, nets, skip, now, m, r);
    assert forall|j: NodeId, k: u128|
        #[trigger] post.nodes@.contains_key(j) && #[trigger] post.nodes@[j].in_peers@.contains_key(k) implies {
            let t = post.nodes@[j].in_peers@[k].addr;
            let o = post.registry.record(t).owner_node;
            &&& post.nodes@.contains_key(o)
            &&& post.nodes@[o].out_peers@.contains_key(addr_key(post.nodes@[j].own_addr(t.network)->0))
        } by {
        let t = post.nodes@[j].in_peers@[k].addr;
        assert(post.node_ok(j));
        assert(addr_key(t) == k);
        assert(post.nodes@[j].same_identity(&pre.nodes@[j]));
        if pre.nodes@[j].in_peers@.contains_key(k) {
            assert(pre.node_ok(j));
            let t0 = pre.nodes@[j].in_peers@[k].addr;
            lemma_key_injective(t, t0);
            assert(pre.registry.addresses@.contains_key(addr_key(t0)));
            let o = pre.registry.record(t0).owner_node;
            assert(pre.nodes@.contains_key(o));
            assert(pre.nodes@[o].out_peers@.contains_key(addr_key(pre.nodes@[j].own_addr(t0.network)->0)));
            assert(post.nodes@[o].out_peers@.contains_key(addr_key(pre.nodes@[j].own_addr(t0.network)->0)));
            assert(post.nodes@.contains_key(o));
            assert(post.nodes@[j].own_addr(t.network) == pre.nodes@[j].own_addr(t0.network));
        } else {
            let q = choose|q: int|
                0 <= q < m && post.registry.record(send_target(#[trigger] r[q])).owner_node == j && k == addr_key(
                    post.nodes@[id].own_addr(send_target(r[q]).network)->0,
                );
            let tq = send_target(r[q]);
            let own = post.nodes@[id].own_addr(tq.network)->0;
            assert(post.nodes@[id].same_identity(&pre.nodes@[id]));
            lemma_key_injective(t, own);
            lemma_owns_own(post, id, tq.network);
            lemma_first_on_contains(post.nodes@[id].addresses@, tq.network);
            assert(post.nodes@[id].out_peers@.contains_key(addr_key(tq)));
            assert(post.registry.has(tq));
            lemma_owner_lists(post, tq);
            assert forall|p: int, q2: int|
                0 <= p < post.nodes@[j].addresses@.len() && 0 <= q2 < post.nodes@[j].addresses@.len() && p != q2 implies
                #[trigger] post.nodes@[j].addresses@[p].network != #[trigger] post.nodes@[j].addresses@[q2].network by {
                assert(pre.nodes@[j].addresses@[p] == post.nodes@[j].addresses@[p]);
                assert(pre.nodes@[j].addresses@[q2] == post.nodes@[j].addresses@[q2]);
            }
            lemma_own_unique(post.nodes@[j].addresses@, tq);
            assert(post.registry.record(t).owner_node == id);
            assert(post.nodes@[j].own_addr(t.network) == Some(tq));
            assert(post.nodes@.contains_key(id));
        }
    }
}

/// Looking for a new outbound peer keeps connections known at both ends, on a network
/// whose nodes have one address per network.
pub proof fn lemma_symmetry_kept_on_reconnect(pre: Network, post: Network, node_id: NodeId, network: NetworkType, now: u64, r: Seq<Event>)
    requires
        pre.wf(),
        pre.nodes@.contains_key(node_id),
        pre.nodes@[node_id].own_addr(network) is Some,
        Network::reconnect_post(pre, post, node_id, network, now, r),
        symmetric(pre),
        single_homed(pre),
    ensures
        symmetric(post),
{
    let skip = pre.owned_keys(pre.peer_owners(node_id));
    let nets = NetworkSet { onion: network == NetworkType::Onion, clearnet: network == NetworkType::Clearnet };
    let m = if pre.eligible_count(node_id, nets, skip) == 0 {
        0int
    } else {
        1int
    };
    assert forall|q: int| 0 <= q < m implies pre.nodes@[node_id].own_addr(send_target(#[trigger] r[q]).network) is Some by {
        let t = send_target(r[q]);
        assert(eligible(pre.registry.record(t), node_id, nets, skip));
        assert(pre.registry.addresses@.contains_key(addr_key(t)));
        lemma_key_injective(pre.registry.record(t).id, t);
        assert(t.network == network);
    }
    lemma_symmetry_linked(pre, post, node_id, nets, skip, now, m, r);
}

/// Topping up outbound connections keeps connections known at both ends, on a network
/// whose nodes have one address per network.
pub proof fn lemma_symmetry_kept_on_top_up(pre: Network, post: Network, node_id: NodeId, target: usize, now: u64, r: Seq<Event>)
    requires
        pre.wf(),
        pre.nodes@.contains_key(node_id),
        Network::top_up_post(pre, post, node_id, target, now, r),
        symmetric(pre),
        single_homed(pre),
    ensures
        symmetric(post),
{
    let node = pre.nodes@[node_id];
    let skip = node.out_peers@.dom().union(node.in_peers@.dom());
    let nets = Network::nets_of(node.addresses@);
    let needed = if target > node.out_peers@.dom().len() {
        target - node.out_peers@.dom().len()
    } else {
        0
    };
    let c = pre.eligible_count(node_id, nets, skip);
    let m = if needed < c {
        needed
    } else {
        c as int
    };
    assert forall|q: int| 0 <= q < m implies pre.nodes@[node_id].own_addr(send_target(#[trigger] r[q]).network) is Some by {
        let t = send_target(r[q]);
        assert(eligible(pre.registry.record(t), node_id, nets, skip));
        assert(pre.registry.addresses@.contains_key(addr_key(t)));
        lemma_key_injective(pre.registry.record(t).id, t);
        assert(networks_of(node.addresses@, t.network));
        let w = choose|w: int| 0 <= w < node.addresses@.len() && #[trigger] node.addresses@[w].network == t.network;
        assert(node.addresses@.contains(node.addresses@[w]));
        lemma_first_on_some(node.addresses@, node.addresses@[w]);
    }
    lemma_symmetry_linked(pre, post, node_id, nets, skip, now, m, r);
}

/// A departure keeps every outbound connection known at the dialed end, on a network
/// whose nodes have one address per network: nobody still dials the departed node.
proof fn lemma_out_linked_kept_on_leave(pre: Network, post: Network, node_id: NodeId, now: u64, r: Seq<Event>)
    requires
        pre.wf(),
        pre.nodes@.contains_key(node_id),
        Network::remove_post(pre, post, node_id, now, r),
        out_linked(pre),
        single_homed(pre),
    ensures
        out_linked(post),
        forall|j: NodeId, k: u128|
            #[trigger] post.nodes@.contains_key(j) && #[trigger] post.nodes@[j].out_peers@.contains_key(k)
                ==> post.registry.record(post.nodes@[j].out_peers@[k].addr).owner_node != node_id,
{
    let d = pre.nodes@[node_id];
    assert forall|p: int, q: int|
        0 <= p < d.addresses@.len() && 0 <= q < d.addresses@.len() && p != q implies #[trigger] d.addresses@[p].network
        != #[trigger] d.addresses@[q].network by {}
    assert forall|j: NodeId, k: u128|
        #[trigger] post.nodes@.contains_key(j) && #[trigger] post.nodes@[j].out_peers@.contains_key(k) implies {
            let t = post.nodes@[j].out_peers@[k].addr;
            let o = post.registry.record(t).owner_node;
            &&& post.nodes@.contains_key(o)
            &&& post.nodes@[o].in_peers@.contains_key(addr_key(post.nodes@[j].own_addr(t.network)->0))
            &&& o != node_id
        } by {
        let t = post.nodes@[j].out_peers@[k].addr;
        assert(pre.nodes@[j].out_peers@.contains_key(k));
        assert(pre.node_ok(j));
        assert(post.nodes@[j].same_identity(&pre.nodes@[j]));
        assert(pre.registry.addresses@.contains_key(addr_key(t)));
        let o = pre.registry.record(t).owner_node;
        assert(post.registry.addresses@[addr_key(t)].owner_node == o);
        let own = pre.nodes@[j].own_addr(t.network)->0;
        assert(pre.nodes@.contains_key(o));
        assert(pre.nodes@[o].in_peers@.contains_key(addr_key(own)));
        lemma_owns_own(pre, j, t.network);
        lemma_first_on_contains(pre.nodes@[j].addresses@, t.network);
        if o == node_id {
            assert(d.has_peer(own)) by {
                assert(pre.node_ok(node_id));
                assert(addr_key(d.in_peers@[addr_key(own)].addr) == addr_key(own));
                lemma_key_injective(d.in_peers@[addr_key(own)].addr, own);
            }
            assert(post.nodes@.contains_key(pre.registry.record(own).owner_node));
            assert(!post.nodes@[j].has_peer(d.own_addr(own.network)->0));
            lemma_owner_lists(pre, t);
            lemma_own_unique(d.addresses@, t);
            assert(post.nodes@[j].has_out(t));
        }
        assert(post.nodes@.contains_key(o));
        if !post.nodes@[o].in_peers@.contains_key(addr_key(own)) {
            assert(pre.node_ok(o));
            lemma_key_injective(pre.nodes@[o].in_peers@[addr_key(own)].addr, own);
        }
    }
}

/// A departure keeps connections known at both ends, on a network whose nodes have one
/// address per network: nobody is left connected to the departed node.
pub proof fn lemma_symmetry_kept_on_leave(pre: Network, post: Network, node_id: NodeId, now: u64, r: Seq<Event>)
    requires
        pre.wf(),
        pre.nodes@.contains_key(node_id),
        Network::remove_post(pre, post, node_id, now, r),
        symmetric(pre),
        single_homed(pre),
    ensures
        symmetric(post),
        forall|j: NodeId, k: u128|
            #[trigger] post.nodes@.contains_key(j) && #[trigger] post.nodes@[j].out_peers@.contains_key(k)
                ==> post.registry.record(post.nodes@[j].out_peers@[k].addr).owner_node != node_id,
{
    let d = pre.nodes@[node_id];
    assert forall|p: int, q: int|
        0 <= p < d.addresses@.len() && 0 <= q < d.addresses@.len() && p != q implies #[trigger] d.addresses@[p].network
        != #[trigger] d.addresses@[q].network by {}
    lemma_out_linked_kept_on_leave(pre, post, node_id, now, r);
    assert forall|j: NodeId, k: u128|
        #[trigger] post.nodes@.contains_key(j) && #[trigger] post.nodes@[j].in_peers@.contains_key(k) implies {
            let t = post.nodes@[j].in_peers@[k].addr;
            let o = post.registry.record(t).owner_node;
            &&& post.nodes@.contains_key(o)
            &&& post.nodes@[o].out_peers@.contains_key(addr_key(post.nodes@[j].own_addr(t.network)->0))
        } by {
        let t = post.nodes@[j].in_peers@[k].addr;
        assert(pre.nodes@[j].in_peers@.contains_key(k));
        assert(pre.node_ok(j));
        assert(post.nodes@[j].same_identity(&pre.nodes@[j]));
        assert(pre.registry.addresses@.contains_key(addr_key(t)));
        let o = pre.registry.record(t).owner_node;
        assert(post.registry.addresses@[addr_key(t)].owner_node == o);
        let own = pre.nodes@[j].own_addr(t.network)->0;
        assert(pre.nodes@.contains_key(o));
        assert(pre.nodes@[o].out_peers@.contains_key(addr_key(own)));
        lemma_owns_own(pre, j, t.network);
        lemma_first_on_contains(pre.nodes@[j].addresses@, t.network);
        if o == node_id {
            assert(d.has_peer(own)) by {
                assert(pre.node_ok(node_id));
                lemma_key_injective(d.out_peers@[addr_key(own)].addr, own);
            }
            assert(post.nodes@.contains_key(pre.registry.record(own).owner_node));
            assert(!post.nodes@[j].has_peer(d.own_addr(own.network)->0));
            lemma_owner_lists(pre, t);
            lemma_own_unique(d.addresses@, t);
            assert(post.nodes@[j].has_in(t));
        }
        assert(post.nodes@.contains_key(o));
        if !post.nodes@[o].out_peers@.contains_key(addr_key(own)) {
            assert(pre.node_ok(o));
            lemma_key_injective(pre.nodes@[o].out_peers@[addr_key(own)].addr, own);
        }
    }
}

/// Changes that keep every node, its identity and its sets of connections keep the
/// connections known at both ends, and one address per network.
pub(crate) proof fn lemma_symmetry_kept_by_same_links(pre: Network, post: Network)
    requires
        pre.wf(),
        post.wf(),
        post.registry == pre.registry,
        post.nodes@.dom() == pre.nodes@.dom(),
        forall|j: NodeId| #[trigger] pre.nodes@.contains_key(j) ==> {
            &&& post.nodes@[j].same_identity(&pre.nodes@[j])
            &&& post.nodes@[j].out_peers@.dom() == pre.nodes@[j].out_peers@.dom()
            &&& post.nodes@[j].in_peers@.dom() == pre.nodes@[j].in_peers@.dom()
        },
        symmetric(pre),
        single_homed(pre),
    ensures
        symmetric(post),
        single_homed(post),
        out_live(pre) ==> out_live(post),
{
    if out_live(pre) {
        assert forall|j: NodeId, k: u128|
            #[trigger] post.nodes@.contains_key(j) && #[trigger] post.nodes@[j].out_peers@.contains_key(k) implies {
                let rec = post.registry.record(post.nodes@[j].out_peers@[k].addr);
                rec.is_active && rec.owner_node != j
            } by {
            assert(pre.nodes@[j].out_peers@.contains_key(k));
            assert(pre.node_ok(j));
            assert(post.node_ok(j));
            lemma_key_injective(post.nodes@[j].out_peers@[k].addr, pre.nodes@[j].out_peers@[k].addr);
        }
    }
    assert forall|j: NodeId, k: u128|
        #[trigger] post.nodes@.contains_key(j) && #[trigger] post.nodes@[j].out_peers@.contains_key(k) implies {
            let t = post.nodes@[j].out_peers@[k].addr;
            let o = post.registry.record(t).owner_node;
            &&& post.nodes@.contains_key(o)
            &&& post.nodes@[o].in_peers@.contains_key(addr_key(post.nodes@[j].own_addr(t.network)->0))
        } by {
        assert(pre.nodes@[j].out_peers@.contains_key(k));
        assert(pre.node_ok(j));
        assert(post.node_ok(j));
        lemma_key_injective(post.nodes@[j].out_peers@[k].addr, pre.nodes@[j].out_peers@[k].addr);
        let t = pre.nodes@[j].out_peers@[k].addr;
        let o = pre.registry.record(t).owner_node;
        assert(pre.nodes@[o].in_peers@.contains_key(addr_key(pre.nodes@[j].own_addr(t.network)->0)));
    }
    assert forall|j: NodeId, k: u128|
        #[trigger] post.nodes@.contains_key(j) && #[trigger] post.nodes@[j].in_peers@.contains_key(k) implies {
            let t = post.nodes@[j].in_peers@[k].addr;
            let o = post.registry.record(t).owner_node;
            &&& post.nodes@.contains_key(o)
            &&& post.nodes@[o].out_peers@.contains_key(addr_key(post.nodes@[j].own_addr(t.network)->0))
        } by {
        assert(pre.nodes@[j].in_peers@.contains_key(k));
        assert(pre.node_ok(j));
        assert(post.node_ok(j));
        lemma_key_injective(post.nodes@[j].in_peers@[k].addr, pre.nodes@[j].in_peers@[k].addr);
        let t = pre.nodes@[j].in_peers@[k].addr;
        let o = pre.registry.record(t).owner_node;
        assert(pre.nodes@[o].out_peers@.contains_key(addr_key(pre.nodes@[j].own_addr(t.network)->0)));
    }
    assert forall|j: NodeId, p: int, q: int|
        #![trigger post.nodes@[j].addresses@[p], post.nodes@[j].addresses@[q]]
        post.nodes@.contains_key(j) && 0 <= p < post.nodes@[j].addresses@.len() && 0 <= q
            < post.nodes@[j].addresses@.len() && p != q implies post.nodes@[j].addresses@[p].network
            != post.nodes@[j].addresses@[q].network by {
        assert(pre.nodes@[j].addresses@[p] == post.nodes@[j].addresses@[p]);
        assert(pre.nodes@[j].addresses@[q] == post.nodes@[j].addresses@[q]);
    }
}

/// A join never moves an address to another owner: every address registered before
/// keeps its owner, and every address registered by the join, the new node's own
/// among them, belongs to the new node.
pub proof fn lemma_owners_kept_on_join(
    pre: Network,
    post: Network,
    networks: Seq<NetworkType>,
    reachable_on: NetworkSet,
    n_outbound: usize,
    cache_algo: GetaddrCacheAlgorithm,
    now: u64,
    id: NodeId,
    r: Seq<Event>,
)
    requires
        Network::add_post(pre, post, networks, reachable_on, n_outbound, cache_algo, now, id, r),
    ensures
        forall|k: u128| #[trigger]
            pre.registry.addresses@.contains_key(k) ==> post.registry.addresses@[k].owner_node
                == pre.registry.addresses@[k].owner_node,
        forall|k: u128| #[trigger]
            post.registry.addresses@.contains_key(k) && !pre.registry.addresses@.contains_key(k)
                ==> post.registry.addresses@[k].owner_node == id,
        forall|i: int|
            0 <= i < post.nodes@[id].addresses@.len() ==> post.registry.record(
                #[trigger] post.nodes@[id].addresses@[i],
            ).owner_node == id,
{
}

/// A departure never moves an address to another owner: the departed node's addresses
/// stay registered under it, inactive, and every other address keeps its owner.
pub proof fn lemma_owners_kept_on_leave(pre: Network, post: Network, node_id: NodeId, now: u64, r: Seq<Event>)
    requires
        pre.wf(),
        pre.nodes@.contains_key(node_id),
        Network::remove_post(pre, post, node_id, now, r),
    ensures
        post.registry.addresses@.dom() == pre.registry.addresses@.dom(),
        forall|k: u128| #[trigger]
            pre.registry.addresses@.contains_key(k) ==> post.registry.addresses@[k].owner_node
                == pre.registry.addresses@[k].owner_node,
        forall|i: int|
            0 <= i < pre.nodes@[node_id].addresses@.len() ==> post.registry.has(
                #[trigger] pre.nodes@[node_id].addresses@[i],
            ) && post.registry.record(pre.nodes@[node_id].addresses@[i]).owner_node == node_id
                && !post.registry.record(pre.nodes@[node_id].addresses@[i]).is_active,
{
    assert(pre.node_ok(node_id));
    assert forall|i: int| 0 <= i < pre.nodes@[node_id].addresses@.len() implies post.registry.has(
        #[trigger] pre.nodes@[node_id].addresses@[i],
    ) && post.registry.record(pre.nodes@[node_id].addresses@[i]).owner_node == node_id
        && !post.registry.record(pre.nodes@[node_id].addresses@[i]).is_active by {
        let a = pre.nodes@[node_id].addresses@[i];
        assert(pre.list_ok(node_id)) by {
            assert(pre.registry.node_addresses@.contains_key(node_id) || pre.registry.addresses_of(node_id).len() == 0);
        }
        assert(pre.registry.addresses_of(node_id)[i] == a);
        assert(pre.registry.has(a));
        let k = addr_key(a);
        assert(pre.registry.addresses@.contains_key(k));
        assert(pre.registry.addresses@[k].id == a);
        assert(pre.registry.addresses_of(node_id).contains(a));
    }
}

/// Topping up counts outbound peers only: when the node has fewer outbound peers than
/// `target`, it opens as many new outbound connections as are missing, or as many as
/// there are addresses to dial when fewer, whatever its inbound peers; otherwise none.
/// Each connection sends one GETADDR and sets two timers.
pub proof fn lemma_top_up_counts_outbound_only(
    pre: Network,
    post: Network,
    node_id: NodeId,
    target: usize,
    now: u64,
    r: Seq<Event>,
)
    requires
        pre.wf(),
        pre.nodes@.contains_key(node_id),
        Network::top_up_post(pre, post, node_id, target, now, r),
    ensures
        ({
            let out0 = pre.nodes@[node_id].out_peers@.dom().len() as int;
            let c = pre.eligible_count(
                node_id,
                Network::nets_of(pre.nodes@[node_id].addresses@),
                Network::top_up_skip(pre, node_id),
            ) as int;
            let opened = if target <= out0 {
                0
            } else if target - out0 < c {
                target - out0
            } else {
                c
            };
            &&& post.nodes@[node_id].out_peers@.dom().len() == out0 + opened
            &&& r.len() == 3 * opened
        }),
{
    let node = pre.nodes@[node_id];
    let skip = Network::top_up_skip(pre, node_id);
    let nets = Network::nets_of(node.addresses@);
    let m = Network::top_up_count(pre, node_id, target);
    let ks = Seq::new(m as nat, |i: int| addr_key(send_target(r[i])));
    assert forall|x: int, y: int| 0 <= x < ks.len() && 0 <= y < ks.len() && x != y implies ks[x] != ks[y] by {
        assert(send_target(r[x]) != send_target(r[y]));
        lemma_key_injective(send_target(r[x]), send_target(r[y]));
    }
    assert(ks.no_duplicates());
    ks.unique_seq_to_set();
    let a = node.out_peers@.dom();
    let b = ks.to_set();
    assert(a.disjoint(b)) by {
        assert forall|k: u128| a.contains(k) implies !b.contains(k) by {
            if b.contains(k) {
                let i = choose|i: int| 0 <= i < ks.len() && ks[i] == k;
                let t = send_target(r[i]);
                assert(eligible(pre.registry.record(t), node_id, nets, skip));
                assert(pre.registry.addresses@.contains_key(addr_key(t)));
                assert(addr_key(pre.registry.record(t).id) == addr_key(t));
                assert(skip.contains(k));
            }
        }
    }
    assert(post.nodes@[node_id].out_peers@.dom() =~= a + b) by {
        assert forall|k: u128| post.nodes@[node_id].out_peers@.dom().contains(k) <==> (a + b).contains(k) by {
            if exists|i: int| 0 <= i < m && k == addr_key(send_target(#[trigger] r[i])) {
                let i = choose|i: int| 0 <= i < m && k == addr_key(send_target(#[trigger] r[i]));
                assert(ks[i] == k);
            }
            if b.contains(k) {
                let i = choose|i: int| 0 <= i < ks.len() && ks[i] == k;
                assert(k == addr_key(send_target(r[i])));
            }
        }
    }
    vstd::set_lib::lemma_set_disjoint_lens(a, b);
}

/// Looking for a new outbound peer opens exactly one connection when some address can be
/// dialed and none otherwise: one GETADDR and two timers, to an address of `network`.
pub proof fn lemma_reconnect_opens_one(
    pre: Network,
    post: Network,
    node_id: NodeId,
    network: NetworkType,
    now: u64,
    r: Seq<Event>,
)
    requires
        Network::reconnect_post(pre, post, node_id, network, now, r),
    ensures
        ({
            let c = pre.eligible_count(node_id, NetworkSet::on(network), Network::reconnect_skip(pre, node_id));
            &&& c == 0 ==> r.len() == 0
            &&& c > 0 ==> r.len() == 3 && send_target(r[0]).network == network
        }),
{
    let c = pre.eligible_count(node_id, NetworkSet::on(network), Network::reconnect_skip(pre, node_id));
    if c > 0 {
        let t = send_target(r[0]);
        assert(eligible(pre.registry.record(t), node_id, NetworkSet::on(network), Network::reconnect_skip(pre, node_id)));
        assert(pre.registry.has(t));
    }
}

/// A node's own addresses answer to it, as `node_id_for_addr` reads them, from its join
/// on, and still after it has left: its addresses stay registered under it.
pub proof fn lemma_node_ids_across_join_and_leave(
    pre: Network,
    mid: Network,
    post: Network,
    networks: Seq<NetworkType>,
    reachable_on: NetworkSet,
    n_outbound: usize,
    cache_algo: GetaddrCacheAlgorithm,
    joined_at: u64,
    id: NodeId,
    r1: Seq<Event>,
    left_at: u64,
    r2: Seq<Event>,
)
    requires
        Network::add_post(pre, mid, networks, reachable_on, n_outbound, cache_algo, joined_at, id, r1),
        Network::remove_post(mid, post, id, left_at, r2),
    ensures
        forall|i: int|
            0 <= i < networks.len() ==> {
                let a = #[trigger] mid.nodes@[id].addresses@[i];
                &&& mid.registry.has(a)
                &&& mid.registry.record(a).owner_node == id
                &&& post.registry.has(a)
                &&& post.registry.record(a).owner_node == id
            },
{
    lemma_owners_kept_on_join(pre, mid, networks, reachable_on, n_outbound, cache_algo, joined_at, id, r1);
    assert(mid.nodes@.contains_key(id));
    lemma_owners_kept_on_leave(mid, post, id, left_at, r2);
}

/// Each dialed address is still active and belongs to another node than the dialer.
pub open spec fn out_live(net: Network) -> bool {
    forall|j: NodeId, k: u128|
        #[trigger] net.nodes@.contains_key(j) && #[trigger] net.nodes@[j].out_peers@.contains_key(k) ==> {
            let rec = net.registry.record(net.nodes@[j].out_peers@[k].addr);
            rec.is_active && rec.owner_node != j
        }
}

/// Every outbound link is live: connections are known at both ends, and each dialed
/// address is still active and belongs to another node than the dialer.
pub open spec fn links_live(net: Network) -> bool {
    &&& symmetric(net)
    &&& out_live(net)
}

/// Opening connections to eligible addresses keeps every dialed address live.
proof fn lemma_out_live_linked(
    pre: Network,
    post: Network,
    net_b: Network,
    id: NodeId,
    nets: NetworkSet,
    skip: Set<u128>,
    now: u64,
    m: int,
    r: Seq<Event>,
)
    requires
        pre.wf(),
        out_live(pre),
        Network::batch_ok(net_b, id, nets, skip, now, m, r),
        Network::peers_linked(pre, post, id, m, r),
        net_b.registry == post.registry,
        post.nodes@.dom() == pre.nodes@.dom().insert(id),
        forall|k: u128| #[trigger]
            pre.registry.addresses@.contains_key(k) ==> post.registry.addresses@.contains_key(k)
                && post.registry.addresses@[k] == pre.registry.addresses@[k],
        forall|i: int|
            0 <= i < m ==> !(pre.nodes@.contains_key(id) && pre.nodes@[id].out_peers@.contains_key(
                addr_key(send_target(#[trigger] r[i])),
            )),
    ensures
        out_live(post),
{
    assert forall|j: NodeId, k: u128|
        #[trigger] post.nodes@.contains_key(j) && #[trigger] post.nodes@[j].out_peers@.contains_key(k) implies {
            let rec = post.registry.record(post.nodes@[j].out_peers@[k].addr);
            rec.is_active && rec.owner_node != j
        } by {
        let dialed = exists|i: int| 0 <= i < m && k == addr_key(send_target(#[trigger] r[i]));
        if j == id && dialed {
            let i = choose|i: int| 0 <= i < m && k == addr_key(send_target(#[trigger] r[i]));
            let t = send_target(r[i]);
            assert(post.nodes@[id].out_peers@[k].is_fresh(t, true));
            assert(eligible(net_b.registry.record(t), id, nets, skip));
        } else {
            assert(pre.nodes@.contains_key(j) && pre.nodes@[j].out_peers@.contains_key(k));
            assert(post.nodes@[j].out_peers@[k] == pre.nodes@[j].out_peers@[k]);
            assert(pre.node_ok(j));
            assert(pre.registry.has(pre.nodes@[j].out_peers@[k].addr));
        }
    }
}

/// The plain peer-link invariant: for every outbound peer, the dialed address is
/// active and belongs to another node, which is in the network and has the dialer's
/// address on that network inbound.
pub open spec fn peer_links_ok(net: Network) -> bool {
    &&& out_linked(net)
    &&& out_live(net)
}

/// Joining keeps the peer-link invariant.
pub proof fn lemma_peer_links_kept_on_join(
    pre: Network,
    post: Network,
    networks: Seq<NetworkType>,
    reachable_on: NetworkSet,
    n_outbound: usize,
    cache_algo: GetaddrCacheAlgorithm,
    now: u64,
    id: NodeId,
    r: Seq<Event>,
)
    requires
        pre.wf(),
        Network::add_post(pre, post, networks, reachable_on, n_outbound, cache_algo, now, id, r),
        peer_links_ok(pre),
    ensures
        peer_links_ok(post),
{
    lemma_out_linked_kept_on_join(pre, post, networks, reachable_on, n_outbound, cache_algo, now, id, r);
    let node = post.nodes@[id];
    let nets = Network::nets_of(node.addresses@);
    let c = post.eligible_count(id, nets, Set::empty());
    let m = if n_outbound < c {
        n_outbound as int
    } else {
        c as int
    };
    assert(!pre.nodes@.contains_key(id)) by {
        if pre.nodes@.contains_key(id) {
            assert(pre.node_ok(id));
        }
    }
    lemma_out_live_linked(pre, post, post, id, nets, Set::empty(), now, m, r);
}

/// Looking for a new outbound peer keeps the peer-link invariant.
pub proof fn lemma_peer_links_kept_on_reconnect(
    pre: Network,
    post: Network,
    node_id: NodeId,
    network: NetworkType,
    now: u64,
    r: Seq<Event>,
)
    requires
        pre.wf(),
        pre.nodes@.contains_key(node_id),
        Network::reconnect_post(pre, post, node_id, network, now, r),
        peer_links_ok(pre),
    ensures
        peer_links_ok(post),
{
    let skip = Network::reconnect_skip(pre, node_id);
    let m = Network::reconnect_count(pre, node_id, network);
    lemma_out_linked_linked(pre, post, node_id, NetworkSet::on(network), skip, now, m, r);
    assert(pre.nodes@.dom().insert(node_id) =~= post.nodes@.dom());
    assert forall|i: int| 0 <= i < m implies !(pre.nodes@.contains_key(node_id) && pre.nodes@[node_id].out_peers@.contains_key(
        addr_key(send_target(#[trigger] r[i])),
    )) by {
        let t = send_target(r[i]);
        let k = addr_key(t);
        if pre.nodes@[node_id].out_peers@.contains_key(k) {
            let a = pre.nodes@[node_id].out_peers@[k].addr;
            assert(pre.node_ok(node_id));
            lemma_key_injective(a, t);
            assert(pre.nodes@[node_id].has_peer(a));
            assert(pre.peer_owners(node_id).contains(pre.registry.record(a).owner_node));
            assert(pre.registry.addresses@.contains_key(k));
            assert(skip.contains(k));
        }
    }
    lemma_out_live_linked(pre, post, pre, node_id, NetworkSet::on(network), skip, now, m, r);
}

/// Topping up outbound connections keeps the peer-link invariant.
pub proof fn lemma_peer_links_kept_on_top_up(
    pre: Network,
    post: Network,
    node_id: NodeId,
    target: usize,
    now: u64,
    r: Seq<Event>,
)
    requires
        pre.wf(),
        pre.nodes@.contains_key(node_id),
        Network::top_up_post(pre, post, node_id, target, now, r),
        peer_links_ok(pre),
    ensures
        peer_links_ok(post),
{
    let skip = Network::top_up_skip(pre, node_id);
    let m = Network::top_up_count(pre, node_id, target);
    let nets = Network::nets_of(pre.nodes@[node_id].addresses@);
    lemma_out_linked_linked(pre, post, node_id, nets, skip, now, m, r);
    assert(pre.nodes@.dom().insert(node_id) =~= post.nodes@.dom());
    assert forall|i: int| 0 <= i < m implies !(pre.nodes@.contains_key(node_id) && pre.nodes@[node_id].out_peers@.contains_key(
        addr_key(send_target(#[trigger] r[i])),
    )) by {
        assert(!skip.contains(addr_key(send_target(r[i]))));
    }
    lemma_out_live_linked(pre, post, pre, node_id, nets, skip, now, m, r);
}

/// A departure keeps the peer-link invariant, on a network whose nodes have one address
/// per network: no remaining link points at an address of the departed node.
pub proof fn lemma_peer_links_kept_on_leave(pre: Network, post: Network, node_id: NodeId, now: u64, r: Seq<Event>)
    requires
        pre.wf(),
        pre.nodes@.contains_key(node_id),
        Network::remove_post(pre, post, node_id, now, r),
        peer_links_ok(pre),
        single_homed(pre),
    ensures
        peer_links_ok(post),
{
    lemma_out_linked_kept_on_leave(pre, post, node_id, now, r);
    assert forall|j: NodeId, k: u128|
        #[trigger] post.nodes@.contains_key(j) && #[trigger] post.nodes@[j].out_peers@.contains_key(k) implies {
            let rec = post.registry.record(post.nodes@[j].out_peers@[k].addr);
            rec.is_active && rec.owner_node != j
        } by {
        let t = post.nodes@[j].out_peers@[k].addr;
        assert(pre.nodes@[j].out_peers@.contains_key(k));
        assert(t == pre.nodes@[j].out_peers@[k].addr);
        assert(pre.node_ok(j));
        let kt = addr_key(t);
        assert(pre.registry.addresses@.contains_key(kt));
        let rec = pre.registry.addresses@[kt];
        assert(post.registry.addresses@.contains_key(kt));
        if pre.registry.addresses_of(node_id).contains(rec.id) {
            let i = choose|i: int|
                0 <= i < pre.registry.addresses_of(node_id).len() && pre.registry.addresses_of(node_id)[i] == rec.id;
            assert(pre.registry.node_addresses@.contains_key(node_id));
            assert(pre.list_ok(node_id));
            assert(pre.registry.record(pre.registry.addresses_of(node_id)[i]).owner_node == node_id);
            assert(addr_key(rec.id) == kt);
        }
    }
}

/// Joining keeps every outbound link live, on a network whose nodes have one address
/// per network.
pub proof fn lemma_links_live_kept_on_join(
    pre: Network,
    post: Network,
    networks: Seq<NetworkType>,
    reachable_on: NetworkSet,
    n_outbound: usize,
    cache_algo: GetaddrCacheAlgorithm,
    now: u64,
    id: NodeId,
    r: Seq<Event>,
)
    requires
        pre.wf(),
        Network::add_post(pre, post, networks, reachable_on, n_outbound, cache_algo, now, id, r),
        links_live(pre),
        single_homed(pre),
    ensures
        links_live(post),
{
    lemma_symmetry_kept_on_join(pre, post, networks, reachable_on, n_outbound, cache_algo, now, id, r);
    lemma_peer_links_kept_on_join(pre, post, networks, reachable_on, n_outbound, cache_algo, now, id, r);
}

/// Looking for a new outbound peer keeps every outbound link live, on a network whose
/// nodes have one address per network.
pub proof fn lemma_links_live_kept_on_reconnect(
    pre: Network,
    post: Network,
    node_id: NodeId,
    network: NetworkType,
    now: u64,
    r: Seq<Event>,
)
    requires
        pre.wf(),
        pre.nodes@.contains_key(node_id),
        pre.nodes@[node_id].own_addr(network) is Some,
        Network::reconnect_post(pre, post, node_id, network, now, r),
        links_live(pre),
        single_homed(pre),
    ensures
        links_live(post),
{
    lemma_symmetry_kept_on_reconnect(pre, post, node_id, network, now, r);
    lemma_peer_links_kept_on_reconnect(pre, post, node_id, network, now, r);
}

/// Topping up outbound connections keeps every outbound link live, on a network whose
/// nodes have one address per network.
pub proof fn lemma_links_live_kept_on_top_up(
    pre: Network,
    post: Network,
    node_id: NodeId,
    target: usize,
    now: u64,
    r: Seq<Event>,
)
    requires
        pre.wf(),
        pre.nodes@.contains_key(node_id),
        Network::top_up_post(pre, post, node_id, target, now, r),
        links_live(pre),
        single_homed(pre),
    ensures
        links_live(post),
{
    lemma_symmetry_kept_on_top_up(pre, post, node_id, target, now, r);
    lemma_peer_links_kept_on_top_up(pre, post, node_id, target, now, r);
}

/// A departure keeps every outbound link live, on a network whose nodes have one
/// address per network: no remaining link points at an address of the departed node.
pub proof fn lemma_links_live_kept_on_leave(pre: Network, post: Network, node_id: NodeId, now: u64, r: Seq<Event>)
    requires
        pre.wf(),
        pre.nodes@.contains_key(node_id),
        Network::remove_post(pre, post, node_id, now, r),
        links_live(pre),
        single_homed(pre),
    ensures
        links_live(post),
{
    lemma_symmetry_kept_on_leave(pre, post, node_id, now, r);
    lemma_peer_links_kept_on_leave(pre, post, node_id, now, r);
}

/// What `linked` says of the candidates, said of the GETADDRs sent to them.
proof fn lemma_peers_linked(pre: Network, mid: Network, post: Network, id: NodeId, cands: Seq<AddressId>, r: Seq<Event>)
    requires
        Network::linked(mid, post, id, cands),
        forall|i: int| 0 <= i < cands.len() ==> send_target(#[trigger] r[i]) == cands[i],
        cands.len() <= r.len(),
        post.registry == mid.registry,
        mid.nodes@.contains_key(id),
        post.nodes@[id].addresses == mid.nodes@[id].addresses,
        forall|j: NodeId| #[trigger] pre.nodes@.contains_key(j) ==> mid.nodes@.contains_key(j),
        forall|j: NodeId| j != id && #[trigger] pre.nodes@.contains_key(j) ==> mid.nodes@[j] == pre.nodes@[j],
        pre.nodes@.contains_key(id) ==> mid.nodes@[id] == pre.nodes@[id],
        !pre.nodes@.contains_key(id) ==> mid.nodes@[id].out_peers@ == Map::<u128, crate::node::Peer>::empty(),
        !pre.nodes@.contains_key(id) ==> mid.nodes@[id].in_peers@ == Map::<u128, crate::node::Peer>::empty(),
    ensures
        Network::peers_linked(pre, post, id, cands.len() as int, r),
{
    let m = cands.len() as int;
    assert forall|k: u128|
        #[trigger] post.nodes@[id].out_peers@.contains_key(k) <==> (pre.nodes@.contains_key(id)
            && pre.nodes@[id].out_peers@.contains_key(k)) || exists|i: int|
            0 <= i < m && k == addr_key(send_target(#[trigger] r[i])) by {
        if exists|j: int| 0 <= j < cands.len() && k == addr_key(#[trigger] cands[j]) {
            let j = choose|j: int| 0 <= j < cands.len() && k == addr_key(#[trigger] cands[j]);
            assert(send_target(r[j]) == cands[j]);
        }
        if exists|i: int| 0 <= i < m && k == addr_key(send_target(#[trigger] r[i])) {
            let i = choose|i: int| 0 <= i < m && k == addr_key(send_target(#[trigger] r[i]));
            assert(send_target(r[i]) == cands[i]);
        }
    }
    assert forall|j: NodeId, k: u128|
        j != id && #[trigger] pre.nodes@.contains_key(j) implies (#[trigger] post.nodes@[j].out_peers@.contains_key(k)
            <==> pre.nodes@[j].out_peers@.contains_key(k)) by {
        assert(mid.nodes@.contains_key(j));
    }
    assert forall|j: NodeId, k: u128|
        #[trigger] pre.nodes@.contains_key(j) && #[trigger] pre.nodes@[j].in_peers@.contains_key(k)
            implies post.nodes@[j].in_peers@.contains_key(k) by {
        assert(mid.nodes@.contains_key(j));
        assert(mid.nodes@[j].in_peers@.contains_key(k));
    }
    assert forall|i: int|
        0 <= i < m implies post.nodes@[post.registry.record(send_target(#[trigger] r[i])).owner_node].in_peers@.contains_key(
            addr_key(post.nodes@[id].own_addr(send_target(r[i]).network)->0),
        ) by {
        assert(send_target(r[i]) == cands[i]);
    }
    assert forall|k: u128| #[trigger] post.nodes@[id].in_peers@.contains_key(k) implies pre.nodes@.contains_key(id)
        && pre.nodes@[id].in_peers@.contains_key(k) by {
        assert(mid.nodes@[id].in_peers@.contains_key(k));
    }
    assert forall|j: NodeId, k: u128|
        #[trigger] pre.nodes@.contains_key(j) && #[trigger] post.nodes@[j].in_peers@.contains_key(k)
            && !pre.nodes@[j].in_peers@.contains_key(k) implies exists|i: int|
            0 <= i < m && post.registry.record(send_target(#[trigger] r[i])).owner_node == j && k == addr_key(
                post.nodes@[id].own_addr(send_target(r[i]).network)->0,
            ) by {
        assert(mid.nodes@.contains_key(j));
        if j == id {
            assert(mid.nodes@[id] == pre.nodes@[id]);
            assert(post.nodes@[id].in_peers@.dom() == mid.nodes@[id].in_peers@.dom());
        } else {
            assert(mid.nodes@[j] == pre.nodes@[j]);
        }
        let q = choose|q: int|
            0 <= q < cands.len() && mid.registry.record(#[trigger] cands[q]).owner_node == j && k == addr_key(
                mid.nodes@[id].own_addr(cands[q].network)->0,
            );
        assert(send_target(r[q]) == cands[q]);
    }
    assert forall|j: NodeId| #[trigger] pre.nodes@.contains_key(j) implies same_but_links(pre.nodes@[j], post.nodes@[j]) by {
        assert(mid.nodes@.contains_key(j));
    }
    assert forall|j: NodeId, k: u128|
        #[trigger] pre.nodes@.contains_key(j) && #[trigger] pre.nodes@[j].out_peers@.contains_key(k)
            && !(j == id && exists|i: int| 0 <= i < m && k == addr_key(send_target(#[trigger] r[i])))
            implies post.nodes@[j].out_peers@[k] == pre.nodes@[j].out_peers@[k] by {
        assert(mid.nodes@.contains_key(j));
        if j == id && Network::dials(cands, k) {
            let q = choose|q: int| 0 <= q < cands.len() && addr_key(#[trigger] cands[q]) == k;
            assert(send_target(r[q]) == cands[q]);
        }
    }
    assert forall|j: NodeId, k: u128|
        #[trigger] pre.nodes@.contains_key(j) && #[trigger] pre.nodes@[j].in_peers@.contains_key(k)
            && !(exists|i: int|
            0 <= i < m && post.registry.record(send_target(#[trigger] r[i])).owner_node == j && k == addr_key(
                post.nodes@[id].own_addr(send_target(r[i]).network)->0,
            )) implies post.nodes@[j].in_peers@[k] == pre.nodes@[j].in_peers@[k] by {
        assert(mid.nodes@.contains_key(j));
        if Network::answers(mid, id, cands, j, k) {
            let q = choose|q: int|
                0 <= q < cands.len() && mid.registry.record(#[trigger] cands[q]).owner_node == j && k == addr_key(
                    mid.nodes@[id].own_addr(cands[q].network)->0,
                );
            assert(send_target(r[q]) == cands[q]);
        }
    }
    assert forall|j: NodeId|
        #[trigger] pre.nodes@.contains_key(j) && j != id && !(exists|i: int|
            0 <= i < m && post.registry.record(send_target(#[trigger] r[i])).owner_node == j) implies post.nodes@[j]
            == pre.nodes@[j] by {
        assert(mid.nodes@.contains_key(j));
        if Network::dialed_node(mid, cands, j) {
            let q = choose|q: int| 0 <= q < cands.len() && mid.registry.record(#[trigger] cands[q]).owner_node == j;
            assert(send_target(r[q]) == cands[q]);
        }
    }
    assert forall|i: int|
        0 <= i < m && !(pre.nodes@.contains_key(id) && pre.nodes@[id].out_peers@.contains_key(addr_key(send_target(#[trigger] r[i]))))
            implies post.nodes@[id].out_peers@[addr_key(send_target(r[i]))].is_fresh(send_target(r[i]), true) by {
        assert(send_target(r[i]) == cands[i]);
    }
}

/// One more connection extends what `linked` says by one candidate.
proof fn lemma_linked_step(pre: Network, mid: Network, post: Network, node_id: NodeId, cands: Seq<AddressId>, i: int)
    requires
        0 <= i < cands.len(),
        pre.wf(),
        pre.nodes@.contains_key(node_id),
        forall|j: int| 0 <= j < cands.len() ==> pre.nodes@.contains_key(pre.registry.record(#[trigger] cands[j]).owner_node),
        Network::linked(pre, mid, node_id, cands.take(i)),
        mid.registry == pre.registry,
        mid.nodes@[node_id].addresses == pre.nodes@[node_id].addresses,
        post.nodes@.dom() == mid.nodes@.dom(),
        mid.registry.has(cands[i]),
        ({
            let to_addr = cands[i];
            let to_node = mid.registry.record(to_addr).owner_node;
            let from_addr = mid.nodes@[node_id].own_addr(to_addr.network)->0;
            &&& to_node != node_id
            &&& Node::connect_post(mid.nodes@[node_id], post.nodes@[node_id], to_addr, true)
            &&& Node::connect_post(mid.nodes@[to_node], post.nodes@[to_node], from_addr, false)
            &&& forall|id: NodeId|
                id != node_id && id != to_node ==> #[trigger] post.nodes@.get(id) == mid.nodes@.get(id)
        }),
    ensures
        Network::linked(pre, post, node_id, cands.take(i + 1)),
{
    let t0 = cands.take(i);
    let t1 = cands.take(i + 1);
    let to_addr = cands[i];
    let to_node = mid.registry.record(to_addr).owner_node;
    assert forall|k: u128|
        #[trigger] post.nodes@[node_id].out_peers@.contains_key(k) <==> pre.nodes@[node_id].out_peers@.contains_key(k)
            || exists|j: int| 0 <= j < t1.len() && k == addr_key(#[trigger] t1[j]) by {
        if exists|j: int| 0 <= j < t0.len() && k == addr_key(#[trigger] t0[j]) {
            let j = choose|j: int| 0 <= j < t0.len() && k == addr_key(#[trigger] t0[j]);
            assert(t1[j] == t0[j]);
        }
        if exists|j: int| 0 <= j < t1.len() && k == addr_key(#[trigger] t1[j]) {
            let j = choose|j: int| 0 <= j < t1.len() && k == addr_key(#[trigger] t1[j]);
            if j < i {
                assert(t0[j] == t1[j]);
            }
        }
        if k == addr_key(to_addr) {
            assert(t1[i] == to_addr);
        }
    }
    assert forall|id: NodeId, k: u128|
        id != node_id && #[trigger] pre.nodes@.contains_key(id) implies (#[trigger] post.nodes@[id].out_peers@.contains_key(k)
            <==> pre.nodes@[id].out_peers@.contains_key(k)) by {
        if id != to_node {
            assert(post.nodes@.get(id) == mid.nodes@.get(id));
        }
    }
    assert forall|id: NodeId, k: u128|
        #[trigger] pre.nodes@.contains_key(id) && #[trigger] pre.nodes@[id].in_peers@.contains_key(k)
            implies post.nodes@[id].in_peers@.contains_key(k) by {
        if id != to_node && id != node_id {
            assert(post.nodes@.get(id) == mid.nodes@.get(id));
        }
        assert(mid.nodes@[id].in_peers@.contains_key(k));
    }
    assert forall|j: int|
        0 <= j < t1.len() implies post.nodes@[pre.registry.record(#[trigger] t1[j]).owner_node].in_peers@.contains_key(
            addr_key(pre.nodes@[node_id].own_addr(t1[j].network)->0),
        ) by {
        if j < i {
            assert(t1[j] == t0[j]);
            let o = pre.registry.record(t0[j]).owner_node;
            assert(pre.nodes@.contains_key(pre.registry.record(cands[j]).owner_node));
            let kk = addr_key(pre.nodes@[node_id].own_addr(t0[j].network)->0);
            assert(mid.nodes@[o].in_peers@.contains_key(kk));
            if o != to_node && o != node_id {
                assert(post.nodes@.get(o) == mid.nodes@.get(o));
            }
        } else {
            assert(t1[j] == to_addr);
            assert(pre.nodes@.contains_key(pre.registry.record(cands[i]).owner_node));
            assert(post.nodes@[to_node].in_peers@.dom() == mid.nodes@[to_node].in_peers@.dom().insert(
                addr_key(mid.nodes@[node_id].own_addr(to_addr.network)->0),
            ));
        }
    }
    assert(post.nodes@[node_id].in_peers@.dom() =~= pre.nodes@[node_id].in_peers@.dom());
    assert forall|id: NodeId, k: u128|
        #[trigger] pre.nodes@.contains_key(id) && #[trigger] post.nodes@[id].in_peers@.contains_key(k)
            && !pre.nodes@[id].in_peers@.contains_key(k) implies exists|j: int|
            0 <= j < t1.len() && pre.registry.record(#[trigger] t1[j]).owner_node == id && k == addr_key(
                pre.nodes@[node_id].own_addr(t1[j].network)->0,
            ) by {
        if mid.nodes@[id].in_peers@.contains_key(k) {
            let j = choose|j: int|
                0 <= j < t0.len() && pre.registry.record(#[trigger] t0[j]).owner_node == id && k == addr_key(
                    pre.nodes@[node_id].own_addr(t0[j].network)->0,
                );
            assert(t1[j] == t0[j]);
        } else {
            if id != to_node && id != node_id {
                assert(post.nodes@.get(id) == mid.nodes@.get(id));
            }
            assert(id == to_node);
            assert(t1[i] == to_addr);
        }
    }
    let to_addr = cands[i];
    let from_addr = mid.nodes@[node_id].own_addr(to_addr.network)->0;
    assert forall|id: NodeId| #[trigger] pre.nodes@.contains_key(id) implies same_but_links(pre.nodes@[id], post.nodes@[id]) by {
        assert(same_but_links(pre.nodes@[id], mid.nodes@[id]));
        if id != node_id && id != to_node {
            assert(post.nodes@.get(id) == mid.nodes@.get(id));
        }
    }
    assert forall|id: NodeId, k: u128|
        #[trigger] pre.nodes@.contains_key(id) && #[trigger] pre.nodes@[id].out_peers@.contains_key(k)
            && !(id == node_id && Network::dials(t1, k)) implies post.nodes@[id].out_peers@[k] == pre.nodes@[id].out_peers@[k] by {
        if id == node_id && Network::dials(t0, k) {
            let j = choose|j: int| 0 <= j < t0.len() && addr_key(#[trigger] t0[j]) == k;
            assert(t1[j] == t0[j]);
        }
        if id == node_id && k == addr_key(to_addr) {
            assert(t1[i] == to_addr);
        }
        assert(mid.nodes@[id].out_peers@[k] == pre.nodes@[id].out_peers@[k]);
        if id != node_id && id != to_node {
            assert(post.nodes@.get(id) == mid.nodes@.get(id));
        } else if id == node_id {
            assert(k != addr_key(to_addr));
            assert(post.nodes@[id].out_peers@.get(k) == mid.nodes@[id].out_peers@.get(k));
            assert(mid.nodes@[id].out_peers@.contains_key(k));
        }
    }
    assert forall|id: NodeId, k: u128|
        #[trigger] pre.nodes@.contains_key(id) && #[trigger] pre.nodes@[id].in_peers@.contains_key(k)
            && !Network::answers(pre, node_id, t1, id, k) implies post.nodes@[id].in_peers@[k] == pre.nodes@[id].in_peers@[k] by {
        if Network::answers(pre, node_id, t0, id, k) {
            let j = choose|j: int|
                0 <= j < t0.len() && pre.registry.record(#[trigger] t0[j]).owner_node == id && k == addr_key(
                    pre.nodes@[node_id].own_addr(t0[j].network)->0,
                );
            assert(t1[j] == t0[j]);
        }
        assert(from_addr == pre.nodes@[node_id].own_addr(to_addr.network)->0);
        if id == to_node && k == addr_key(from_addr) {
            assert(t1[i] == to_addr);
            assert(Network::answers(pre, node_id, t1, id, k));
        }
        assert(mid.nodes@[id].in_peers@[k] == pre.nodes@[id].in_peers@[k]);
        if id != node_id && id != to_node {
            assert(post.nodes@.get(id) == mid.nodes@.get(id));
        } else if id == to_node {
            assert(k != addr_key(from_addr));
            assert(post.nodes@[id].in_peers@.get(k) == mid.nodes@[id].in_peers@.get(k));
            assert(mid.nodes@[id].in_peers@.contains_key(k));
        }
    }
    assert forall|id: NodeId|
        #[trigger] pre.nodes@.contains_key(id) && id != node_id && !Network::dialed_node(pre, t1, id) implies post.nodes@[id]
            == pre.nodes@[id] by {
        if Network::dialed_node(pre, t0, id) {
            let j = choose|j: int| 0 <= j < t0.len() && pre.registry.record(#[trigger] t0[j]).owner_node == id;
            assert(t1[j] == t0[j]);
        }
        assert(t1[i] == to_addr);
        assert(post.nodes@.get(id) == mid.nodes@.get(id));
    }
    assert forall|j: int| 0 <= j < t1.len() && !pre.nodes@[node_id].out_peers@.contains_key(addr_key(#[trigger] t1[j]))
        implies post.nodes@[node_id].out_peers@[addr_key(t1[j])].is_fresh(t1[j], true) by {
        if j < i {
            assert(t1[j] == t0[j]);
            if addr_key(t0[j]) == addr_key(to_addr) {
                lemma_key_injective(t0[j], to_addr);
            } else {
                assert(mid.nodes@[node_id].out_peers@[addr_key(t0[j])].is_fresh(t0[j], true));
                assert(post.nodes@[node_id].out_peers@.get(addr_key(t0[j])) == mid.nodes@[node_id].out_peers@.get(addr_key(t0[j])));
                assert(mid.nodes@[node_id].out_peers@.contains_key(addr_key(t0[j])));
            }
        } else {
            assert(t1[j] == to_addr);
        }
    }
}

pub open spec fn send_target(e: Event) -> AddressId {
    match e {
        Event::SendMessage { to, .. } => to,
        _ => AddressId { id: 0, network: NetworkType::Onion },
    }
}

/// A copy of a list of addresses.
pub fn copy_addrs(v: &Vec<AddressId>) -> (r: Vec<AddressId>)
    ensures
        r@ == v@,
{
    let mut r: Vec<AddressId> = Vec::new();
    let mut i: usize = 0;
    while i < v.len()
        invariant
            0 <= i <= v.len(),
            r@ == v@.take(i as int),
        decreases v.len() - i,
    {
        r.push(v[i]);
        proof {
            assert(v@.take(i + 1) =~= v@.take(i as int).push(v@[i as int]));
        }
        i = i + 1;
    }
    proof {
        assert(v@.take(v.len() as int) =~= v@);
    }
    r
}

/// Up to `n` random items of a list, each satisfying what every item satisfies.
fn pick_some<T>(rng: &mut StdRng, items: Vec<T>, n: usize, Ghost(prop): Ghost<spec_fn(T) -> bool>) -> (r: Vec<T>)
    requires
        forall|i: int| 0 <= i < items.len() ==> prop(#[trigger] items@[i]),
        items@.no_duplicates(),
    ensures
        r@.no_duplicates(),
        r.len() == if n < items.len() {
            n
        } else {
            items.len()
        },
        forall|i: int| 0 <= i < r.len() ==> prop(#[trigger] r@[i]),
{
    let amount = if n < items.len() {
        n
    } else {
        items.len()
    };
    let ghost all = items@;
    let r = choose_multiple(rng, items, amount);
    proof {
        broadcast use vstd::seq_lib::group_to_multiset_ensures;

        assert forall|i: int| 0 <= i < r.len() implies prop(#[trigger] r@[i]) by {
            assert(r@.to_multiset().count(r@[i]) > 0);
            assert(all.to_multiset().count(r@[i]) > 0);
            assert(all.contains(r@[i]));
        }
        all.lemma_multiset_has_no_duplicates();
        assert forall|x: T| r@.to_multiset().contains(x) implies r@.to_multiset().count(x) == 1 by {
            assert(all.to_multiset().count(x) > 0);
        }
        r@.lemma_multiset_has_no_duplicates_conv();
    }
    r
}

} // verus!
