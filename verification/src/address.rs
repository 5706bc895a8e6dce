//! Addresses, the two networks they live on, and the global address registry.
use std::collections::HashMap;

use vstd::prelude::*;

use crate::node::NodeId;

verus! {

broadcast use vstd::std_specs::hash::group_hash_axioms;

#[derive(Clone, Copy, PartialEq, Eq, Hash, Debug, Structural)]
pub enum NetworkType {
    Onion,
    Clearnet,
}

#[derive(Clone, Copy, PartialEq, Eq, Hash, Debug, Structural)]
pub struct AddressId {
    pub id: u64,
    pub network: NetworkType,
}

/// A set of networks. Only two networks exist, so a flag per network is the whole set.
#[derive(Clone, Copy, PartialEq, Eq, Hash, Debug, Structural)]
pub struct NetworkSet {
    pub onion: bool,
    pub clearnet: bool,
}

impl NetworkSet {
    /// The set holding `network` alone.
    pub open spec fn on(network: NetworkType) -> NetworkSet {
        NetworkSet { onion: network == NetworkType::Onion, clearnet: network == NetworkType::Clearnet }
    }

    pub open spec fn has(self, network: NetworkType) -> bool {
        match network {
            NetworkType::Onion => self.onion,
            NetworkType::Clearnet => self.clearnet,
        }
    }

    pub fn new() -> (r: Self)
        ensures
            forall|n: NetworkType| !#[trigger] r.has(n),
    {
        NetworkSet { onion: false, clearnet: false }
    }

    /// The set holding exactly one network.
    pub fn single(network: NetworkType) -> (r: Self)
        ensures
            forall|n: NetworkType| #[trigger] r.has(n) <==> n == network,
    {
        let mut r = NetworkSet::new();
        r.insert(network);
        r
    }

    pub fn contains(&self, network: NetworkType) -> (r: bool)
        ensures
            r == self.has(network),
    {
        match network {
            NetworkType::Onion => self.onion,
            NetworkType::Clearnet => self.clearnet,
        }
    }

    pub fn insert(&mut self, network: NetworkType)
        ensures
            forall|n: NetworkType| #[trigger] final(self).has(n) <==> old(self).has(n) || n == network,
    {
        match network {
            NetworkType::Onion => self.onion = true,
            NetworkType::Clearnet => self.clearnet = true,
        }
    }
}

/// Integer key under which an address is stored in hash maps and sets.
/// Distinct addresses get distinct keys (see `lemma_key_injective`).
pub open spec fn addr_key(a: AddressId) -> u128 {
    ((a.id as int) * 2 + if a.network == NetworkType::Onion { 0int } else { 1int }) as u128
}

pub proof fn lemma_key_injective(a: AddressId, b: AddressId)
    ensures
        addr_key(a) == addr_key(b) <==> a == b,
{
}

impl AddressId {
    pub fn key(&self) -> (k: u128)
        ensures
            k == addr_key(*self),
    {
        let bit: u128 = match self.network {
            NetworkType::Onion => 0,
            NetworkType::Clearnet => 1,
        };
        (self.id as u128) * 2 + bit
    }
}

/// Stored in the global registry only — not in addrman.
#[derive(Clone, Copy)]
pub struct Address {
    pub id: AddressId,
    pub owner_node: NodeId,
    pub is_active: bool,
    pub is_reachable: bool,
}

/// Global bookkeeping: maps addresses to nodes and vice versa.
/// Used to mark all addresses of a departing node as inactive.
pub struct AddressRegistry {
    pub addresses: HashMap<u128, Address>,
    pub node_addresses: HashMap<NodeId, Vec<AddressId>>,
}

impl AddressRegistry {
    /// Every registered address, each once.
    pub fn ids(&self) -> (r: Vec<AddressId>)
        requires
            self.wf(),
        ensures
            forall|a: AddressId| #[trigger] r@.contains(a) <==> self.has(a),
            r@.no_duplicates(),
            r@.len() == self.addresses@.dom().len(),
    {
        let keys = crate::maps::map_keys(&self.addresses);
        let mut r: Vec<AddressId> = Vec::new();
        let mut i: usize = 0;
        while i < keys.len()
            invariant
                self.wf(),
                keys@.to_set() == self.addresses@.dom(),
                keys@.no_duplicates(),
                keys@.len() == self.addresses@.dom().len(),
                0 <= i <= keys.len(),
                r@.len() == i,
                forall|j: int| 0 <= j < i ==> #[trigger] addr_key(r@[j]) == keys@[j],
                forall|j: int| 0 <= j < i ==> self.has(#[trigger] r@[j]),
            decreases keys.len() - i,
        {
            let k = keys[i];
            proof {
                assert(keys@.to_set().contains(k)) by {
                    assert(keys@.contains(k));
                }
            }
            let a = match self.addresses.get(&k) {
                Some(rec) => rec.id,
                None => {
                    proof {
                        assert(false);
                    }
                    AddressId { id: 0, network: NetworkType::Onion }
                },
            };
            r.push(a);
            i = i + 1;
        }
        proof {
            assert forall|a: AddressId| #[trigger] r@.contains(a) <==> self.has(a) by {
                if self.has(a) {
                    assert(keys@.to_set().contains(addr_key(a)));
                    let j = choose|j: int| 0 <= j < keys@.len() && keys@[j] == addr_key(a);
                    lemma_key_injective(r@[j], a);
                }
            }
            assert forall|x: int, y: int| 0 <= x < r@.len() && 0 <= y < r@.len() && x != y implies r@[x] != r@[y] by {
                assert(addr_key(r@[x]) == keys@[x]);
                assert(addr_key(r@[y]) == keys@[y]);
            }
        }
        r
    }

    /// Every record is stored under the key of its own address.
    pub open spec fn wf(&self) -> bool {
        forall|k: u128| #[trigger]
            self.addresses@.contains_key(k) ==> addr_key(self.addresses@[k].id) == k
    }

    /// The registered addresses, as a map from address to record.
    pub open spec fn records(&self) -> Map<AddressId, Address> {
        Map::new(
            |a: AddressId| self.addresses@.contains_key(addr_key(a)),
            |a: AddressId| self.addresses@[addr_key(a)],
        )
    }

    pub open spec fn has(&self, a: AddressId) -> bool {
        self.addresses@.contains_key(addr_key(a))
    }

    pub open spec fn record(&self, a: AddressId) -> Address {
        self.addresses@[addr_key(a)]
    }

    /// The addresses recorded for a node, or none.
    pub open spec fn addresses_of(&self, node_id: NodeId) -> Seq<AddressId> {
        if self.node_addresses@.contains_key(node_id) {
            self.node_addresses@[node_id]@
        } else {
            Seq::empty()
        }
    }

    pub fn new() -> (r: Self)
        ensures
            r.wf(),
            r.addresses@ == Map::<u128, Address>::empty(),
            r.node_addresses@ == Map::<NodeId, Vec<AddressId>>::empty(),
    {
        AddressRegistry { addresses: HashMap::new(), node_addresses: HashMap::new() }
    }

    pub fn register(&mut self, node_id: NodeId, address_id: AddressId, is_reachable: bool)
        requires
            old(self).wf(),
        ensures
            final(self).wf(),
            final(self).addresses@ == old(self).addresses@.insert(
                addr_key(address_id),
                Address { id: address_id, owner_node: node_id, is_active: true, is_reachable },
            ),
            final(self).records() == old(self).records().insert(
                address_id,
                Address { id: address_id, owner_node: node_id, is_active: true, is_reachable },
            ),
            final(self).node_addresses@.dom() == old(self).node_addresses@.dom().insert(node_id),
            final(self).addresses_of(node_id) == old(self).addresses_of(node_id).push(address_id),
            forall|n: NodeId|
                n != node_id ==> #[trigger] final(self).node_addresses@.contains_key(n)
                    == old(self).node_addresses@.contains_key(n) && (
                old(self).node_addresses@.contains_key(n) ==> final(self).node_addresses@[n]
                    == old(self).node_addresses@[n]),
    {
        let k = address_id.key();
        let rec = Address { id: address_id, owner_node: node_id, is_active: true, is_reachable };
        self.addresses.insert(k, rec);
        let mut list = match self.node_addresses.remove(&node_id) {
            Some(l) => l,
            None => Vec::new(),
        };
        list.push(address_id);
        self.node_addresses.insert(node_id, list);
        proof {
            assert forall|a: AddressId| #[trigger]
                self.records().contains_key(a) == old(self).records().insert(
                    address_id,
                    rec,
                ).contains_key(a) by {
                lemma_key_injective(a, address_id);
            }
            assert forall|a: AddressId| #[trigger]
                self.records().contains_key(a) implies self.records()[a] == old(
                    self,
                ).records().insert(address_id, rec)[a] by {
                lemma_key_injective(a, address_id);
            }
            assert(self.records() =~= old(self).records().insert(address_id, rec));
            assert(self.addresses_of(node_id) =~= old(self).addresses_of(node_id).push(
                address_id,
            ));
        }
    }

    /// Mark all addresses of a departing node inactive.
    pub fn deactivate_node(&mut self, node_id: NodeId)
        requires
            old(self).wf(),
            old(self).node_addresses@.contains_key(node_id),
            forall|i: int|
                0 <= i < old(self).node_addresses@[node_id]@.len() ==> old(self).has(
                    #[trigger] old(self).node_addresses@[node_id]@[i],
                ),
        ensures
            final(self).wf(),
            final(self).node_addresses@ == old(self).node_addresses@,
            final(self).addresses@.dom() == old(self).addresses@.dom(),
            forall|k: u128| #[trigger]
                final(self).addresses@.contains_key(k) ==> final(self).addresses@[k] == (
                if old(self).addresses_of(node_id).contains(old(self).addresses@[k].id) {
                    Address { is_active: false, ..old(self).addresses@[k] }
                } else {
                    old(self).addresses@[k]
                }),
    {
        let ghost list = self.node_addresses@[node_id]@;
        let ghost orig = self.addresses@;
        let n = match self.node_addresses.get(&node_id) {
            Some(l) => l.len(),
            None => 0,
        };
        let mut i: usize = 0;
        while i < n
            invariant
                self.wf(),
                self.node_addresses@ == old(self).node_addresses@,
                self.node_addresses@.contains_key(node_id),
                list == self.node_addresses@[node_id]@,
                n == list.len(),
                0 <= i <= n,
                orig == old(self).addresses@,
                forall|j: int| 0 <= j < list.len() ==> orig.contains_key(addr_key(#[trigger] list[j])),
                self.addresses@.dom() == orig.dom(),
                forall|k: u128| #[trigger]
                    self.addresses@.contains_key(k) ==> self.addresses@[k] == (
                    if list.take(i as int).contains(orig[k].id) {
                        Address { is_active: false, ..orig[k] }
                    } else {
                        orig[k]
                    }),
            decreases n - i,
        {
            let a = match self.node_addresses.get(&node_id) {
                Some(l) => l[i],
                None => {
                    proof {
                        assert(false);
                    }
                    return ;
                },
            };
            assert(a == list[i as int]);
            let k = a.key();
            let ghost before = self.addresses@;
            match self.addresses.remove(&k) {
                Some(rec) => {
                    let mut rec = rec;
                    rec.is_active = false;
                    self.addresses.insert(k, rec);
                },
                None => {
                    proof {
                        assert(false);
                    }
                },
            }
            proof {
                assert(list.take(i + 1) =~= list.take(i as int).push(a));
                assert forall|k2: u128| #[trigger]
                    self.addresses@.contains_key(k2) implies self.addresses@[k2] == (
                    if list.take(i + 1).contains(orig[k2].id) {
                        Address { is_active: false, ..orig[k2] }
                    } else {
                        orig[k2]
                    }) by {
                    lemma_key_injective(orig[k2].id, a);
                    assert(orig[k2].id == a ==> list.take(i + 1).contains(orig[k2].id)) by {
                        assert(list.take(i + 1)[i as int] == a);
                    }
                }
            }
            i = i + 1;
        }
        proof {
            assert(list.take(n as int) =~= list);
        }
    }

    pub fn is_active(&self, addr_id: AddressId) -> (r: bool)
        requires
            self.has(addr_id),
        ensures
            r == self.record(addr_id).is_active,
    {
        match self.addresses.get(&addr_id.key()) {
            Some(a) => a.is_active,
            None => {
                proof {
                    assert(false);
                }
                false
            },
        }
    }

    /// True if the owner node of this address accepts inbound connections.
    pub fn is_reachable(&self, addr_id: AddressId) -> (r: bool)
        requires
            self.has(addr_id),
        ensures
            r == self.record(addr_id).is_reachable,
    {
        match self.addresses.get(&addr_id.key()) {
            Some(a) => a.is_reachable,
            None => {
                proof {
                    assert(false);
                }
                false
            },
        }
    }

    /// The owner node of an address, if the address is registered.
    pub fn owner_of(&self, addr_id: AddressId) -> (r: Option<NodeId>)
        ensures
            r == (if self.has(addr_id) {
                Some(self.record(addr_id).owner_node)
            } else {
                None::<NodeId>
            }),
    {
        match self.addresses.get(&addr_id.key()) {
            Some(a) => Some(a.owner_node),
            None => None,
        }
    }
}

} // verus!
