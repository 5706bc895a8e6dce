//! The address manager: one timestamp (`nTime`) per known address.
use std::collections::HashMap;

use rand::rngs::StdRng;
use vstd::prelude::*;

use crate::address::{addr_key, lemma_key_injective, AddressId};
use crate::maps::map_keys;
use crate::random::choose_multiple;

verus! {

broadcast use vstd::std_specs::hash::group_hash_axioms;

pub const ADDRMAN_HORIZON: u64 = 30 * 24 * 3600;

pub const TIMESTAMP_UPDATE_INTERVAL: u64 = 20 * 60;

/// Largest GETADDR response.
pub const MAX_ADDR_TO_SEND: usize = 1000;

/// A GETADDR response holds at most this percentage of the addrman.
pub const MAX_PCT_ADDR_TO_SEND: usize = 23;

#[derive(Clone, Copy)]
pub struct AddrmanEntry {
    pub address: AddressId,
    pub timestamp: u64,
}

/// An address is terrible when its timestamp lies more than ten minutes in the future
/// or more than `ADDRMAN_HORIZON` in the past.
pub open spec fn terrible(timestamp: u64, now: u64) -> bool {
    timestamp > now + 600 || now - timestamp > ADDRMAN_HORIZON
}

/// The timestamp after a disconnect at `now`: refreshed only when more than
/// `TIMESTAMP_UPDATE_INTERVAL` has passed since the stored one.
pub open spec fn connected_timestamp(timestamp: u64, now: u64) -> u64 {
    if now - timestamp > TIMESTAMP_UPDATE_INTERVAL {
        now
    } else {
        timestamp
    }
}

impl AddrmanEntry {
    /// Only timestamp-based checks for now.
    pub fn is_terrible(&self, now: u64) -> (r: bool)
        ensures
            r == terrible(self.timestamp, now),
    {
        if self.timestamp > now && self.timestamp - now > 600 {
            return true;
        }
        if now.saturating_sub(self.timestamp) > ADDRMAN_HORIZON {
            return true;
        }
        false
    }

    /// Called on disconnect. Mirrors AddrMan::Connected() in Bitcoin Core, which is called
    /// from FinalizeNode() when a peer connection is torn down.
    /// Updates nTime at most every 20 minutes.
    pub fn record_connected(&mut self, now: u64)
        ensures
            final(self).address == old(self).address,
            final(self).timestamp == connected_timestamp(old(self).timestamp, now),
    {
        if now.saturating_sub(self.timestamp) > TIMESTAMP_UPDATE_INTERVAL {
            self.timestamp = now;
        }
    }
}

/// The bar an incoming timestamp must clear: one hour for timestamps under a day old,
/// a day otherwise.
pub open spec fn update_interval(incoming_timestamp: u64, now: u64) -> u64 {
    if now - incoming_timestamp < 24 * 3600 {
        3600
    } else {
        86400
    }
}

/// The value stored for an incoming timestamp: the timestamp less the penalty, floored at zero.
pub open spec fn penalized(incoming_timestamp: u64, penalty: u64) -> u64 {
    if incoming_timestamp >= penalty {
        (incoming_timestamp - penalty) as u64
    } else {
        0
    }
}

/// The address map after `Addrman::add`: a new address is stored with its penalized
/// timestamp; a known one is replaced only when the penalized timestamp exceeds the
/// stored one by more than the update interval.
pub open spec fn spec_add(
    m: Map<AddressId, u64>,
    address: AddressId,
    incoming_timestamp: u64,
    penalty: u64,
    now: u64,
) -> Map<AddressId, u64> {
    let stored = penalized(incoming_timestamp, penalty);
    if !m.contains_key(address) {
        m.insert(address, stored)
    } else if stored > m[address] + update_interval(incoming_timestamp, now) {
        m.insert(address, stored)
    } else {
        m
    }
}

pub struct Addrman {
    pub entries: HashMap<u128, AddrmanEntry>,
}

impl View for Addrman {
    type V = Map<AddressId, u64>;

    open spec fn view(&self) -> Map<AddressId, u64> {
        Map::new(
            |a: AddressId| self.entries@.contains_key(addr_key(a)),
            |a: AddressId| self.entries@[addr_key(a)].timestamp,
        )
    }
}

impl Addrman {
    /// Every entry is stored under the key of its own address.
    pub open spec fn wf(&self) -> bool {
        forall|k: u128| #[trigger]
            self.entries@.contains_key(k) ==> addr_key(self.entries@[k].address) == k
    }

    /// The number of entries that are not terrible at `now`.
    pub open spec fn live_count(&self, now: u64) -> nat {
        self.entries@.dom().filter(|k: u128| !terrible(self.entries@[k].timestamp, now)).len()
    }

    /// The size of a GETADDR response: 23% of the addrman's size, at most 1000, and no
    /// more than there are live entries to send.
    pub open spec fn response_size(&self, now: u64) -> nat {
        let n = (self.entries@.dom().len() * MAX_PCT_ADDR_TO_SEND / 100) as nat;
        let capped = if n < MAX_ADDR_TO_SEND {
            n
        } else {
            MAX_ADDR_TO_SEND as nat
        };
        if capped < self.live_count(now) {
            capped
        } else {
            self.live_count(now)
        }
    }

    /// The entry stored for an address.
    pub open spec fn entry(&self, a: AddressId) -> AddrmanEntry {
        self.entries@[addr_key(a)]
    }

    pub proof fn lemma_entry(&self, a: AddressId)
        requires
            self.wf(),
            self@.contains_key(a),
        ensures
            self.entry(a).address == a,
            self.entry(a).timestamp == self@[a],
    {
        lemma_key_injective(self.entries@[addr_key(a)].address, a);
    }

    pub fn new() -> (r: Self)
        ensures
            r.wf(),
            r@ == Map::<AddressId, u64>::empty(),
    {
        let r = Addrman { entries: HashMap::new() };
        assert(r@ =~= Map::<AddressId, u64>::empty());
        r
    }

    /// Returns a random selection of non-terrible entries for a GETADDR response.
    /// Count is min(1000, addrman_size * 23%) — MAX_PCT_ADDR_TO_SEND = 23 — or all the
    /// non-terrible entries when there are fewer.
    pub fn get_addr(&self, now: u64, rng: &mut StdRng) -> (r: Vec<AddrmanEntry>)
        requires
            self.wf(),
        ensures
            r.len() == self.response_size(now),
            forall|i: int|
                0 <= i < r.len() ==> {
                    &&& self@.contains_key(#[trigger] r@[i].address)
                    &&& self.entry(r@[i].address) == r@[i]
                    &&& !terrible(r@[i].timestamp, now)
                },
            forall|i: int, j: int|
                0 <= i < j < r.len() ==> #[trigger] r@[i].address != #[trigger] r@[j].address,
    {
        let keys = map_keys(&self.entries);
        let ghost pred = |k: u128| !terrible(self.entries@[k].timestamp, now);
        let mut candidates: Vec<AddrmanEntry> = Vec::new();
        let ghost mut chosen: Seq<u128> = Seq::empty();
        let mut i: usize = 0;
        while i < keys.len()
            invariant
                self.wf(),
                pred == (|k: u128| !terrible(self.entries@[k].timestamp, now)),
                keys@.to_set() == self.entries@.dom(),
                keys@.no_duplicates(),
                0 <= i <= keys.len(),
                chosen.len() == candidates.len(),
                chosen.no_duplicates(),
                forall|j: int|
                    0 <= j < chosen.len() ==> self.entries@.contains_key(#[trigger] chosen[j])
                        && candidates@[j] == self.entries@[chosen[j]] && pred(chosen[j]),
                chosen.to_set() == keys@.take(i as int).to_set().filter(pred),
            decreases keys.len() - i,
        {
            let k = keys[i];
            assert(keys@.to_set().contains(k)) by {
                assert(keys@.contains(k));
            }
            let e = match self.entries.get(&k) {
                Some(e) => *e,
                None => {
                    proof {
                        assert(false);
                    }
                    return Vec::new();
                },
            };
            proof {
                assert(keys@.take(i + 1) =~= keys@.take(i as int).push(k));
                assert(!keys@.take(i as int).contains(k));
            }
            if !e.is_terrible(now) {
                candidates.push(e);
                proof {
                    assert(!chosen.contains(k)) by {
                        if chosen.contains(k) {
                            assert(chosen.to_set().contains(k));
                        }
                    }
                    let old_chosen = chosen;
                    chosen = chosen.push(k);
                    old_chosen.lemma_push_to_set_commute(k);
                    keys@.take(i as int).lemma_push_to_set_commute(k);
                    assert(pred(k));
                    assert(chosen.to_set() =~= keys@.take(i + 1).to_set().filter(pred));
                }
            } else {
                proof {
                    keys@.take(i as int).lemma_push_to_set_commute(k);
                    assert(!pred(k));
                    assert(chosen.to_set() =~= keys@.take(i + 1).to_set().filter(pred));
                }
            }
            i = i + 1;
        }
        proof {
            assert(keys@.take(keys.len() as int) =~= keys@);
            assert(self.entries@.dom().filter(pred) =~= chosen.to_set());
            chosen.unique_seq_to_set();
            assert(candidates.len() == self.live_count(now));
        }
        let c = candidates.len();
        let size = self.entries.len();
        let pct = ((size as u128) * 23 / 100) as usize;
        let capped = if pct < MAX_ADDR_TO_SEND {
            pct
        } else {
            MAX_ADDR_TO_SEND
        };
        let n = if capped < c {
            capped
        } else {
            c
        };
        let ghost cands = candidates@;
        let r = choose_multiple(rng, candidates, n);
        proof {
            broadcast use vstd::seq_lib::group_to_multiset_ensures;
            assert forall|j1: int, j2: int|
                0 <= j1 < j2 < cands.len() implies cands[j1] != cands[j2] by {
                assert(self.entries@.contains_key(chosen[j1]));
                assert(self.entries@.contains_key(chosen[j2]));
                assert(addr_key(self.entries@[chosen[j1]].address) == chosen[j1]);
                assert(addr_key(self.entries@[chosen[j2]].address) == chosen[j2]);
            }
            assert(cands.no_duplicates());
            cands.lemma_multiset_has_no_duplicates();
            assert forall|x: AddrmanEntry| r@.to_multiset().contains(x) implies r@.to_multiset().count(
                x,
            ) == 1 by {
                assert(cands.to_multiset().count(x) >= r@.to_multiset().count(x));
            }
            r@.lemma_multiset_has_no_duplicates_conv();
            assert forall|j: int| 0 <= j < r.len() implies {
                &&& self@.contains_key(#[trigger] r@[j].address)
                &&& self.entry(r@[j].address) == r@[j]
                &&& !terrible(r@[j].timestamp, now)
            } by {
                assert(r@.to_multiset().count(r@[j]) > 0);
                assert(cands.to_multiset().count(r@[j]) > 0);
                assert(cands.contains(r@[j]));
                let p = choose|p: int| 0 <= p < cands.len() && cands[p] == r@[j];
                assert(self.entries@.contains_key(chosen[p]));
            }
            assert forall|j1: int, j2: int|
                0 <= j1 < j2 < r.len() implies #[trigger] r@[j1].address != #[trigger] r@[j2].address by {
                assert(self.entry(r@[j1].address) == r@[j1]);
                assert(self.entry(r@[j2].address) == r@[j2]);
            }
        }
        r
    }

    /// Refresh an address's timestamp after a disconnect, if the address is known.
    pub fn record_connected_for(&mut self, address: AddressId, now: u64)
        requires
            old(self).wf(),
        ensures
            final(self).wf(),
            final(self)@ == if old(self)@.contains_key(address) {
                old(self)@.insert(address, connected_timestamp(old(self)@[address], now))
            } else {
                old(self)@
            },
    {
        let k = address.key();
        let ghost old_view = self@;
        match self.entries.remove(&k) {
            None => {},
            Some(entry) => {
                let mut entry = entry;
                entry.record_connected(now);
                self.entries.insert(k, entry);
            },
        }
        proof {
            let target = if old_view.contains_key(address) {
                old_view.insert(address, connected_timestamp(old_view[address], now))
            } else {
                old_view
            };
            assert forall|a: AddressId| #[trigger] self@.contains_key(a) == target.contains_key(a) by {
                lemma_key_injective(a, address);
            }
            assert forall|a: AddressId| #[trigger] self@.contains_key(a) implies self@[a] == target[a] by {
                lemma_key_injective(a, address);
                if a == address {
                    self.lemma_entry(a);
                }
            }
            assert(self@ =~= target);
        }
    }

    /// Add a new address or update an existing one.
    ///
    /// penalty: 0 for own-address self-announcements, 2h for all other received addresses.
    /// Stored value: incoming_timestamp - penalty.
    pub fn add(&mut self, address: AddressId, incoming_timestamp: u64, penalty: u64, now: u64)
        requires
            old(self).wf(),
        ensures
            final(self).wf(),
            final(self)@ == spec_add(old(self)@, address, incoming_timestamp, penalty, now),
    {
        let update_interval: u64 = if now.saturating_sub(incoming_timestamp) < 24 * 3600 {
            3600
        } else {
            86400
        };
        let stored_value = incoming_timestamp.saturating_sub(penalty);
        let k = address.key();
        let ghost old_view = self@;
        match self.entries.remove(&k) {
            None => {
                self.entries.insert(k, AddrmanEntry { address, timestamp: stored_value });
            },
            Some(entry) => {
                let mut entry = entry;
                proof {
                    lemma_key_injective(entry.address, address);
                }
                if (stored_value as u128) > (entry.timestamp as u128) + (update_interval as u128) {
                    entry.timestamp = stored_value;
                }
                self.entries.insert(k, entry);
            },
        }
        proof {
            let target = spec_add(old_view, address, incoming_timestamp, penalty, now);
            assert forall|a: AddressId| #[trigger] self@.contains_key(a) == target.contains_key(a) by {
                lemma_key_injective(a, address);
            }
            assert forall|a: AddressId| #[trigger] self@.contains_key(a) implies self@[a] == target[a] by {
                lemma_key_injective(a, address);
            }
            assert(self@ =~= target);
        }
    }
}

/// Adding an address never lowers a stored timestamp, always leaves the address present,
/// and touches no other address.
pub proof fn lemma_add_monotone(
    m: Map<AddressId, u64>,
    address: AddressId,
    incoming_timestamp: u64,
    penalty: u64,
    now: u64,
)
    ensures
        spec_add(m, address, incoming_timestamp, penalty, now).contains_key(address),
        m.contains_key(address) ==> spec_add(m, address, incoming_timestamp, penalty, now)[address]
            >= m[address],
        forall|b: AddressId|
            b != address ==> (#[trigger] spec_add(m, address, incoming_timestamp, penalty, now).contains_key(b)
                == m.contains_key(b)) && (m.contains_key(b) ==> spec_add(
                m,
                address,
                incoming_timestamp,
                penalty,
                now,
            )[b] == m[b]),
{
}

/// Receiving the same announcement twice changes nothing the second time.
pub proof fn lemma_add_idempotent(
    m: Map<AddressId, u64>,
    address: AddressId,
    incoming_timestamp: u64,
    penalty: u64,
    now: u64,
)
    ensures
        spec_add(
            spec_add(m, address, incoming_timestamp, penalty, now),
            address,
            incoming_timestamp,
            penalty,
            now,
        ) == spec_add(m, address, incoming_timestamp, penalty, now),
{
    let once = spec_add(m, address, incoming_timestamp, penalty, now);
    assert(spec_add(once, address, incoming_timestamp, penalty, now) =~= once);
}

/// A relayed address (two-hour penalty) with a timestamp under a day old displaces a
/// known entry exactly when it is more than three hours newer than the stored timestamp;
/// a direct self-announcement (no penalty) needs only more than one hour.
pub proof fn lemma_update_bar(
    m: Map<AddressId, u64>,
    address: AddressId,
    incoming_timestamp: u64,
    penalty: u64,
    now: u64,
)
    requires
        m.contains_key(address),
        now - incoming_timestamp < 24 * 3600,
        penalty == 0 || penalty == 2 * 3600,
        incoming_timestamp >= penalty,
    ensures
        spec_add(m, address, incoming_timestamp, penalty, now)[address] != m[address]
            <==> incoming_timestamp > m[address] + penalty + 3600,
        spec_add(m, address, incoming_timestamp, penalty, now)[address] != m[address]
            ==> spec_add(m, address, incoming_timestamp, penalty, now)[address]
            == incoming_timestamp - penalty,
{
}

/// An incoming timestamp at least a day old displaces a known entry exactly when, after
/// its penalty, it is more than a day newer than the stored timestamp, and then replaces
/// it with that penalized value.
pub proof fn lemma_update_bar_old(
    m: Map<AddressId, u64>,
    address: AddressId,
    incoming_timestamp: u64,
    penalty: u64,
    now: u64,
)
    requires
        m.contains_key(address),
        now - incoming_timestamp >= 24 * 3600,
    ensures
        ({
            let stored: int = if incoming_timestamp >= penalty {
                incoming_timestamp - penalty
            } else {
                0
            };
            let after = spec_add(m, address, incoming_timestamp, penalty, now);
            &&& after.contains_key(address)
            &&& (after[address] != m[address] <==> stored > m[address] + 86400)
            &&& after[address] != m[address] ==> after[address] == stored
        }),
{
}

/// An incoming timestamp under a day old displaces a known entry exactly when, after its
/// penalty, it is more than an hour newer than the stored timestamp; an unknown address
/// is stored with its penalized timestamp whatever its age.
pub proof fn lemma_update_bar_young(
    m: Map<AddressId, u64>,
    address: AddressId,
    incoming_timestamp: u64,
    penalty: u64,
    now: u64,
)
    ensures
        ({
            let stored: int = if incoming_timestamp >= penalty {
                incoming_timestamp - penalty
            } else {
                0
            };
            let after = spec_add(m, address, incoming_timestamp, penalty, now);
            &&& after.contains_key(address)
            &&& !m.contains_key(address) ==> after[address] == stored
            &&& m.contains_key(address) && now - incoming_timestamp < 24 * 3600 ==> (after[address] != m[address]
                <==> stored > m[address] + 3600)
            &&& m.contains_key(address) && after[address] != m[address] ==> after[address] == stored
        }),
{
}

/// A disconnect at `now` refreshes a timestamp to `now` whenever it is more than twenty
/// minutes old, however old, and leaves a more recent one as it is.
pub proof fn lemma_connected_refresh(timestamp: u64, now: u64)
    ensures
        now - timestamp > 20 * 60 ==> connected_timestamp(timestamp, now) == now,
        now - timestamp <= 20 * 60 ==> connected_timestamp(timestamp, now) == timestamp,
{
}

/// An entry whose timestamp lies within the last thirty days, or at most ten minutes
/// ahead, is not terrible; timestamps further out on either side are.
pub proof fn lemma_terrible_window(timestamp: u64, now: u64)
    ensures
        !terrible(timestamp, now) <==> (now - ADDRMAN_HORIZON <= timestamp <= now + 600),
{
}

/// A disconnect never lowers a timestamp, and a second disconnect at the same moment
/// changes nothing.
pub proof fn lemma_connected_monotone(timestamp: u64, now: u64)
    ensures
        connected_timestamp(timestamp, now) >= timestamp,
        connected_timestamp(connected_timestamp(timestamp, now), now) == connected_timestamp(
            timestamp,
            now,
        ),
{
}

} // verus!
