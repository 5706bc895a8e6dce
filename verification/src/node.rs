//! A single node: its connections, its addrman, its GETADDR caches, and how it reacts
//! to each protocol message.
use std::collections::{BTreeMap, HashSet};

use rand::rngs::StdRng;
use vstd::prelude::*;

use crate::address::{addr_key, lemma_key_injective, AddressId, AddressRegistry, NetworkSet, NetworkType};
use crate::addrman::{spec_add, terrible, Addrman, AddrmanEntry};
use crate::maps::btree_keys;
use crate::random::{choose_multiple, random_below};
use crate::statistics::NodeStatistics;

verus! {

broadcast use {vstd::std_specs::hash::group_hash_axioms, vstd::std_specs::btree::group_btree_axioms};

pub type NodeId = usize;

pub const GETADDR_CACHE_LIFETIME_BASE: u64 = 21 * 3600;

pub const GETADDR_CACHE_LIFETIME_RAND: u64 = 6 * 3600;

pub const DAYS: u64 = 86400;

pub const HOURS: u64 = 3600;

/// Penalty subtracted from every relayed timestamp.
pub const RELAY_PENALTY: u64 = 2 * 3600;

/// Announcements with more addresses than this are never relayed.
pub const MAX_RELAY_BATCH: usize = 10;

/// Only addresses announced within this many seconds are relayed.
pub const RELAY_FRESHNESS: u64 = 10 * 60;

/// Seconds after a connection is made before the first self-announcement to that peer.
pub const SELF_ANNOUNCE_DELAY: u64 = 30;

/// Seconds after a relay is queued before the queue is sent.
pub const RELAY_FLUSH_DELAY: u64 = 30;

/// The self-announcement timer runs in steps of this many seconds ...
pub const ANNOUNCE_STEP: u64 = 600;

/// ... and fires in each step with one chance in this many, so that the time to the
/// next self-announcement is spread about exponentially with a mean of about 24 hours.
pub const ANNOUNCE_STEP_ODDS: u64 = 144;

/// The timer is held to this many steps (30 days).
pub const ANNOUNCE_MAX_STEPS: u64 = 4320;

/// The longest time to the next self-announcement.
pub open spec fn max_announce_delay() -> int {
    ANNOUNCE_STEP * (ANNOUNCE_MAX_STEPS + 1)
}

pub struct Peer {
    pub addr: AddressId,
    pub getaddr_sent: bool,
    pub getaddr_recvd: bool,
    /// Addresses this peer already knows (by key); checked before queuing relays to them.
    /// Reset before each periodic self-announcement so it always goes out.
    pub addr_known: HashSet<u128>,
    /// Addresses queued for relay to this peer.
    /// Mirrors Bitcoin Core's per-peer m_addrs_to_send vector.
    pub pending_relay: Vec<AddrPayload>,
}

/// GETADDR cache for one network type. Timestamps are frozen at build time.
pub struct GetaddrCache {
    pub entries: Vec<AddrPayload>,
    pub expires_at: u64,
}

/// The GETADDR caches of a node, at most one per network.
pub struct GetaddrCaches {
    pub onion: Option<GetaddrCache>,
    pub clearnet: Option<GetaddrCache>,
}

impl GetaddrCaches {
    pub open spec fn cache(&self, network: NetworkType) -> Option<GetaddrCache> {
        match network {
            NetworkType::Onion => self.onion,
            NetworkType::Clearnet => self.clearnet,
        }
    }

    pub fn new() -> (r: Self)
        ensures
            forall|n: NetworkType| #[trigger] r.cache(n) is None,
    {
        GetaddrCaches { onion: None, clearnet: None }
    }

    pub fn get(&self, network: NetworkType) -> (r: Option<&GetaddrCache>)
        ensures
            r == match self.cache(network) {
                Some(c) => Some(&c),
                None => None::<&GetaddrCache>,
            },
    {
        match network {
            NetworkType::Onion => match &self.onion {
                Some(c) => Some(c),
                None => None,
            },
            NetworkType::Clearnet => match &self.clearnet {
                Some(c) => Some(c),
                None => None,
            },
        }
    }

    pub fn insert(&mut self, network: NetworkType, cache: GetaddrCache)
        ensures
            final(self).cache(network) == Some(cache),
            forall|n: NetworkType|
                n != network ==> #[trigger] final(self).cache(n) == old(self).cache(n),
    {
        match network {
            NetworkType::Onion => self.onion = Some(cache),
            NetworkType::Clearnet => self.clearnet = Some(cache),
        }
    }
}

#[derive(Clone, Copy, PartialEq, Eq, Debug, Structural)]
pub enum GetaddrCacheAlgorithm {
    /// Real timestamp from addrman (Bitcoin Core baseline).
    Current,
    /// now - rand_uniform(8, 12) days, sampled independently per address.
    FixedOffset,
    /// Same network as the GETADDR requester → real timestamp; cross-network → now - 5 days.
    NetworkBased,
}

#[derive(Clone, Copy, PartialEq, Eq, Debug, Structural)]
pub struct AddrPayload {
    pub address: AddressId,
    pub timestamp: u64,
}

pub enum NetworkMessage {
    GetAddr,
    Addr(Vec<AddrPayload>),
    AddrAnnounce(Vec<AddrPayload>),
}

pub enum Event {
    SendMessage { from: AddressId, to: AddressId, msg: NetworkMessage, at: u64 },
    NodeJoin { at: u64 },
    NodeLeave { node_id: NodeId, at: u64 },
    /// An outbound peer disconnected; the node should find a replacement on that network.
    NodeReconnect { node_id: NodeId, network: NetworkType, at: u64 },
    /// Fire self-announcement to a single peer.
    SelfAnnounce { node_id: NodeId, peer_addr: AddressId, at: u64 },
    /// Flush the pending relay queue to a peer.
    /// Mirrors Bitcoin Core's per-peer m_next_addr_send timer in SendMessages.
    FlushAddrQueue { node_id: NodeId, peer_addr: AddressId, at: u64 },
}

/// `e` sends a GETADDR.
pub open spec fn is_getaddr(e: Event, from: AddressId, to: AddressId, at: u64) -> bool {
    e == Event::SendMessage { from, to, msg: NetworkMessage::GetAddr, at }
}

/// `e` sends a GETADDR response carrying `payloads`.
pub open spec fn is_addr(
    e: Event,
    from: AddressId,
    to: AddressId,
    at: u64,
    payloads: Seq<AddrPayload>,
) -> bool {
    match e {
        Event::SendMessage { from: f, to: t, msg: NetworkMessage::Addr(v), at: a } => f == from
            && t == to && a == at && v@ == payloads,
        _ => false,
    }
}

/// `e` sends an address announcement carrying `payloads`.
pub open spec fn is_announce(
    e: Event,
    from: AddressId,
    to: AddressId,
    at: u64,
    payloads: Seq<AddrPayload>,
) -> bool {
    match e {
        Event::SendMessage { from: f, to: t, msg: NetworkMessage::AddrAnnounce(v), at: a } => f
            == from && t == to && a == at && v@ == payloads,
        _ => false,
    }
}

/// `now` plus `d` seconds, held at the largest time.
pub open spec fn later(now: u64, d: u64) -> u64 {
    if now + d <= u64::MAX {
        (now + d) as u64
    } else {
        u64::MAX
    }
}

/// `now` plus `d` seconds, held at the largest time (see `later`).
pub fn later_by(now: u64, d: u64) -> (r: u64)
    ensures
        r == later(now, d),
{
    now.saturating_add(d)
}

/// The timer for node `id`'s next self-announcement to `peer`, due at `at`.
pub open spec fn announce_timer(id: NodeId, peer: AddressId, at: u64) -> Event {
    Event::SelfAnnounce { node_id: id, peer_addr: peer, at }
}

/// Seconds until the next self-announcement to a peer. It approximates, in integers,
/// the exponential delay with a 24-hour mean of Bitcoin Core's per-peer timer: the timer
/// fires in each ten-minute step with odds 1 in 144 (a geometric number of whole steps,
/// mean 24 hours), at a uniform second within the step it fires in; the number of steps
/// is capped near 30 days, where the exponential's tail is negligible.
pub fn next_announce_delay(rng: &mut StdRng) -> (r: u64)
    ensures
        1 <= r <= max_announce_delay(),
{
    let mut steps: u64 = 0;
    while steps < ANNOUNCE_MAX_STEPS
        invariant
            steps <= ANNOUNCE_MAX_STEPS,
        decreases ANNOUNCE_MAX_STEPS - steps,
    {
        if random_below(rng, 0, ANNOUNCE_STEP_ODDS) == 0 {
            break;
        }
        steps = steps + 1;
    }
    steps * ANNOUNCE_STEP + random_below(rng, 1, ANNOUNCE_STEP + 1)
}

/// The relay queue for `a` was empty before and holds relays after.
pub open spec fn newly_pending(pre: Node, post: Node, a: AddressId) -> bool {
    &&& post.has_peer(a)
    &&& post.peer(a).pending_relay@.len() > 0
    &&& pre.peer(a).pending_relay@.len() == 0
}

/// The event that flushes the relay queue of node `id` for `peer`, `RELAY_FLUSH_DELAY`
/// after `at`.
pub open spec fn flush_event(id: NodeId, peer: AddressId, at: u64) -> Event {
    Event::FlushAddrQueue { node_id: id, peer_addr: peer, at: later(at, RELAY_FLUSH_DELAY) }
}

/// `e` flushes the relay queue of node `id` for `peer`, `RELAY_FLUSH_DELAY` after `at`.
pub open spec fn flush_timer(e: Event, id: NodeId, at: u64) -> bool {
    e matches Event::FlushAddrQueue { node_id, at: t, .. } && node_id == id && t == later(at, RELAY_FLUSH_DELAY)
}

/// The first address of a list on the given network.
pub open spec fn first_on(s: Seq<AddressId>, network: NetworkType) -> Option<AddressId>
    decreases s.len(),
{
    if s.len() == 0 {
        None
    } else if s[0].network == network {
        Some(s[0])
    } else {
        first_on(s.drop_first(), network)
    }
}

proof fn lemma_first_on(s: Seq<AddressId>, network: NetworkType, i: int)
    requires
        0 <= i < s.len(),
        s[i].network == network,
        forall|j: int| 0 <= j < i ==> #[trigger] s[j].network != network,
    ensures
        first_on(s, network) == Some(s[i]),
    decreases i,
{
    if i > 0 {
        lemma_first_on(s.drop_first(), network, i - 1);
    }
}

/// A list holding an address on a network has a first address there.
pub proof fn lemma_first_on_some(s: Seq<AddressId>, a: AddressId)
    requires
        s.contains(a),
    ensures
        first_on(s, a.network) is Some,
        (first_on(s, a.network)->0).network == a.network,
        s.contains(first_on(s, a.network)->0),
    decreases s.len(),
{
    if s[0].network != a.network {
        let i = choose|i: int| 0 <= i < s.len() && s[i] == a;
        assert(s.drop_first()[i - 1] == a);
        lemma_first_on_some(s.drop_first(), a);
        let f = first_on(s.drop_first(), a.network)->0;
        let j = choose|j: int| 0 <= j < s.drop_first().len() && s.drop_first()[j] == f;
        assert(s[j + 1] == f);
    }
}

/// The first address on a network is one of the list's addresses.
pub proof fn lemma_first_on_contains(s: Seq<AddressId>, n: NetworkType)
    requires
        first_on(s, n) is Some,
    ensures
        s.contains(first_on(s, n)->0),
        (first_on(s, n)->0).network == n,
    decreases s.len(),
{
    if s[0].network != n {
        lemma_first_on_contains(s.drop_first(), n);
        let f = first_on(s.drop_first(), n)->0;
        let j = choose|j: int| 0 <= j < s.drop_first().len() && s.drop_first()[j] == f;
        assert(s[j + 1] == f);
    } else {
        assert(s[0] == first_on(s, n)->0);
    }
}

proof fn lemma_first_on_none(s: Seq<AddressId>, network: NetworkType)
    requires
        forall|j: int| 0 <= j < s.len() ==> #[trigger] s[j].network != network,
    ensures
        first_on(s, network) is None,
    decreases s.len(),
{
    if s.len() > 0 {
        lemma_first_on_none(s.drop_first(), network);
    }
}

/// The penalty an announced address carries: none when the sender announces its own
/// address, two hours otherwise.
pub open spec fn announce_penalty(p: AddrPayload, sender: Option<AddressId>) -> u64 {
    if sender == Some(p.address) {
        0
    } else {
        RELAY_PENALTY
    }
}

/// The address map after adding each payload in turn.
pub open spec fn add_payloads(
    m: Map<AddressId, u64>,
    ps: Seq<AddrPayload>,
    sender: Option<AddressId>,
    now: u64,
) -> Map<AddressId, u64>
    decreases ps.len(),
{
    if ps.len() == 0 {
        m
    } else {
        let p = ps.last();
        spec_add(
            add_payloads(m, ps.drop_last(), sender, now),
            p.address,
            p.timestamp,
            announce_penalty(p, sender),
            now,
        )
    }
}

/// The timestamp a cache entry gets under each algorithm.
pub open spec fn cached_timestamp_ok(
    algo: GetaddrCacheAlgorithm,
    entry: AddrmanEntry,
    cache_network: NetworkType,
    now: u64,
    r: u64,
) -> bool {
    match algo {
        GetaddrCacheAlgorithm::Current => r == entry.timestamp,
        GetaddrCacheAlgorithm::FixedOffset => now - 12 * DAYS <= r <= now - 8 * DAYS && (now - r)
            % (DAYS as int) == 0,
        GetaddrCacheAlgorithm::NetworkBased => r == if entry.address.network == cache_network {
            entry.timestamp as int
        } else {
            now - 5 * DAYS
        },
    }
}

/// The subtraction the algorithm makes stays above zero.
pub open spec fn stamp_fits(
    algo: GetaddrCacheAlgorithm,
    entry_network: NetworkType,
    cache_network: NetworkType,
    now: u64,
) -> bool {
    match algo {
        GetaddrCacheAlgorithm::Current => true,
        GetaddrCacheAlgorithm::FixedOffset => now >= 12 * DAYS,
        GetaddrCacheAlgorithm::NetworkBased => entry_network != cache_network ==> now >= 5 * DAYS,
    }
}

/// The keys of the addresses in a list of payloads.
pub open spec fn payload_keys(ps: Seq<AddrPayload>) -> Set<u128> {
    Set::new(|k: u128| exists|i: int| 0 <= i < ps.len() && addr_key(ps[i].address) == k)
}

/// An address announced no more than ten minutes before `now`.
pub open spec fn relay_fresh(p: AddrPayload, now: u64) -> bool {
    p.timestamp >= now - RELAY_FRESHNESS
}

/// One payload offered to a peer for relay: queued and marked known unless the peer
/// already knew the address.
pub open spec fn relay_step(old: Peer, new: Peer, payload: AddrPayload) -> bool {
    &&& new.addr == old.addr
    &&& new.getaddr_sent == old.getaddr_sent
    &&& new.getaddr_recvd == old.getaddr_recvd
    &&& if old.addr_known@.contains(addr_key(payload.address)) {
        &&& new.addr_known@ == old.addr_known@
        &&& new.pending_relay@ == old.pending_relay@
    } else {
        &&& new.addr_known@ == old.addr_known@.insert(addr_key(payload.address))
        &&& new.pending_relay@ == old.pending_relay@.push(payload)
    }
}

/// `new` is `old` with relays queued from `addrs`: the queue grows only at its end, by
/// fresh payloads of `addrs`, each for an address the peer did not know and no address
/// twice; exactly those addresses become known.
pub open spec fn relays_queued(old: Peer, new: Peer, addrs: Seq<AddrPayload>, now: u64) -> bool {
    let n0 = old.pending_relay@.len();
    let added = new.pending_relay@.skip(n0 as int);
    &&& new.addr == old.addr
    &&& new.getaddr_sent == old.getaddr_sent
    &&& new.getaddr_recvd == old.getaddr_recvd
    &&& n0 <= new.pending_relay@.len()
    &&& new.pending_relay@.take(n0 as int) == old.pending_relay@
    &&& forall|i: int|
        0 <= i < added.len() ==> addrs.contains(#[trigger] added[i]) && relay_fresh(added[i], now)
            && !old.addr_known@.contains(addr_key(added[i].address))
    &&& forall|i: int, j: int|
        0 <= i < j < added.len() ==> #[trigger] added[i].address != #[trigger] added[j].address
    &&& new.addr_known@ == old.addr_known@.union(payload_keys(added))
}

/// Every relay queued on top of `old`'s queue names an address still active in `reg`:
/// addresses of nodes that left the network are not passed on.
pub open spec fn relays_active(old: Peer, new: Peer, reg: AddressRegistry) -> bool {
    let added = new.pending_relay@.skip(old.pending_relay@.len() as int);
    forall|i: int| 0 <= i < added.len() ==> reg.record(#[trigger] added[i].address).is_active
}

proof fn lemma_relays_active_step(p0: Peer, p1: Peer, p2: Peer, reg: AddressRegistry, payload: AddrPayload)
    requires
        relays_active(p0, p1, reg),
        p0.pending_relay@.len() <= p1.pending_relay@.len(),
        relay_step(p1, p2, payload),
        reg.record(payload.address).is_active,
    ensures
        relays_active(p0, p2, reg),
{
    let n0 = p0.pending_relay@.len() as int;
    let a1 = p1.pending_relay@.skip(n0);
    let a2 = p2.pending_relay@.skip(n0);
    assert forall|i: int| 0 <= i < a2.len() implies reg.record(#[trigger] a2[i].address).is_active by {
        if i < a1.len() {
            assert(a2[i] == a1[i]);
        }
    }
}

/// Payload `i` of an announcement that may be relayed: fresh, naming an address still
/// active and carried by no other payload of the announcement, which no peer but the
/// sender knows yet.
pub open spec fn relay_case(
    pre: Node,
    from: AddressId,
    addrs: Seq<AddrPayload>,
    i: int,
    now: u64,
    reg: AddressRegistry,
) -> bool {
    &&& 0 <= i < addrs.len()
    &&& pre.announce_eligible(from, addrs)
    &&& relay_fresh(addrs[i], now)
    &&& reg.record(addrs[i].address).is_active
    &&& occurrences(addrs, addr_key(addrs[i].address)) == 1
    &&& forall|k: u128|
        k != addr_key(from) && #[trigger] pre.peers_view().contains_key(k) ==> !pre.peers_view()[k].addr_known@.contains(
            addr_key(addrs[i].address),
        )
}

/// The address of such a payload went to two peers if it listens, to one or two
/// otherwise, or to every candidate when there are fewer.
pub open spec fn relay_count_ok(
    pre: Node,
    post: Node,
    from: AddressId,
    addrs: Seq<AddrPayload>,
    i: int,
    reg: AddressRegistry,
) -> bool {
    let c = pre.relay_candidate_count(from) as int;
    let n = relayed_to(pre.peers_view(), post.peers_view(), from, addr_key(addrs[i].address)).len() as int;
    if reg.record(addrs[i].address).is_reachable {
        n == (if c < 2 { c } else { 2 })
    } else {
        (if c < 1 { c } else { 1 }) <= n <= (if c < 2 { c } else { 2 })
    }
}

/// Offering a payload that nobody but the sender knew, before or now, to distinct
/// targets makes exactly those targets learn it.
proof fn lemma_single_relay(
    pre: Map<u128, Peer>,
    cur: Map<u128, Peer>,
    next: Map<u128, Peer>,
    from: AddressId,
    p: AddrPayload,
    targets: Seq<AddressId>,
)
    requires
        cur.dom() == pre.dom(),
        next.dom() == pre.dom(),
        forall|k: u128| #[trigger]
            cur.contains_key(k) ==> if (exists|j: int| 0 <= j < targets.len() && addr_key(targets[j]) == k) {
                relay_step(cur[k], next[k], p)
            } else {
                next[k] == cur[k]
            },
        forall|k: u128|
            k != addr_key(from) && #[trigger] pre.contains_key(k) ==> !pre[k].addr_known@.contains(addr_key(p.address))
                && !cur[k].addr_known@.contains(addr_key(p.address)),
        targets.no_duplicates(),
        forall|j: int| 0 <= j < targets.len() ==> pre.contains_key(addr_key(#[trigger] targets[j])) && targets[j] != from,
    ensures
        relayed_to(pre, next, from, addr_key(p.address)).len() == targets.len(),
{
    let a = addr_key(p.address);
    let ts = targets.map_values(|t: AddressId| addr_key(t));
    assert forall|x: int, y: int| 0 <= x < ts.len() && 0 <= y < ts.len() && x != y implies ts[x] != ts[y] by {
        lemma_key_injective(targets[x], targets[y]);
    }
    assert(relayed_to(pre, next, from, a) =~= ts.to_set()) by {
        assert forall|k: u128| relayed_to(pre, next, from, a).contains(k) implies ts.to_set().contains(k) by {
            if !(exists|j: int| 0 <= j < targets.len() && addr_key(targets[j]) == k) {
                assert(next[k] == cur[k]);
            } else {
                let j = choose|j: int| 0 <= j < targets.len() && addr_key(targets[j]) == k;
                assert(ts[j] == k);
            }
        }
        assert forall|k: u128| ts.to_set().contains(k) implies relayed_to(pre, next, from, a).contains(k) by {
            let j = choose|j: int| 0 <= j < ts.len() && ts[j] == k;
            assert(addr_key(targets[j]) == k);
            lemma_key_injective(targets[j], from);
            assert(pre.contains_key(k));
            assert(cur.contains_key(k));
        }
    }
    ts.unique_seq_to_set();
}

/// How many payloads of `s` carry the address with key `a`.
pub open spec fn occurrences(s: Seq<AddrPayload>, a: u128) -> nat
    decreases s.len(),
{
    if s.len() == 0 {
        0
    } else {
        occurrences(s.drop_last(), a) + if addr_key(s.last().address) == a {
            1nat
        } else {
            0nat
        }
    }
}

/// The outbound peers, the sender left out, that learned the address with key `a`:
/// exactly those that had it queued for relay.
pub open spec fn relayed_to(
    pre: Map<u128, Peer>,
    post: Map<u128, Peer>,
    from: AddressId,
    a: u128,
) -> Set<u128> {
    Set::new(
        |k: u128|
            k != addr_key(from) && pre.contains_key(k) && post[k].addr_known@.contains(a)
                && !pre[k].addr_known@.contains(a),
    )
}

/// No address of `addrs` reached more than two peers per payload that carried it.
pub open spec fn fanout_ok(pre: Map<u128, Peer>, post: Map<u128, Peer>, from: AddressId, addrs: Seq<AddrPayload>) -> bool {
    forall|a: u128|
        #[trigger] relayed_to(pre, post, from, a).finite() && relayed_to(pre, post, from, a).len() <= 2
            * (occurrences(addrs, a) as int)
}

/// A payload that queued nothing keeps the fan-out bound.
proof fn lemma_fanout_extend(pre: Map<u128, Peer>, post: Map<u128, Peer>, from: AddressId, addrs: Seq<AddrPayload>, i: int)
    requires
        0 <= i < addrs.len(),
        fanout_ok(pre, post, from, addrs.take(i)),
    ensures
        fanout_ok(pre, post, from, addrs.take(i + 1)),
{
    assert(addrs.take(i + 1).drop_last() =~= addrs.take(i));
    assert forall|a: u128|
        #[trigger] relayed_to(pre, post, from, a).finite() && relayed_to(pre, post, from, a).len() <= 2 * (occurrences(
            addrs.take(i + 1),
            a,
        ) as int) by {
        assert(relayed_to(pre, post, from, a).finite());
        assert(occurrences(addrs.take(i + 1), a) >= occurrences(addrs.take(i), a));
    }
}

/// A list of payloads carrying each address at most once carries each at most once.
pub proof fn lemma_occurrences_distinct(s: Seq<AddrPayload>, a: u128)
    requires
        forall|i: int, j: int|
            0 <= i < j < s.len() ==> #[trigger] s[i].address != #[trigger] s[j].address,
    ensures
        occurrences(s, a) <= 1,
    decreases s.len(),
{
    if s.len() > 0 {
        let t = s.drop_last();
        lemma_occurrences_distinct(t, a);
        if addr_key(s.last().address) == a && occurrences(t, a) == 1 {
            lemma_occurrences_some(t, a);
            let i = choose|i: int| 0 <= i < t.len() && addr_key(t[i].address) == a;
            lemma_key_injective(t[i].address, s.last().address);
            assert(s[i].address != s[s.len() - 1].address);
        }
    }
}

proof fn lemma_occurrences_some(s: Seq<AddrPayload>, a: u128)
    requires
        occurrences(s, a) > 0,
    ensures
        exists|i: int| 0 <= i < s.len() && addr_key(s[i].address) == a,
    decreases s.len(),
{
    if addr_key(s.last().address) != a {
        lemma_occurrences_some(s.drop_last(), a);
        let i = choose|i: int| 0 <= i < s.drop_last().len() && addr_key(s.drop_last()[i].address) == a;
        assert(s[i] == s.drop_last()[i]);
    } else {
        assert(addr_key(s[s.len() - 1].address) == a);
    }
}

proof fn lemma_occurrences_at(s: Seq<AddrPayload>, i: int, a: u128)
    requires
        0 <= i < s.len(),
        addr_key(s[i].address) == a,
    ensures
        occurrences(s, a) >= 1,
        forall|j: int| 0 <= j < s.len() && j != i && addr_key(#[trigger] s[j].address) == a ==> occurrences(s, a) >= 2,
    decreases s.len(),
{
    let t = s.drop_last();
    if i == s.len() - 1 {
        assert forall|j: int| 0 <= j < s.len() && j != i && addr_key(#[trigger] s[j].address) == a implies occurrences(
            s,
            a,
        ) >= 2 by {
            assert(t[j] == s[j]);
            lemma_occurrences_at(t, j, a);
        }
    } else {
        assert(t[i] == s[i]);
        lemma_occurrences_at(t, i, a);
        assert forall|j: int| 0 <= j < s.len() && j != i && addr_key(#[trigger] s[j].address) == a implies occurrences(
            s,
            a,
        ) >= 2 by {
            if j < s.len() - 1 {
                assert(t[j] == s[j]);
            }
        }
    }
}

/// A payload whose address no other payload carries: no payload before it carries it,
/// and every other payload carries another address.
proof fn lemma_occurrences_once(s: Seq<AddrPayload>, i: int)
    requires
        0 <= i < s.len(),
        occurrences(s, addr_key(s[i].address)) == 1,
    ensures
        occurrences(s.take(i), addr_key(s[i].address)) == 0,
        forall|j: int| 0 <= j < s.len() && j != i ==> addr_key(#[trigger] s[j].address) != addr_key(s[i].address),
{
    let a = addr_key(s[i].address);
    lemma_occurrences_at(s, i, a);
    if occurrences(s.take(i), a) > 0 {
        lemma_occurrences_some(s.take(i), a);
        let j = choose|j: int| 0 <= j < s.take(i).len() && addr_key(s.take(i)[j].address) == a;
        assert(s[j] == s.take(i)[j]);
    }
}

/// Before payload `i` of an announcement is offered, no peer but the sender has learned
/// its address from the payloads before it, when no other payload carries it.
proof fn lemma_relay_case_untouched(
    pre: Node,
    cur: Map<u128, Peer>,
    from: AddressId,
    addrs: Seq<AddrPayload>,
    i: int,
    now: u64,
    reg: AddressRegistry,
)
    requires
        relay_case(pre, from, addrs, i, now, reg),
        fanout_ok(pre.peers_view(), cur, from, addrs.take(i)),
        cur.dom() == pre.peers_view().dom(),
    ensures
        forall|k: u128|
            k != addr_key(from) && #[trigger] pre.peers_view().contains_key(k) ==> !pre.peers_view()[k].addr_known@.contains(
                addr_key(addrs[i].address),
            ) && !cur[k].addr_known@.contains(addr_key(addrs[i].address)),
{
    let a = addr_key(addrs[i].address);
    lemma_occurrences_once(addrs, i);
    let r = relayed_to(pre.peers_view(), cur, from, a);
    assert(r.finite() && r.len() <= 0);
    assert forall|k: u128|
        k != addr_key(from) && #[trigger] pre.peers_view().contains_key(k) implies !cur[k].addr_known@.contains(a) by {
        if cur[k].addr_known@.contains(a) {
            assert(r.contains(k));
            vstd::set_lib::lemma_set_empty_equivalency_len(r);
        }
    }
}

/// Offering payload `p` to `targets` adds at most one new holder of its address per
/// target, and no new holder of any other address.
proof fn lemma_relay_step_fanout(
    pre: Map<u128, Peer>,
    cur: Map<u128, Peer>,
    next: Map<u128, Peer>,
    from: AddressId,
    p: AddrPayload,
    targets: Seq<AddressId>,
    a: u128,
)
    requires
        cur.dom() == pre.dom(),
        next.dom() == pre.dom(),
        forall|k: u128| #[trigger]
            cur.contains_key(k) ==> if (exists|j: int| 0 <= j < targets.len() && addr_key(targets[j]) == k) {
                relay_step(cur[k], next[k], p)
            } else {
                next[k] == cur[k]
            },
        relayed_to(pre, cur, from, a).finite(),
    ensures
        relayed_to(pre, next, from, a).finite(),
        relayed_to(pre, next, from, a).len() <= relayed_to(pre, cur, from, a).len() + if addr_key(
            p.address,
        ) == a {
            targets.len() as int
        } else {
            0int
        },
        addr_key(p.address) != a ==> relayed_to(pre, next, from, a) == relayed_to(pre, cur, from, a),
{
    broadcast use vstd::seq_lib::seq_to_set_is_finite;

    let old_set = relayed_to(pre, cur, from, a);
    let new_set = relayed_to(pre, next, from, a);
    if addr_key(p.address) != a {
        assert forall|k: u128| new_set.contains(k) <==> old_set.contains(k) by {
            if pre.contains_key(k) {
                assert(cur.contains_key(k));
            }
        }
        assert(new_set =~= old_set);
    } else {
        let ts = targets.map_values(|t: AddressId| addr_key(t));
        let t_set = ts.to_set();
        assert forall|k: u128| new_set.contains(k) implies old_set.union(t_set).contains(k) by {
            assert(cur.contains_key(k));
            if exists|j: int| 0 <= j < targets.len() && addr_key(targets[j]) == k {
                let j = choose|j: int| 0 <= j < targets.len() && addr_key(targets[j]) == k;
                assert(ts[j] == k);
                assert(t_set.contains(k));
            }
        }
        vstd::set_lib::lemma_len_union(old_set, t_set);
        vstd::set_lib::lemma_len_subset(new_set, old_set.union(t_set));
        ts.lemma_cardinality_of_set();
    }
}

pub proof fn lemma_relays_queued_refl(p: Peer, addrs: Seq<AddrPayload>, now: u64)
    ensures
        relays_queued(p, p, addrs, now),
{
    let n0 = p.pending_relay@.len();
    assert(p.pending_relay@.take(n0 as int) =~= p.pending_relay@);
    assert(p.pending_relay@.skip(n0 as int) =~= Seq::<AddrPayload>::empty());
    assert(payload_keys(Seq::<AddrPayload>::empty()) =~= Set::<u128>::empty());
    assert(p.addr_known@.union(Set::<u128>::empty()) =~= p.addr_known@);
}

proof fn lemma_relays_queued_step(
    p0: Peer,
    p1: Peer,
    p2: Peer,
    addrs: Seq<AddrPayload>,
    now: u64,
    payload: AddrPayload,
)
    requires
        relays_queued(p0, p1, addrs, now),
        relay_step(p1, p2, payload),
        addrs.contains(payload),
        relay_fresh(payload, now),
    ensures
        relays_queued(p0, p2, addrs, now),
{
    let n0 = p0.pending_relay@.len();
    let added1 = p1.pending_relay@.skip(n0 as int);
    let added2 = p2.pending_relay@.skip(n0 as int);
    let pk = addr_key(payload.address);
    if !p1.addr_known@.contains(pk) {
        assert(added2 =~= added1.push(payload));
        assert(p2.pending_relay@.take(n0 as int) =~= p0.pending_relay@);
        assert(payload_keys(added2) =~= payload_keys(added1).insert(pk)) by {
            assert forall|k: u128| payload_keys(added1).insert(pk).contains(k) implies payload_keys(
                added2,
            ).contains(k) by {
                if k == pk {
                    assert(added2[added1.len() as int] == payload);
                } else {
                    let i = choose|i: int|
                        0 <= i < added1.len() && addr_key(added1[i].address) == k;
                    assert(added2[i] == added1[i]);
                }
            }
        }
        assert(p2.addr_known@ =~= p0.addr_known@.union(payload_keys(added2)));
        assert forall|i: int, j: int|
            0 <= i < j < added2.len() implies #[trigger] added2[i].address
            != #[trigger] added2[j].address by {
            if j == added1.len() {
                assert(payload_keys(added1).contains(addr_key(added1[i].address)));
                assert(p1.addr_known@.contains(addr_key(added1[i].address)));
            }
        }
        assert forall|i: int| 0 <= i < added2.len() implies addrs.contains(#[trigger] added2[i])
            && relay_fresh(added2[i], now) && !p0.addr_known@.contains(
            addr_key(added2[i].address),
        ) by {
            if i < added1.len() {
                assert(added2[i] == added1[i]);
            }
        }
    } else {
        assert(added2 =~= added1);
    }
}

pub struct Node {
    pub node_id: NodeId,
    pub addresses: Vec<AddressId>,
    /// Networks on which this node accepts inbound connections (has a listener).
    pub reachable_networks: NetworkSet,
    /// Networks this node initiates outbound connections to.
    pub outbound_networks: NetworkSet,
    pub out_peers: BTreeMap<u128, Peer>,
    pub in_peers: BTreeMap<u128, Peer>,
    pub addrman: Addrman,
    pub getaddr_cache: GetaddrCaches,
    pub cache_algo: GetaddrCacheAlgorithm,
    pub node_statistics: NodeStatistics,
}

impl Peer {
    /// A peer as it stands right after the connection is made.
    pub open spec fn is_fresh(&self, addr: AddressId, getaddr_sent: bool) -> bool {
        &&& self.addr == addr
        &&& self.getaddr_sent == getaddr_sent
        &&& !self.getaddr_recvd
        &&& self.addr_known@ == Set::<u128>::empty()
        &&& self.pending_relay@ == Seq::<AddrPayload>::empty()
    }

    pub fn new(addr: AddressId, getaddr_sent: bool) -> (r: Peer)
        ensures
            r.is_fresh(addr, getaddr_sent),
    {
        Peer {
            addr,
            getaddr_sent,
            getaddr_recvd: false,
            addr_known: HashSet::new(),
            pending_relay: Vec::new(),
        }
    }
}

/// Every peer is stored under the key of its own address.
pub open spec fn peers_wf(m: Map<u128, Peer>) -> bool {
    forall|k: u128| #[trigger] m.contains_key(k) ==> addr_key(m[k].addr) == k
}

/// A GETADDR response built at `now` for requesters on `network`.
pub open spec fn cache_built(
    addrman: Addrman,
    algo: GetaddrCacheAlgorithm,
    c: GetaddrCache,
    network: NetworkType,
    now: u64,
) -> bool {
    &&& now + GETADDR_CACHE_LIFETIME_BASE <= c.expires_at
    &&& c.expires_at < now + GETADDR_CACHE_LIFETIME_BASE + GETADDR_CACHE_LIFETIME_RAND
    &&& c.entries@.len() == addrman.response_size(now)
    &&& forall|i: int|
        0 <= i < c.entries@.len() ==> {
            &&& addrman@.contains_key(#[trigger] c.entries@[i].address)
            &&& !terrible(addrman@[c.entries@[i].address], now)
            &&& cached_timestamp_ok(
                algo,
                addrman.entry(c.entries@[i].address),
                network,
                now,
                c.entries@[i].timestamp,
            )
        }
    &&& forall|i: int, j: int|
        0 <= i < j < c.entries@.len() ==> #[trigger] c.entries@[i].address
            != #[trigger] c.entries@[j].address
}

/// Every live address in the addrman can be given a cache timestamp without underflow.
pub open spec fn cache_inputs_fit(
    addrman: Addrman,
    algo: GetaddrCacheAlgorithm,
    network: NetworkType,
    now: u64,
) -> bool {
    forall|a: AddressId|
        #[trigger] addrman@.contains_key(a) && !terrible(addrman@[a], now) ==> stamp_fits(
            algo,
            a.network,
            network,
            now,
        )
}

impl Node {
    pub open spec fn wf(&self) -> bool {
        &&& self.addrman.wf()
        &&& peers_wf(self.out_peers@)
        &&& peers_wf(self.in_peers@)
    }

    pub open spec fn has_out(&self, a: AddressId) -> bool {
        self.out_peers@.contains_key(addr_key(a))
    }

    pub open spec fn has_in(&self, a: AddressId) -> bool {
        self.in_peers@.contains_key(addr_key(a))
    }

    pub open spec fn has_peer(&self, a: AddressId) -> bool {
        self.has_out(a) || self.has_in(a)
    }

    /// All peer records by key, an outbound record taking precedence over an inbound one.
    pub open spec fn peers_view(&self) -> Map<u128, Peer> {
        self.in_peers@.union_prefer_right(self.out_peers@)
    }

    /// The peer record for an address: outbound first, then inbound.
    pub open spec fn peer(&self, a: AddressId) -> Peer {
        if self.has_out(a) {
            self.out_peers@[addr_key(a)]
        } else {
            self.in_peers@[addr_key(a)]
        }
    }

    /// The node's own address on a network.
    pub open spec fn own_addr(&self, network: NetworkType) -> Option<AddressId> {
        first_on(self.addresses@, network)
    }

    /// The address the node announces to peers on a network: its own address there,
    /// if it listens on that network.
    pub open spec fn announce_addr(&self, network: NetworkType) -> Option<AddressId> {
        if self.reachable_networks.has(network) {
            first_on(self.addresses@, network)
        } else {
            None
        }
    }

    /// A GETADDR on `network` at `now` is answered from the existing cache.
    pub open spec fn cache_hit(&self, network: NetworkType, now: u64) -> bool {
        match self.getaddr_cache.cache(network) {
            Some(c) => now < c.expires_at,
            None => false,
        }
    }

    /// The fields that only peers, caches, addrman and counters change.
    pub open spec fn same_identity(&self, other: &Node) -> bool {
        &&& other.node_id == self.node_id
        &&& other.addresses == self.addresses
        &&& other.reachable_networks == self.reachable_networks
        &&& other.outbound_networks == self.outbound_networks
        &&& other.cache_algo == self.cache_algo
    }

    /// A node with no connections, an empty addrman and no caches.
    pub fn new(
        node_id: NodeId,
        addresses: Vec<AddressId>,
        reachable_networks: NetworkSet,
        outbound_networks: NetworkSet,
        cache_algo: GetaddrCacheAlgorithm,
    ) -> (r: Node)
        ensures
            r.wf(),
            r.node_id == node_id,
            r.addresses == addresses,
            r.reachable_networks == reachable_networks,
            r.outbound_networks == outbound_networks,
            r.cache_algo == cache_algo,
            r.out_peers@ == Map::<u128, Peer>::empty(),
            r.in_peers@ == Map::<u128, Peer>::empty(),
            r.addrman@ == Map::<AddressId, u64>::empty(),
            forall|n: NetworkType| #[trigger] r.getaddr_cache.cache(n) is None,
            r.node_statistics.all_zero(),
    {
        Node {
            node_id,
            addresses,
            reachable_networks,
            outbound_networks,
            out_peers: BTreeMap::new(),
            in_peers: BTreeMap::new(),
            addrman: Addrman::new(),
            getaddr_cache: GetaddrCaches::new(),
            cache_algo,
            node_statistics: NodeStatistics::default(),
        }
    }

    pub fn own_addr_for_network(&self, network: NetworkType) -> (r: AddressId)
        requires
            self.own_addr(network) is Some,
        ensures
            self.own_addr(network) == Some(r),
            r.network == network,
    {
        match self.find_own(network) {
            Some(a) => a,
            None => {
                proof {
                    assert(false);
                }
                self.addresses[0]
            },
        }
    }

    /// The node's first address on a network, if any.
    pub fn find_own(&self, network: NetworkType) -> (r: Option<AddressId>)
        ensures
            r == self.own_addr(network),
            r matches Some(a) ==> a.network == network,
    {
        let mut i: usize = 0;
        while i < self.addresses.len()
            invariant
                0 <= i <= self.addresses.len(),
                forall|j: int| 0 <= j < i ==> #[trigger] self.addresses@[j].network != network,
            decreases self.addresses.len() - i,
        {
            if self.addresses[i].network == network {
                proof {
                    lemma_first_on(self.addresses@, network, i as int);
                }
                return Some(self.addresses[i]);
            }
            i = i + 1;
        }
        proof {
            lemma_first_on_none(self.addresses@, network);
        }
        None
    }

    /// Whether every live addrman entry can be given a cache timestamp for requesters
    /// on `network` at `now`.
    pub fn stamps_fit(&self, network: NetworkType, now: u64) -> (r: bool)
        requires
            self.addrman.wf(),
        ensures
            r == cache_inputs_fit(self.addrman, self.cache_algo, network, now),
    {
        let keys = crate::maps::map_keys(&self.addrman.entries);
        let mut i: usize = 0;
        while i < keys.len()
            invariant
                self.addrman.wf(),
                keys@.to_set() == self.addrman.entries@.dom(),
                0 <= i <= keys.len(),
                forall|j: int|
                    0 <= j < i ==> {
                        let e = #[trigger] self.addrman.entries@[keys@[j]];
                        !terrible(e.timestamp, now) ==> stamp_fits(
                            self.cache_algo,
                            e.address.network,
                            network,
                            now,
                        )
                    },
            decreases keys.len() - i,
        {
            let k = keys[i];
            assert(keys@.to_set().contains(k)) by {
                assert(keys@.contains(k));
            }
            let e = match self.addrman.entries.get(&k) {
                Some(e) => *e,
                None => {
                    proof {
                        assert(false);
                    }
                    return false;
                },
            };
            if !e.is_terrible(now) {
                let fits = match self.cache_algo {
                    GetaddrCacheAlgorithm::Current => true,
                    GetaddrCacheAlgorithm::FixedOffset => now >= 12 * DAYS,
                    GetaddrCacheAlgorithm::NetworkBased => e.address.network == network || now >= 5
                        * DAYS,
                };
                if !fits {
                    proof {
                        let a = e.address;
                        assert(addr_key(a) == k);
                        assert(self.addrman@.contains_key(a));
                        self.addrman.lemma_entry(a);
                    }
                    return false;
                }
            }
            i = i + 1;
        }
        proof {
            assert forall|a: AddressId|
                #[trigger] self.addrman@.contains_key(a) && !terrible(
                    self.addrman@[a],
                    now,
                ) implies stamp_fits(self.cache_algo, a.network, network, now) by {
                let k = addr_key(a);
                assert(keys@.to_set().contains(k));
                let j = choose|j: int| 0 <= j < keys@.len() && keys@[j] == k;
                self.addrman.lemma_entry(a);
                assert(self.addrman.entries@[keys@[j]].address == a);
            }
        }
        true
    }

    /// Whether a GETADDR from `from` at `now` can be answered (see `getaddr_ready`).
    pub fn check_getaddr_ready(&self, from: AddressId, now: u64) -> (r: bool)
        requires
            self.wf(),
        ensures
            r == self.getaddr_ready(from, now),
    {
        let network = from.network;
        if !self.reachable_networks.contains(network) {
            return false;
        }
        let k = from.key();
        let recvd = match self.out_peers.get(&k) {
            Some(p) => p.getaddr_recvd,
            None => match self.in_peers.get(&k) {
                Some(p) => p.getaddr_recvd,
                None => {
                    return false;
                },
            },
        };
        if recvd {
            return false;
        }
        if self.find_own(network).is_none() {
            return false;
        }
        if self.node_statistics.getaddr_received == u64::MAX {
            return false;
        }
        let hit = match self.getaddr_cache.get(network) {
            Some(c) => now < c.expires_at,
            None => false,
        };
        if hit {
            return true;
        }
        now <= u64::MAX - (GETADDR_CACHE_LIFETIME_BASE + GETADDR_CACHE_LIFETIME_RAND)
            && self.stamps_fit(network, now)
    }

    /// Whether an announcement from `from` at `now` can be taken in (see `announce_ready`).
    pub fn check_announce_ready(
        &self,
        from: AddressId,
        addrs: &Vec<AddrPayload>,
        now: u64,
        registry: &AddressRegistry,
    ) -> (r: bool)
        requires
            self.wf(),
        ensures
            r == self.announce_ready(from, addrs@, now, registry),
    {
        if self.node_statistics.addr_announce_received == u64::MAX {
            return false;
        }
        if addrs.len() > MAX_RELAY_BATCH {
            return true;
        }
        let k = from.key();
        let sent = match self.out_peers.get(&k) {
            Some(p) => p.getaddr_sent,
            None => match self.in_peers.get(&k) {
                Some(p) => p.getaddr_sent,
                None => false,
            },
        };
        if sent {
            return true;
        }
        assert(self.announce_eligible(from, addrs@));
        let mut i: usize = 0;
        while i < addrs.len()
            invariant
                0 <= i <= addrs.len(),
                self.announce_eligible(from, addrs@),
                forall|j: int|
                    0 <= j < i && relay_fresh(#[trigger] addrs@[j], now) ==> registry.has(
                        addrs@[j].address,
                    ),
            decreases addrs.len() - i,
        {
            let p = addrs[i];
            let fresh = now < RELAY_FRESHNESS || p.timestamp >= now - RELAY_FRESHNESS;
            if fresh && registry.owner_of(p.address).is_none() {
                proof {
                    assert(relay_fresh(addrs@[i as int], now) && !registry.has(addrs@[i as int].address));
                }
                return false;
            }
            i = i + 1;
        }
        true
    }

    fn cache_timestamp(
        &self,
        entry: &AddrmanEntry,
        cache_network: NetworkType,
        now: u64,
        rng: &mut StdRng,
    ) -> (r: u64)
        requires
            stamp_fits(self.cache_algo, entry.address.network, cache_network, now),
        ensures
            cached_timestamp_ok(self.cache_algo, *entry, cache_network, now, r),
    {
        match self.cache_algo {
            GetaddrCacheAlgorithm::Current => entry.timestamp,
            GetaddrCacheAlgorithm::FixedOffset => {
                let d = random_below(rng, 8, 13);
                assert((d * DAYS) % (DAYS as int) == 0) by (nonlinear_arith)
                    requires
                        d >= 0,
                ;
                now - d * DAYS
            },
            GetaddrCacheAlgorithm::NetworkBased => {
                if entry.address.network == cache_network {
                    entry.timestamp
                } else {
                    now - 5 * DAYS
                }
            },
        }
    }

    fn build_cache(&mut self, network: NetworkType, now: u64, rng: &mut StdRng)
        requires
            old(self).wf(),
            now <= u64::MAX - (GETADDR_CACHE_LIFETIME_BASE + GETADDR_CACHE_LIFETIME_RAND),
            cache_inputs_fit(old(self).addrman, old(self).cache_algo, network, now),
        ensures
            final(self).wf(),
            final(self).same_identity(old(self)),
            final(self).out_peers == old(self).out_peers,
            final(self).in_peers == old(self).in_peers,
            final(self).addrman == old(self).addrman,
            final(self).node_statistics == old(self).node_statistics,
            forall|n: NetworkType|
                n != network ==> #[trigger] final(self).getaddr_cache.cache(n) == old(self).getaddr_cache.cache(n),
            final(self).getaddr_cache.cache(network) matches Some(c) && cache_built(
                old(self).addrman,
                old(self).cache_algo,
                c,
                network,
                now,
            ),
    {
        let selected = self.addrman.get_addr(now, rng);
        let mut entries: Vec<AddrPayload> = Vec::new();
        let mut i: usize = 0;
        while i < selected.len()
            invariant
                self.wf(),
                0 <= i <= selected.len(),
                entries.len() == i,
                self.cache_algo == old(self).cache_algo,
                self.addrman == old(self).addrman,
                cache_inputs_fit(self.addrman, self.cache_algo, network, now),
                forall|j: int|
                    0 <= j < selected.len() ==> {
                        &&& self.addrman@.contains_key(#[trigger] selected@[j].address)
                        &&& self.addrman.entry(selected@[j].address) == selected@[j]
                        &&& !terrible(selected@[j].timestamp, now)
                    },
                forall|j: int|
                    0 <= j < i ==> #[trigger] entries@[j].address == selected@[j].address
                        && cached_timestamp_ok(
                        self.cache_algo,
                        selected@[j],
                        network,
                        now,
                        entries@[j].timestamp,
                    ),
            decreases selected.len() - i,
        {
            let e = selected[i];
            proof {
                self.addrman.lemma_entry(e.address);
            }
            let ts = self.cache_timestamp(&e, network, now, rng);
            entries.push(AddrPayload { address: e.address, timestamp: ts });
            i = i + 1;
        }
        let extra = random_below(rng, 0, GETADDR_CACHE_LIFETIME_RAND);
        let cache = GetaddrCache {
            entries,
            expires_at: now + GETADDR_CACHE_LIFETIME_BASE + extra,
        };
        self.getaddr_cache.insert(network, cache);
        proof {
            let c = self.getaddr_cache.cache(network)->0;
            assert forall|j: int| 0 <= j < c.entries@.len() implies {
                &&& self.addrman@.contains_key(#[trigger] c.entries@[j].address)
                &&& !terrible(self.addrman@[c.entries@[j].address], now)
                &&& cached_timestamp_ok(
                    self.cache_algo,
                    self.addrman.entry(c.entries@[j].address),
                    network,
                    now,
                    c.entries@[j].timestamp,
                )
            } by {
                self.addrman.lemma_entry(selected@[j].address);
            }
            assert forall|j1: int, j2: int| 0 <= j1 < j2 < c.entries@.len() implies #[trigger] c.entries@[j1].address
                != #[trigger] c.entries@[j2].address by {
                assert(selected@[j1].address != selected@[j2].address);
            }
        }
    }

    /// What a GETADDR may demand of the node: the requester is a peer on a network the
    /// node listens on, has not asked before on this connection, and the node has an
    /// address there; and, when the cache must be rebuilt, the new expiry and the
    /// algorithm's timestamps fit in a u64.
    pub open spec fn getaddr_ready(&self, from: AddressId, now: u64) -> bool {
        &&& self.wf()
        &&& self.reachable_networks.has(from.network)
        &&& self.has_peer(from)
        &&& !self.peer(from).getaddr_recvd
        &&& self.own_addr(from.network) is Some
        &&& self.node_statistics.getaddr_received < u64::MAX
        &&& !self.cache_hit(from.network, now) ==> {
            &&& now <= u64::MAX - (GETADDR_CACHE_LIFETIME_BASE + GETADDR_CACHE_LIFETIME_RAND)
            &&& cache_inputs_fit(self.addrman, self.cache_algo, from.network, now)
        }
    }

    /// The node after answering a GETADDR from `from` at `now`, and the answer `r`.
    pub open spec fn getaddr_post(pre: Node, post: Node, from: AddressId, now: u64, r: Seq<Event>) -> bool {
        let n = from.network;
        let k = addr_key(from);
        &&& post.wf()
        &&& post.same_identity(&pre)
        &&& post.addrman == pre.addrman
        &&& post.node_statistics == (NodeStatistics {
            getaddr_received: (pre.node_statistics.getaddr_received + 1) as u64,
            ..pre.node_statistics
        })
        &&& post.out_peers@ == if pre.has_out(from) {
            pre.out_peers@.insert(k, Peer { getaddr_recvd: true, ..pre.out_peers@[k] })
        } else {
            pre.out_peers@
        }
        &&& post.in_peers@ == if pre.has_out(from) {
            pre.in_peers@
        } else {
            pre.in_peers@.insert(k, Peer { getaddr_recvd: true, ..pre.in_peers@[k] })
        }
        &&& forall|m: NetworkType|
            m != n ==> #[trigger] post.getaddr_cache.cache(m) == pre.getaddr_cache.cache(m)
        &&& if pre.cache_hit(n, now) {
            post.getaddr_cache.cache(n) == pre.getaddr_cache.cache(n)
        } else {
            post.getaddr_cache.cache(n) matches Some(c) && cache_built(
                pre.addrman,
                pre.cache_algo,
                c,
                n,
                now,
            )
        }
        &&& post.getaddr_cache.cache(n) is Some
        &&& r.len() == 1
        &&& is_addr(r[0], pre.own_addr(n)->0, from, now, post.getaddr_cache.cache(n)->0.entries@)
    }

    /// Answer a GETADDR: from the cache for the requester's network while it is valid,
    /// otherwise from a freshly built cache.
    pub fn receive_getaddr(&mut self, from: AddressId, now: u64, rng: &mut StdRng) -> (r: Vec<Event>)
        requires
            old(self).getaddr_ready(from, now),
        ensures
            Node::getaddr_post(*old(self), *final(self), from, now, r@),
            old(self).cache_hit(from.network, now) ==> *final(rng) == *old(rng),
    {
        let k = from.key();
        if self.out_peers.contains_key(&k) {
            match self.out_peers.remove(&k) {
                Some(p) => {
                    let mut p = p;
                    p.getaddr_recvd = true;
                    self.out_peers.insert(k, p);
                },
                None => {},
            }
        } else {
            match self.in_peers.remove(&k) {
                Some(p) => {
                    let mut p = p;
                    p.getaddr_recvd = true;
                    self.in_peers.insert(k, p);
                },
                None => {},
            }
        }
        self.node_statistics.getaddr_received = self.node_statistics.getaddr_received + 1;
        let network = from.network;
        let cache_hit = match self.getaddr_cache.get(network) {
            Some(c) => now < c.expires_at,
            None => false,
        };
        if !cache_hit {
            self.build_cache(network, now, rng);
        }
        let entries = match self.getaddr_cache.get(network) {
            Some(c) => copy_payloads(&c.entries),
            None => Vec::new(),
        };
        let own = self.own_addr_for_network(network);
        proof {
            assert(self.out_peers@ =~= (if old(self).has_out(from) {
                old(self).out_peers@.insert(k, Peer { getaddr_recvd: true, ..old(self).out_peers@[k] })
            } else {
                old(self).out_peers@
            }));
            assert(self.in_peers@ =~= (if old(self).has_out(from) {
                old(self).in_peers@
            } else {
                old(self).in_peers@.insert(k, Peer { getaddr_recvd: true, ..old(self).in_peers@[k] })
            }));
        }
        let mut r: Vec<Event> = Vec::new();
        r.push(Event::SendMessage { from: own, to: from, msg: NetworkMessage::Addr(entries), at: now });
        r
    }

    /// The node after taking in a GETADDR response `addrs` at `now`.
    pub open spec fn addr_post(pre: Node, post: Node, addrs: Seq<AddrPayload>, now: u64) -> bool {
        &&& post.wf()
        &&& post.same_identity(&pre)
        &&& post.out_peers == pre.out_peers
        &&& post.in_peers == pre.in_peers
        &&& post.getaddr_cache == pre.getaddr_cache
        &&& post.addrman@ == add_payloads(pre.addrman@, addrs, None, now)
        &&& post.node_statistics == (NodeStatistics {
            addr_received: (pre.node_statistics.addr_received + 1) as u64,
            ..pre.node_statistics
        })
    }

    /// Handle a GETADDR response: populate addrman, never relay.
    /// Every address in it is a relayed address, so each carries the two-hour penalty.
    pub fn receive_addr(&mut self, addrs: Vec<AddrPayload>, now: u64)
        requires
            old(self).wf(),
            old(self).node_statistics.addr_received < u64::MAX,
        ensures
            Node::addr_post(*old(self), *final(self), addrs@, now),
    {
        self.node_statistics.addr_received = self.node_statistics.addr_received + 1;
        add_all(&mut self.addrman, &addrs, None, now);
    }

    /// The node after flushing its relay queue for `peer_addr` at `now`, and what it sent.
    pub open spec fn flush_post(pre: Node, post: Node, peer_addr: AddressId, now: u64, r: Seq<Event>) -> bool {
        &&& post.wf()
        &&& post.same_identity(&pre)
        &&& post.addrman == pre.addrman
        &&& post.getaddr_cache == pre.getaddr_cache
        &&& !pre.has_peer(peer_addr) ==> r.len() == 0 && post.out_peers
            == pre.out_peers && post.in_peers == pre.in_peers
            && post.node_statistics == pre.node_statistics
        &&& pre.has_peer(peer_addr) ==> {
            let k = addr_key(peer_addr);
            let p = pre.peer(peer_addr);
            &&& post.has_out(peer_addr) == pre.has_out(peer_addr)
            &&& post.out_peers@.dom() == pre.out_peers@.dom()
            &&& post.in_peers@.dom() == pre.in_peers@.dom()
            &&& forall|k2: u128|
                k2 != k ==> #[trigger] post.out_peers@.get(k2) == pre.out_peers@.get(k2)
            &&& forall|k2: u128|
                (k2 != k || pre.has_out(peer_addr)) ==> #[trigger] post.in_peers@.get(k2) == pre.in_peers@.get(k2)
            &&& post.peer(peer_addr).addr == p.addr
            &&& post.peer(peer_addr).getaddr_sent == p.getaddr_sent
            &&& post.peer(peer_addr).getaddr_recvd == p.getaddr_recvd
            &&& post.peer(peer_addr).addr_known == p.addr_known
            &&& post.peer(peer_addr).pending_relay@ == Seq::<AddrPayload>::empty()
            &&& if p.pending_relay@.len() == 0 {
                &&& r.len() == 0
                &&& post.node_statistics == pre.node_statistics
            } else {
                &&& r.len() == 1
                &&& is_announce(
                    r[0],
                    pre.own_addr(peer_addr.network)->0,
                    peer_addr,
                    now,
                    p.pending_relay@,
                )
                &&& post.node_statistics == (NodeStatistics {
                    addr_announce_sent: (pre.node_statistics.addr_announce_sent
                        + 1) as u64,
                    ..pre.node_statistics
                })
            }
        }
    }

    /// Send every queued relay to `peer_addr` in one announcement, emptying the queue.
    pub fn flush_addr_queue(&mut self, peer_addr: AddressId, now: u64) -> (r: Vec<Event>)
        requires
            old(self).wf(),
            old(self).has_peer(peer_addr) && old(self).peer(peer_addr).pending_relay@.len() > 0
                ==> old(self).own_addr(peer_addr.network) is Some
                && old(self).node_statistics.addr_announce_sent < u64::MAX,
        ensures
            Node::flush_post(*old(self), *final(self), peer_addr, now, r@),
    {
        let k = peer_addr.key();
        let from_out = self.out_peers.contains_key(&k);
        if !from_out && !self.in_peers.contains_key(&k) {
            return Vec::new();
        }
        let taken = if from_out {
            self.out_peers.remove(&k)
        } else {
            self.in_peers.remove(&k)
        };
        let mut peer = match taken {
            Some(p) => p,
            None => {
                return Vec::new();
            },
        };
        let batch = peer.pending_relay;
        peer.pending_relay = Vec::new();
        if from_out {
            self.out_peers.insert(k, peer);
        } else {
            self.in_peers.insert(k, peer);
        }
        proof {
            assert(self.out_peers@.dom() =~= old(self).out_peers@.dom());
            assert(self.in_peers@.dom() =~= old(self).in_peers@.dom());
        }
        if batch.len() == 0 {
            return Vec::new();
        }
        self.node_statistics.addr_announce_sent = self.node_statistics.addr_announce_sent + 1;
        let own = self.own_addr_for_network(peer_addr.network);
        let mut r: Vec<Event> = Vec::new();
        r.push(
            Event::SendMessage {
                from: own,
                to: peer_addr,
                msg: NetworkMessage::AddrAnnounce(batch),
                at: now,
            },
        );
        r
    }

    /// Reachable addresses are relayed to two peers; unreachable ones to one or two,
    /// chosen at random.
    fn relay_count(&self, addr: AddressId, registry: &AddressRegistry, rng: &mut StdRng) -> (r: usize)
        requires
            registry.has(addr),
        ensures
            registry.record(addr).is_reachable ==> r == 2,
            !registry.record(addr).is_reachable ==> 1 <= r <= 2,
    {
        if registry.is_reachable(addr) {
            2
        } else {
            random_below(rng, 1, 3) as usize
        }
    }

    /// The node after announcing itself to `peer_addr` at `now`, and what it sent.
    pub open spec fn self_announce_post(pre: Node, post: Node, peer_addr: AddressId, now: u64, r: Seq<Event>) -> bool {
        &&& post.wf()
        &&& post.same_identity(&pre)
        &&& post.addrman == pre.addrman
        &&& post.getaddr_cache == pre.getaddr_cache
        &&& post.out_peers@.dom() == pre.out_peers@.dom()
        &&& post.in_peers@.dom() == pre.in_peers@.dom()
        &&& forall|k: u128|
            k != addr_key(peer_addr) ==> #[trigger] post.out_peers@.get(k) == pre.out_peers@.get(k)
        &&& forall|k: u128|
            (k != addr_key(peer_addr) || pre.has_out(peer_addr)) ==> #[trigger] post.in_peers@.get(k) == pre.in_peers@.get(k)
        &&& pre.has_peer(peer_addr) ==> {
            let p = pre.peer(peer_addr);
            let q = post.peer(peer_addr);
            &&& q.addr == p.addr
            &&& q.getaddr_sent == p.getaddr_sent
            &&& q.getaddr_recvd == p.getaddr_recvd
            &&& q.pending_relay == p.pending_relay
            &&& q.addr_known@ == Set::<u128>::empty()
        }
        &&& match pre.announce_addr(peer_addr.network) {
            Some(a) => {
                &&& r.len() == 1
                &&& is_announce(
                    r[0],
                    a,
                    peer_addr,
                    now,
                    seq![AddrPayload { address: a, timestamp: now }],
                )
                &&& post.node_statistics == (NodeStatistics {
                    addr_announce_sent: (pre.node_statistics.addr_announce_sent
                        + 1) as u64,
                    ..pre.node_statistics
                })
            },
            None => r.len() == 0 && post.node_statistics == pre.node_statistics,
        }
    }

    /// Send our own address to one peer. Mirrors Bitcoin Core's per-peer
    /// m_next_local_addr_send timer in SendMessages.
    /// Returns no event if this node is not reachable on the peer's network.
    pub fn self_announce_to_peer(&mut self, peer_addr: AddressId, now: u64) -> (r: Vec<Event>)
        requires
            old(self).wf(),
            old(self).announce_addr(peer_addr.network) is Some
                ==> old(self).node_statistics.addr_announce_sent < u64::MAX,
        ensures
            Node::self_announce_post(*old(self), *final(self), peer_addr, now, r@),
    {
        let k = peer_addr.key();
        let from_out = self.out_peers.contains_key(&k);
        let taken = if from_out {
            self.out_peers.remove(&k)
        } else {
            self.in_peers.remove(&k)
        };
        match taken {
            Some(p) => {
                let mut p = p;
                p.addr_known = HashSet::new();
                if from_out {
                    self.out_peers.insert(k, p);
                } else {
                    self.in_peers.insert(k, p);
                }
            },
            None => {},
        }
        proof {
            assert(self.out_peers@.dom() =~= old(self).out_peers@.dom());
            assert(self.in_peers@.dom() =~= old(self).in_peers@.dom());
        }
        let network = peer_addr.network;
        let own = if self.reachable_networks.contains(network) {
            self.find_own(network)
        } else {
            None
        };
        match own {
            Some(addr) => {
                self.node_statistics.addr_announce_sent = self.node_statistics.addr_announce_sent
                    + 1;
                let mut batch: Vec<AddrPayload> = Vec::new();
                batch.push(AddrPayload { address: addr, timestamp: now });
                proof {
                    assert(batch@ =~= seq![AddrPayload { address: addr, timestamp: now }]);
                }
                let mut r: Vec<Event> = Vec::new();
                r.push(
                    Event::SendMessage {
                        from: addr,
                        to: peer_addr,
                        msg: NetworkMessage::AddrAnnounce(batch),
                        at: now,
                    },
                );
                r
            },
            None => Vec::new(),
        }
    }

    /// The addresses of all connections: outbound first, then inbound.
    pub fn connected_addrs(&self) -> (r: Vec<AddressId>)
        requires
            self.wf(),
        ensures
            forall|a: AddressId| #[trigger] self.has_peer(a) ==> r@.contains(a),
            forall|i: int|
                0 <= i < r.len() ==> (self.out_peers@.contains_key(addr_key(#[trigger] r@[i]))
                    && self.out_peers@[addr_key(r@[i])].addr == r@[i]) || (
                self.in_peers@.contains_key(addr_key(r@[i])) && self.in_peers@[addr_key(
                    r@[i],
                )].addr == r@[i]),
    {
        let mut r = peer_addrs_all(&self.out_peers);
        let mut more = peer_addrs_all(&self.in_peers);
        let ghost c1 = r@;
        let ghost c2 = more@;
        r.append(&mut more);
        proof {
            assert forall|i: int| 0 <= i < r.len() implies (self.out_peers@.contains_key(
                addr_key(#[trigger] r@[i]),
            ) && self.out_peers@[addr_key(r@[i])].addr == r@[i]) || (self.in_peers@.contains_key(
                addr_key(r@[i]),
            ) && self.in_peers@[addr_key(r@[i])].addr == r@[i]) by {
                if i < c1.len() {
                    assert(r@[i] == c1[i]);
                } else {
                    assert(r@[i] == c2[i - c1.len()]);
                }
            }
        }
        proof {
            assert forall|a: AddressId| #[trigger] self.has_peer(a) implies r@.contains(a) by {
                let k = addr_key(a);
                if self.out_peers@.contains_key(k) {
                    lemma_key_injective(self.out_peers@[k].addr, a);
                    let q = choose|q: int| 0 <= q < c1.len() && c1[q] == self.out_peers@[k].addr;
                    assert(r@[q] == c1[q]);
                } else {
                    lemma_key_injective(self.in_peers@[k].addr, a);
                    let q = choose|q: int| 0 <= q < c2.len() && c2[q] == self.in_peers@[k].addr;
                    assert(r@[c1.len() + q] == c2[q]);
                }
            }
        }
        r
    }

    /// How many relays wait in the queue for `a` (none when not connected).
    pub fn pending_len(&self, a: AddressId) -> (r: usize)
        ensures
            r == (if self.has_peer(a) {
                self.peer(a).pending_relay@.len()
            } else {
                0
            }),
    {
        let k = a.key();
        match self.out_peers.get(&k) {
            Some(p) => p.pending_relay.len(),
            None => match self.in_peers.get(&k) {
                Some(p) => p.pending_relay.len(),
                None => 0,
            },
        }
    }

    /// Whether the node is connected to `a`, either way.
    pub fn is_connected(&self, a: AddressId) -> (r: bool)
        ensures
            r == self.has_peer(a),
    {
        let k = a.key();
        self.out_peers.contains_key(&k) || self.in_peers.contains_key(&k)
    }

    /// The keys of all connections.
    pub fn connected_keys(&self) -> (r: HashSet<u128>)
        ensures
            r@ == self.out_peers@.dom().union(self.in_peers@.dom()),
    {
        let mut r: HashSet<u128> = HashSet::new();
        let a = btree_keys(&self.out_peers);
        let b = btree_keys(&self.in_peers);
        let mut i: usize = 0;
        while i < a.len()
            invariant
                0 <= i <= a.len(),
                r@ == a@.take(i as int).to_set(),
            decreases a.len() - i,
        {
            r.insert(a[i]);
            proof {
                assert(a@.take(i + 1) =~= a@.take(i as int).push(a@[i as int]));
                a@.take(i as int).lemma_push_to_set_commute(a@[i as int]);
            }
            i = i + 1;
        }
        proof {
            assert(a@.take(a.len() as int) =~= a@);
            assert(b@.take(0) =~= Seq::<u128>::empty());
            assert(r@ =~= a@.to_set().union(b@.take(0).to_set()));
        }
        let mut j: usize = 0;
        while j < b.len()
            invariant
                0 <= j <= b.len(),
                r@ == a@.to_set().union(b@.take(j as int).to_set()),
            decreases b.len() - j,
        {
            proof {
                assert(a@.take(a.len() as int) =~= a@);
            }
            r.insert(b[j]);
            proof {
                assert(b@.take(j + 1) =~= b@.take(j as int).push(b@[j as int]));
                b@.take(j as int).lemma_push_to_set_commute(b@[j as int]);
                assert(r@ =~= a@.to_set().union(b@.take(j + 1).to_set()));
            }
            j = j + 1;
        }
        proof {
            assert(a@.take(a.len() as int) =~= a@);
            assert(b@.take(b.len() as int) =~= b@);
        }
        r
    }

    /// The number of peers a relay may go to: every connection but the sender's, an
    /// address connected both ways counted once.
    pub open spec fn relay_candidate_count(&self, exclude: AddressId) -> nat {
        self.peers_view().dom().remove(addr_key(exclude)).len()
    }

    /// The addresses of all peers, the sender excluded, each once (a peer connected both
    /// ways counts once).
    fn relay_candidates(&self, exclude: AddressId) -> (r: Vec<AddressId>)
        requires
            self.wf(),
        ensures
            r@.no_duplicates(),
            r.len() == self.peers_view().dom().remove(addr_key(exclude)).len(),
            forall|i: int|
                0 <= i < r.len() ==> self.has_peer(#[trigger] r@[i]) && r@[i] != exclude,
    {
        let ko = btree_keys(&self.out_peers);
        let kin = btree_keys(&self.in_peers);
        let ek = exclude.key();
        let mut r: Vec<AddressId> = Vec::new();
        let ghost mut chosen: Seq<u128> = Seq::empty();
        let mut i: usize = 0;
        while i < ko.len()
            invariant
                self.wf(),
                ek == addr_key(exclude),
                ko@.to_set() == self.out_peers@.dom(),
                ko@.no_duplicates(),
                0 <= i <= ko.len(),
                chosen.len() == r.len(),
                chosen.no_duplicates(),
                forall|j: int| 0 <= j < r.len() ==> addr_key(#[trigger] r@[j]) == chosen[j] && self.has_peer(r@[j]) && r@[j] != exclude,
                forall|x: u128| #[trigger] chosen.contains(x) <==> (ko@.take(i as int).contains(x) && x != ek),
            decreases ko.len() - i,
        {
            let k = ko[i];
            let ghost c0 = chosen;
            proof {
                assert(ko@.contains(k));
                assert(ko@.take(i + 1) =~= ko@.take(i as int).push(k));
                assert(!ko@.take(i as int).contains(k));
                assert forall|x: u128| ko@.take(i + 1).contains(x) <==> (ko@.take(i as int).contains(x) || x == k) by {
                    if ko@.take(i + 1).contains(x) && x != k {
                        let q = choose|q: int| 0 <= q < i + 1 && #[trigger] ko@.take(i + 1)[q] == x;
                        assert(ko@.take(i as int)[q] == x);
                    }
                    if ko@.take(i as int).contains(x) {
                        let q = choose|q: int| 0 <= q < i && #[trigger] ko@.take(i as int)[q] == x;
                        assert(ko@.take(i + 1)[q] == x);
                    }
                    if x == k {
                        assert(ko@.take(i + 1)[i as int] == k);
                    }
                }
            }
            if k != ek {
                match self.out_peers.get(&k) {
                    Some(p) => {
                        proof {
                            assert(addr_key(p.addr) == k);
                            lemma_key_injective(p.addr, exclude);
                            assert(!chosen.contains(k));
                        }
                        r.push(p.addr);
                        proof {
                            chosen = chosen.push(k);
                        }
                    },
                    None => {
                        proof {
                            assert(false);
                        }
                    },
                }
            }
            proof {
                assert forall|x: u128| #[trigger] chosen.contains(x) <==> (ko@.take(i + 1).contains(x) && x != ek) by {
                    if chosen.contains(x) && !c0.contains(x) {
                        let q = choose|q: int| 0 <= q < chosen.len() && #[trigger] chosen[q] == x;
                        assert(q == c0.len());
                    }
                    if c0.contains(x) {
                        let q = choose|q: int| 0 <= q < c0.len() && #[trigger] c0[q] == x;
                        assert(chosen[q] == x);
                    }
                    if x == k && k != ek {
                        assert(chosen[chosen.len() - 1] == k);
                    }
                }
            }
            i = i + 1;
        }
        proof {
            assert(ko@.take(ko.len() as int) =~= ko@);
        }
        let mut j: usize = 0;
        while j < kin.len()
            invariant
                self.wf(),
                ek == addr_key(exclude),
                ko@.to_set() == self.out_peers@.dom(),
                kin@.to_set() == self.in_peers@.dom(),
                kin@.no_duplicates(),
                0 <= j <= kin.len(),
                chosen.len() == r.len(),
                chosen.no_duplicates(),
                forall|q: int| 0 <= q < r.len() ==> addr_key(#[trigger] r@[q]) == chosen[q] && self.has_peer(r@[q]) && r@[q] != exclude,
                forall|x: u128| #[trigger] chosen.contains(x) <==> ((self.out_peers@.contains_key(x) || (kin@.take(j as int).contains(x))) && x != ek),
            decreases kin.len() - j,
        {
            let k = kin[j];
            let ghost c0 = chosen;
            proof {
                assert(kin@.contains(k));
                assert(kin@.to_set().contains(k));
                assert(kin@.take(j + 1) =~= kin@.take(j as int).push(k));
                assert(!kin@.take(j as int).contains(k));
                assert forall|x: u128| kin@.take(j + 1).contains(x) <==> (kin@.take(j as int).contains(x) || x == k) by {
                    if kin@.take(j + 1).contains(x) && x != k {
                        let q = choose|q: int| 0 <= q < j + 1 && #[trigger] kin@.take(j + 1)[q] == x;
                        assert(kin@.take(j as int)[q] == x);
                    }
                    if kin@.take(j as int).contains(x) {
                        let q = choose|q: int| 0 <= q < j && #[trigger] kin@.take(j as int)[q] == x;
                        assert(kin@.take(j + 1)[q] == x);
                    }
                    if x == k {
                        assert(kin@.take(j + 1)[j as int] == k);
                    }
                }
            }
            if k != ek && !self.out_peers.contains_key(&k) {
                match self.in_peers.get(&k) {
                    Some(p) => {
                        proof {
                            assert(addr_key(p.addr) == k);
                            lemma_key_injective(p.addr, exclude);
                            assert(!chosen.contains(k));
                            assert(self.has_in(p.addr));
                        }
                        r.push(p.addr);
                        proof {
                            chosen = chosen.push(k);
                        }
                    },
                    None => {
                        proof {
                            assert(false);
                        }
                    },
                }
            }
            proof {
                assert forall|x: u128| #[trigger] chosen.contains(x) <==> ((self.out_peers@.contains_key(x) || (kin@.take(j + 1).contains(x))) && x != ek) by {
                    if chosen.contains(x) && !c0.contains(x) {
                        let q = choose|q: int| 0 <= q < chosen.len() && #[trigger] chosen[q] == x;
                        assert(q == c0.len());
                    }
                    if c0.contains(x) {
                        let q = choose|q: int| 0 <= q < c0.len() && #[trigger] c0[q] == x;
                        assert(chosen[q] == x);
                    }
                    if x == k && k != ek && !self.out_peers@.contains_key(k) {
                        assert(chosen[chosen.len() - 1] == k);
                    }
                }
            }
            j = j + 1;
        }
        proof {
            assert(kin@.take(kin.len() as int) =~= kin@);
            assert(chosen.to_set() =~= self.peers_view().dom().remove(ek)) by {
                assert forall|x: u128| chosen.to_set().contains(x) <==> self.peers_view().dom().remove(ek).contains(x) by {
                    if self.in_peers@.contains_key(x) {
                        assert(kin@.to_set().contains(x));
                    }
                }
            }
            chosen.unique_seq_to_set();
            assert forall|a: int, b: int| 0 <= a < r.len() && 0 <= b < r.len() && a != b implies r@[a] != r@[b] by {
                assert(addr_key(r@[a]) == chosen[a]);
                assert(addr_key(r@[b]) == chosen[b]);
            }
        }
        r
    }

    /// Up to `n` random peers, the sender excluded.
    fn select_relay_peers(&self, exclude: AddressId, n: usize, rng: &mut StdRng) -> (r: Vec<AddressId>)
        requires
            self.wf(),
        ensures
            r.len() == (if n < self.relay_candidate_count(exclude) {
                n as nat
            } else {
                self.relay_candidate_count(exclude)
            }),
            r@.no_duplicates(),
            forall|i: int|
                0 <= i < r.len() ==> self.has_peer(#[trigger] r@[i]) && r@[i] != exclude,
    {
        let candidates = self.relay_candidates(exclude);
        let amount = if n < candidates.len() {
            n
        } else {
            candidates.len()
        };
        let ghost cands = candidates@;
        let r = choose_multiple(rng, candidates, amount);
        proof {
            broadcast use vstd::seq_lib::group_to_multiset_ensures;

            assert forall|i: int| 0 <= i < r.len() implies self.has_peer(#[trigger] r@[i]) && r@[i]
                != exclude by {
                assert(r@.to_multiset().count(r@[i]) > 0);
                assert(cands.to_multiset().count(r@[i]) > 0);
                assert(cands.contains(r@[i]));
            }
            cands.lemma_multiset_has_no_duplicates();
            assert forall|x: AddressId| r@.to_multiset().contains(x) implies r@.to_multiset().count(x) == 1 by {
                assert(cands.to_multiset().count(x) > 0);
            }
            r@.lemma_multiset_has_no_duplicates_conv();
        }
        r
    }

    /// Offer one payload to the chosen relay targets. Only outbound peers receive relays;
    /// a peer that already knows the address is skipped, and every other target gets
    /// the payload queued and the address marked known.
    pub fn queue_relay(&mut self, payload: AddrPayload, targets: &Vec<AddressId>)
        requires
            old(self).wf(),
        ensures
            final(self).wf(),
            final(self).same_identity(old(self)),
            final(self).addrman == old(self).addrman,
            final(self).getaddr_cache == old(self).getaddr_cache,
            final(self).node_statistics == old(self).node_statistics,
            final(self).out_peers@.dom() == old(self).out_peers@.dom(),
            final(self).in_peers@.dom() == old(self).in_peers@.dom(),
            forall|k: u128| #[trigger]
                old(self).peers_view().contains_key(k) ==> if (exists|j: int|
                    0 <= j < targets@.len() && addr_key(targets@[j]) == k) {
                    relay_step(old(self).peers_view()[k], final(self).peers_view()[k], payload)
                } else {
                    final(self).peers_view()[k] == old(self).peers_view()[k]
                },
    {
        let pk = payload.address.key();
        let mut i: usize = 0;
        while i < targets.len()
            invariant
                self.wf(),
                self.same_identity(old(self)),
                self.addrman == old(self).addrman,
                self.getaddr_cache == old(self).getaddr_cache,
                self.node_statistics == old(self).node_statistics,
                self.out_peers@.dom() == old(self).out_peers@.dom(),
                self.in_peers@.dom() == old(self).in_peers@.dom(),
                pk == addr_key(payload.address),
                0 <= i <= targets.len(),
                forall|k: u128| #[trigger]
                    old(self).peers_view().contains_key(k) ==> if (exists|j: int|
                        0 <= j < i && addr_key(targets@[j]) == k) {
                        relay_step(old(self).peers_view()[k], self.peers_view()[k], payload)
                    } else {
                        self.peers_view()[k] == old(self).peers_view()[k]
                    },
            decreases targets.len() - i,
        {
            let t = targets[i];
            let k = t.key();
            let ghost before = self.peers_view();
            if self.out_peers.contains_key(&k) {
                match self.out_peers.remove(&k) {
                    Some(p) => {
                        let mut p = p;
                        if !p.addr_known.contains(&pk) {
                            p.addr_known.insert(pk);
                            p.pending_relay.push(payload);
                        }
                        self.out_peers.insert(k, p);
                    },
                    None => {},
                }
            } else {
                match self.in_peers.remove(&k) {
                    Some(p) => {
                        let mut p = p;
                        if !p.addr_known.contains(&pk) {
                            p.addr_known.insert(pk);
                            p.pending_relay.push(payload);
                        }
                        self.in_peers.insert(k, p);
                    },
                    None => {},
                }
            }
            proof {
                assert(self.out_peers@.dom() =~= old(self).out_peers@.dom());
                assert(self.in_peers@.dom() =~= old(self).in_peers@.dom());
                assert(self.peers_view().dom() =~= before.dom());
                assert forall|k2: u128| k2 != k && #[trigger] before.contains_key(k2) implies self.peers_view()[k2]
                    == before[k2] by {}
                assert(before.contains_key(k) ==> self.peers_view()[k] == (if before[k].addr_known@.contains(pk) {
                    before[k]
                } else {
                    Peer {
                        addr_known: self.peers_view()[k].addr_known,
                        pending_relay: self.peers_view()[k].pending_relay,
                        ..before[k]
                    }
                }));
                assert forall|k2: u128| #[trigger]
                    old(self).peers_view().contains_key(k2) implies if (exists|j: int|
                        0 <= j < i + 1 && addr_key(targets@[j]) == k2) {
                        relay_step(old(self).peers_view()[k2], self.peers_view()[k2], payload)
                    } else {
                        self.peers_view()[k2] == old(self).peers_view()[k2]
                    } by {
                    if k2 == k {
                        assert(addr_key(targets@[i as int]) == k2);
                        if exists|j: int| 0 <= j < i && addr_key(targets@[j]) == k2 {
                            assert(before[k2].addr_known@.contains(pk));
                        }
                        assert(self.peers_view()[k2].addr_known@ =~= (if before[k2].addr_known@.contains(pk) {
                            before[k2].addr_known@
                        } else {
                            before[k2].addr_known@.insert(pk)
                        }));
                    } else {
                        if exists|j: int| 0 <= j < i + 1 && addr_key(targets@[j]) == k2 {
                            let j = choose|j: int| 0 <= j < i + 1 && addr_key(targets@[j]) == k2;
                            assert(j < i);
                        }
                    }
                }
            }
            i = i + 1;
        }
    }

    /// An announcement from `from` may be relayed: it has at most ten addresses and
    /// was not sent in answer to our own GETADDR.
    pub open spec fn announce_eligible(&self, from: AddressId, addrs: Seq<AddrPayload>) -> bool {
        addrs.len() <= MAX_RELAY_BATCH && !(self.has_peer(from) && self.peer(from).getaddr_sent)
    }

    /// What an announcement may demand: every address that could be relayed is registered.
    pub open spec fn announce_ready(
        &self,
        from: AddressId,
        addrs: Seq<AddrPayload>,
        now: u64,
        registry: &AddressRegistry,
    ) -> bool {
        &&& self.wf()
        &&& self.node_statistics.addr_announce_received < u64::MAX
        &&& self.announce_eligible(from, addrs) ==> forall|i: int|
            0 <= i < addrs.len() && relay_fresh(#[trigger] addrs[i], now) ==> registry.has(
                addrs[i].address,
            )
    }

    /// The node after taking in an announcement `addrs` from `from` at `now`, and what it sent.
    pub open spec fn announce_post(pre: Node, post: Node, from: AddressId, addrs: Seq<AddrPayload>, now: u64, reg: AddressRegistry, r: Seq<Event>) -> bool {
        &&& post.wf()
        &&& r.len() == 0
        &&& post.same_identity(&pre)
        &&& post.getaddr_cache == pre.getaddr_cache
        &&& post.addrman@ == add_payloads(pre.addrman@, addrs, Some(from), now)
        &&& post.node_statistics == (NodeStatistics {
            addr_announce_received: (pre.node_statistics.addr_announce_received
                + 1) as u64,
            ..pre.node_statistics
        })
        &&& post.out_peers@.dom() == pre.out_peers@.dom()
        &&& post.in_peers@.dom() == pre.in_peers@.dom()
        &&& pre.has_peer(from) ==> {
            let p = pre.peer(from);
            let q = post.peer(from);
            &&& post.has_out(from) == pre.has_out(from)
            &&& q.addr == p.addr
            &&& q.getaddr_sent == p.getaddr_sent
            &&& q.getaddr_recvd == p.getaddr_recvd
            &&& q.pending_relay == p.pending_relay
            &&& q.addr_known@ == p.addr_known@.union(payload_keys(addrs))
        }
        &&& fanout_ok(pre.peers_view(), post.peers_view(), from, addrs)
        &&& forall|i: int| #[trigger]
            relay_case(pre, from, addrs, i, now, reg) ==> relay_count_ok(pre, post, from, addrs, i, reg)
        &&& forall|k: u128|
            k != addr_key(from) && #[trigger] pre.peers_view().contains_key(k) ==> if pre.announce_eligible(from, addrs) {
                relays_queued(pre.peers_view()[k], post.peers_view()[k], addrs, now)
                    && relays_active(pre.peers_view()[k], post.peers_view()[k], reg)
            } else {
                post.peers_view()[k] == pre.peers_view()[k]
            }
    }

    /// Handle gossip: populate addrman (no penalty for a sender announcing itself, two
    /// hours otherwise), mark the addresses known to the sender, and, when the
    /// announcement may be relayed, queue each fresh address still active in the network
    /// for relay to one or two random peers, outbound or inbound, the sender left out.
    /// No event is produced at once; queued relays leave with `flush_addr_queue`.
    pub fn receive_addr_announce(
        &mut self,
        from: AddressId,
        addrs: Vec<AddrPayload>,
        now: u64,
        registry: &AddressRegistry,
        rng: &mut StdRng,
    ) -> (r: Vec<Event>)
        requires
            old(self).announce_ready(from, addrs@, now, registry),
        ensures
            Node::announce_post(*old(self), *final(self), from, addrs@, now, *registry, r@),
    {
        self.node_statistics.addr_announce_received = self.node_statistics.addr_announce_received
            + 1;
        add_all(&mut self.addrman, &addrs, Some(from), now);
        let k = from.key();
        if self.out_peers.contains_key(&k) {
            match self.out_peers.remove(&k) {
                Some(p) => {
                    let mut p = p;
                    mark_known(&mut p, &addrs);
                    self.out_peers.insert(k, p);
                },
                None => {},
            }
        } else if self.in_peers.contains_key(&k) {
            match self.in_peers.remove(&k) {
                Some(p) => {
                    let mut p = p;
                    mark_known(&mut p, &addrs);
                    self.in_peers.insert(k, p);
                },
                None => {},
            }
        }
        proof {
            assert(self.out_peers@.dom() =~= old(self).out_peers@.dom());
            assert(self.in_peers@.dom() =~= old(self).in_peers@.dom());
            assert forall|k2: u128| k2 != k && #[trigger] old(self).peers_view().contains_key(k2) implies self.peers_view()[k2]
                == old(self).peers_view()[k2] by {}
            assert forall|a: u128| #[trigger] relayed_to(old(self).peers_view(), self.peers_view(), from, a)
                =~= Set::<u128>::empty() by {
                assert forall|k2: u128| !relayed_to(old(self).peers_view(), self.peers_view(), from, a).contains(k2) by {
                    if k2 != k && old(self).peers_view().contains_key(k2) {
                        assert(self.peers_view()[k2] == old(self).peers_view()[k2]);
                    }
                }
            }
        }
        let events: Vec<Event> = Vec::new();
        if addrs.len() > MAX_RELAY_BATCH {
            return events;
        }
        let peer_sent_getaddr = match self.out_peers.get(&k) {
            Some(p) => p.getaddr_sent,
            None => match self.in_peers.get(&k) {
                Some(p) => p.getaddr_sent,
                None => false,
            },
        };
        if peer_sent_getaddr {
            return events;
        }
        let ghost base = self.peers_view();
        proof {
            assert forall|k2: u128| #[trigger] base.contains_key(k2) implies relays_queued(
                base[k2],
                base[k2],
                addrs@,
                now,
            ) && relays_active(base[k2], base[k2], *registry) by {
                lemma_relays_queued_refl(base[k2], addrs@, now);
                assert(base[k2].pending_relay@.skip(base[k2].pending_relay@.len() as int).len() == 0);
            }
        }
        let mut i: usize = 0;
        while i < addrs.len()
            invariant
                self.wf(),
                self.same_identity(old(self)),
                self.getaddr_cache == old(self).getaddr_cache,
                self.addrman@ == add_payloads(old(self).addrman@, addrs@, Some(from), now),
                self.node_statistics == (NodeStatistics {
                    addr_announce_received: (old(self).node_statistics.addr_announce_received
                        + 1) as u64,
                    ..old(self).node_statistics
                }),
                k == addr_key(from),
                self.out_peers@.dom() == old(self).out_peers@.dom(),
                self.in_peers@.dom() == old(self).in_peers@.dom(),
                self.peers_view().dom() == base.dom(),
                forall|j: int|
                    0 <= j < addrs@.len() && relay_fresh(#[trigger] addrs@[j], now)
                        ==> registry.has(addrs@[j].address),
                forall|k2: u128| #[trigger]
                    base.contains_key(k2) ==> if k2 == k {
                        self.peers_view()[k2] == base[k2]
                    } else {
                        relays_queued(base[k2], self.peers_view()[k2], addrs@, now)
                            && relays_active(base[k2], self.peers_view()[k2], *registry)
                    },
                0 <= i <= addrs.len(),
                base.dom() == old(self).peers_view().dom(),
                fanout_ok(old(self).peers_view(), self.peers_view(), from, addrs@.take(i as int)),
                forall|k2: u128| k2 != k && #[trigger] old(self).peers_view().contains_key(k2) ==> base[k2]
                    == old(self).peers_view()[k2],
                i == 0 ==> self.peers_view() == base,
                forall|j: int|
                    j < i && #[trigger] relay_case(*old(self), from, addrs@, j, now, *registry) ==> relay_count_ok(
                        *old(self),
                        *self,
                        from,
                        addrs@,
                        j,
                        *registry,
                    ),
            decreases addrs.len() - i,
        {
            let p = addrs[i];
            proof {
                assert(addrs@.take(i + 1).drop_last() =~= addrs@.take(i as int));
                assert(addrs@.take(i + 1).last() == p);
            }
            let fresh = p.timestamp >= now.saturating_sub(RELAY_FRESHNESS);
            proof {
                if fresh {
                    assert(relay_fresh(addrs@[i as int], now));
                }
            }
            if fresh && registry.is_active(p.address) {
                let n_relay = self.relay_count(p.address, registry, rng);
                let targets = self.select_relay_peers(from, n_relay, rng);
                let ghost cur = self.peers_view();
                self.queue_relay(p, &targets);
                proof {
                    assert(self.peers_view().dom() =~= cur.dom());
                    assert(targets@.len() <= 2);
                    assert forall|a: u128|
                        #[trigger] relayed_to(old(self).peers_view(), self.peers_view(), from, a).finite()
                            && relayed_to(old(self).peers_view(), self.peers_view(), from, a).len() <= 2
                            * (occurrences(addrs@.take(i + 1), a) as int) by {
                        assert(occurrences(addrs@.take(i + 1), a) == occurrences(addrs@.take(i as int), a)
                            + if addr_key(p.address) == a { 1nat } else { 0nat });
                        assert(relayed_to(old(self).peers_view(), cur, from, a).finite());
                        lemma_relay_step_fanout(
                            old(self).peers_view(),
                            cur,
                            self.peers_view(),
                            from,
                            p,
                            targets@,
                            a,
                        );
                    }
                    assert(addrs@.contains(p)) by {
                        assert(addrs@[i as int] == p);
                    }
                    assert forall|k2: u128| #[trigger] base.contains_key(k2) implies if k2 == k {
                        self.peers_view()[k2] == base[k2]
                    } else {
                        relays_queued(base[k2], self.peers_view()[k2], addrs@, now)
                            && relays_active(base[k2], self.peers_view()[k2], *registry)
                    } by {
                        if k2 == k {
                            assert forall|j: int| 0 <= j < targets@.len() implies addr_key(
                                targets@[j],
                            ) != k2 by {
                                lemma_key_injective(targets@[j], from);
                            }
                        } else if exists|j: int|
                            0 <= j < targets@.len() && addr_key(targets@[j]) == k2 {
                            lemma_relays_queued_step(
                                base[k2],
                                cur[k2],
                                self.peers_view()[k2],
                                addrs@,
                                now,
                                p,
                            );
                            lemma_relays_active_step(base[k2], cur[k2], self.peers_view()[k2], *registry, p);
                        }
                    }
                    assert(fanout_ok(old(self).peers_view(), self.peers_view(), from, addrs@.take(i + 1)));
                    assert(self.relay_candidate_count(from) == old(self).relay_candidate_count(from)) by {
                        assert(self.peers_view().dom() =~= old(self).peers_view().dom());
                    }
                    assert forall|j: int|
                        j < i + 1 && #[trigger] relay_case(*old(self), from, addrs@, j, now, *registry) implies relay_count_ok(
                            *old(self),
                            *self,
                            from,
                            addrs@,
                            j,
                            *registry,
                        ) by {
                        lemma_occurrences_once(addrs@, j);
                        if j < i {
                            assert(addr_key(addrs@[i as int].address) != addr_key(addrs@[j].address));
                            assert(relayed_to(old(self).peers_view(), cur, from, addr_key(addrs@[j].address)).finite());
                            lemma_relay_step_fanout(
                                old(self).peers_view(),
                                cur,
                                self.peers_view(),
                                from,
                                p,
                                targets@,
                                addr_key(addrs@[j].address),
                            );
                        } else {
                            lemma_relay_case_untouched(*old(self), cur, from, addrs@, i as int, now, *registry);
                            assert forall|j2: int| 0 <= j2 < targets@.len() implies old(self).peers_view().contains_key(
                                addr_key(#[trigger] targets@[j2]),
                            ) && targets@[j2] != from by {}
                            lemma_single_relay(old(self).peers_view(), cur, self.peers_view(), from, p, targets@);
                        }
                    }
                }
            } else {
                proof {
                    lemma_fanout_extend(old(self).peers_view(), self.peers_view(), from, addrs@, i as int);
                    assert(addrs@[i as int] == p);
                }
            }
            i = i + 1;
        }
        proof {
            assert(addrs@.take(addrs@.len() as int) =~= addrs@);
            if old(self).has_peer(from) {
                assert(self.peers_view().contains_key(k));
                assert(self.peer(from) == self.peers_view()[k]);
            }
        }
        events
    }

    /// The node after a connection to `peer` is recorded.
    pub open spec fn connect_post(pre: Node, post: Node, peer: AddressId, outbound: bool) -> bool {
        let k = addr_key(peer);
        &&& post.wf()
        &&& post.same_identity(&pre)
        &&& post.addrman == pre.addrman
        &&& post.getaddr_cache == pre.getaddr_cache
        &&& post.node_statistics == pre.node_statistics
        &&& if outbound {
            &&& post.in_peers == pre.in_peers
            &&& post.out_peers@.dom() == pre.out_peers@.dom().insert(k)
            &&& forall|k2: u128| k2 != k ==> #[trigger] post.out_peers@.get(k2) == pre.out_peers@.get(k2)
            &&& post.out_peers@[k].is_fresh(peer, true)
        } else {
            &&& post.out_peers == pre.out_peers
            &&& post.in_peers@.dom() == pre.in_peers@.dom().insert(k)
            &&& forall|k2: u128| k2 != k ==> #[trigger] post.in_peers@.get(k2) == pre.in_peers@.get(k2)
            &&& post.in_peers@[k].is_fresh(peer, false)
        }
    }

    /// The node after the connection with `peer` is gone.
    pub open spec fn disconnect_post(pre: Node, post: Node, peer: AddressId, now: u64) -> bool {
        &&& post.wf()
        &&& post.same_identity(&pre)
        &&& post.getaddr_cache == pre.getaddr_cache
        &&& post.node_statistics == pre.node_statistics
        &&& post.out_peers@ == pre.out_peers@.remove(addr_key(peer))
        &&& post.in_peers@ == pre.in_peers@.remove(addr_key(peer))
        &&& post.addrman.wf()
        &&& post.addrman@ == if pre.addrman@.contains_key(peer) {
            pre.addrman@.insert(
                peer,
                crate::addrman::connected_timestamp(pre.addrman@[peer], now),
            )
        } else {
            pre.addrman@
        }
    }

    /// The node after the connections with every address in `cut` are gone, one after
    /// the other, all at `now`: the connections are dropped, each known address among
    /// them is marked connected once, and nothing else changes.
    pub open spec fn closed_post(pre: Node, post: Node, cut: Set<AddressId>, now: u64) -> bool {
        &&& post.wf()
        &&& post.same_identity(&pre)
        &&& post.getaddr_cache == pre.getaddr_cache
        &&& post.node_statistics == pre.node_statistics
        &&& post.addrman.wf()
        &&& post.addrman@.dom() == pre.addrman@.dom()
        &&& forall|a: AddressId| #[trigger]
            post.addrman@.contains_key(a) ==> post.addrman@[a] == if cut.contains(a) {
                crate::addrman::connected_timestamp(pre.addrman@[a], now)
            } else {
                pre.addrman@[a]
            }
        &&& post.out_peers@ == pre.out_peers@.remove_keys(cut.map(|a: AddressId| addr_key(a)))
        &&& post.in_peers@ == pre.in_peers@.remove_keys(cut.map(|a: AddressId| addr_key(a)))
    }

    /// A new connection: outbound peers are sent GETADDR at once, exactly once per
    /// connection; inbound peers are only recorded. Either way the first
    /// self-announcement to the peer is scheduled 30 seconds later.
    pub fn on_connect(&mut self, peer_addr: AddressId, is_outbound: bool, now: u64) -> (r: Vec<Event>)
        requires
            old(self).wf(),
            is_outbound ==> old(self).own_addr(peer_addr.network) is Some,
        ensures
            Node::connect_post(*old(self), *final(self), peer_addr, is_outbound),
            is_outbound ==> r@.len() == 2 && is_getaddr(
                r@[0],
                old(self).own_addr(peer_addr.network)->0,
                peer_addr,
                now,
            ) && r@[1] == announce_timer(old(self).node_id, peer_addr, later(now, SELF_ANNOUNCE_DELAY)),
            !is_outbound ==> r@.len() == 1 && r@[0] == announce_timer(
                old(self).node_id,
                peer_addr,
                later(now, SELF_ANNOUNCE_DELAY),
            ),
    {
        let k = peer_addr.key();
        let mut events: Vec<Event> = Vec::new();
        if is_outbound {
            let own = self.own_addr_for_network(peer_addr.network);
            let peer = Peer::new(peer_addr, true);
            self.out_peers.insert(k, peer);
            events.push(
                Event::SendMessage { from: own, to: peer_addr, msg: NetworkMessage::GetAddr, at: now },
            );
        } else {
            let peer = Peer::new(peer_addr, false);
            self.in_peers.insert(k, peer);
        }
        events.push(
            Event::SelfAnnounce {
                node_id: self.node_id,
                peer_addr,
                at: later_by(now, SELF_ANNOUNCE_DELAY),
            },
        );
        proof {
            assert(self.out_peers@.dom() =~= (if is_outbound {
                old(self).out_peers@.dom().insert(k)
            } else {
                old(self).out_peers@.dom()
            }));
            assert(self.in_peers@.dom() =~= (if is_outbound {
                old(self).in_peers@.dom()
            } else {
                old(self).in_peers@.dom().insert(k)
            }));
        }
        events
    }

    /// A connection is gone. Mirrors AddrMan::Connected() in Bitcoin Core, which refreshes
    /// the address's timestamp at most every 20 minutes. Losing an outbound peer asks for
    /// a replacement on that network.
    pub fn on_disconnect(&mut self, peer_addr: AddressId, now: u64) -> (r: Vec<Event>)
        requires
            old(self).wf(),
        ensures
            Node::disconnect_post(*old(self), *final(self), peer_addr, now),
            r@.len() == if old(self).has_out(peer_addr) {
                1int
            } else {
                0int
            },
            old(self).has_out(peer_addr) ==> r@[0] == (Event::NodeReconnect {
                node_id: old(self).node_id,
                network: peer_addr.network,
                at: now,
            }),
    {
        let k = peer_addr.key();
        let was_outbound = match self.out_peers.remove(&k) {
            Some(_) => true,
            None => false,
        };
        self.in_peers.remove(&k);
        self.addrman.record_connected_for(peer_addr, now);
        let mut events: Vec<Event> = Vec::new();
        if was_outbound {
            events.push(
                Event::NodeReconnect { node_id: self.node_id, network: peer_addr.network, at: now },
            );
        }
        events
    }

    /// A connection attempt failed; the simulation takes no action.
    pub fn on_connect_failed(&mut self, _peer_addr: AddressId, _now: u64)
        ensures
            *final(self) == *old(self),
    {
    }
}

/// The payloads of a GETADDR response or an announcement.
pub open spec fn message_payloads(e: Event) -> Seq<AddrPayload> {
    match e {
        Event::SendMessage { msg: NetworkMessage::Addr(v), .. } => v@,
        Event::SendMessage { msg: NetworkMessage::AddrAnnounce(v), .. } => v@,
        _ => Seq::empty(),
    }
}

/// Under the network-based algorithm, a cache built at `now` for requesters on
/// `network` gives its own network's addresses their addrman timestamps, and every
/// address on another network the fixed stamp of five days before `now`.
pub proof fn lemma_network_based_stamps(addrman: Addrman, c: GetaddrCache, network: NetworkType, now: u64)
    requires
        addrman.wf(),
        cache_built(addrman, GetaddrCacheAlgorithm::NetworkBased, c, network, now),
    ensures
        forall|i: int|
            0 <= i < c.entries@.len() ==> {
                let e = #[trigger] c.entries@[i];
                &&& e.address.network != network ==> e.timestamp == now - 5 * 86400
                &&& e.address.network == network ==> e.timestamp == addrman@[e.address]
            },
{
    assert forall|i: int| 0 <= i < c.entries@.len() implies {
        let e = #[trigger] c.entries@[i];
        &&& e.address.network != network ==> e.timestamp == now - 5 * 86400
        &&& e.address.network == network ==> e.timestamp == addrman@[e.address]
    } by {
        addrman.lemma_entry(c.entries@[i].address);
    }
}

/// Every entry of a cache built at `now` names an address of the addrman that is not
/// terrible; under the current algorithm it carries the addrman timestamp, and under the
/// fixed-offset algorithm a timestamp eight to twelve whole days before `now`, whatever
/// the addrman holds.
pub proof fn lemma_cache_stamps(
    addrman: Addrman,
    algo: GetaddrCacheAlgorithm,
    c: GetaddrCache,
    network: NetworkType,
    now: u64,
)
    requires
        addrman.wf(),
        cache_built(addrman, algo, c, network, now),
    ensures
        forall|i: int|
            0 <= i < c.entries@.len() ==> {
                let e = #[trigger] c.entries@[i];
                &&& addrman@.contains_key(e.address)
                &&& now - 30 * 86400 <= addrman@[e.address] <= now + 600
                &&& algo == GetaddrCacheAlgorithm::Current ==> e.timestamp == addrman@[e.address]
                &&& algo == GetaddrCacheAlgorithm::FixedOffset ==> (8 * 86400 <= now - e.timestamp
                    <= 12 * 86400 && (now - e.timestamp) % 86400 == 0)
            },
{
    assert forall|i: int| 0 <= i < c.entries@.len() implies {
        let e = #[trigger] c.entries@[i];
        &&& addrman@.contains_key(e.address)
        &&& now - 30 * 86400 <= addrman@[e.address] <= now + 600
        &&& algo == GetaddrCacheAlgorithm::Current ==> e.timestamp == addrman@[e.address]
        &&& algo == GetaddrCacheAlgorithm::FixedOffset ==> (8 * 86400 <= now - e.timestamp <= 12
            * 86400 && (now - e.timestamp) % 86400 == 0)
    } by {
        let e = c.entries@[i];
        addrman.lemma_entry(e.address);
    }
}

/// A disconnect refreshes the peer's address in the addrman to `now` whenever its stored
/// timestamp is more than twenty minutes old, however old; a more recent one stays.
pub proof fn lemma_disconnect_refreshes(pre: Node, post: Node, peer: AddressId, now: u64)
    requires
        Node::disconnect_post(pre, post, peer, now),
        pre.addrman@.contains_key(peer),
    ensures
        post.addrman@.contains_key(peer),
        now - pre.addrman@[peer] > 20 * 60 ==> post.addrman@[peer] == now,
        now - pre.addrman@[peer] <= 20 * 60 ==> post.addrman@[peer] == pre.addrman@[peer],
{
}

/// Closing no connection leaves a node as it was.
pub proof fn lemma_closed_none(n: Node, now: u64)
    requires
        n.wf(),
    ensures
        Node::closed_post(n, n, Set::empty(), now),
{
    assert(Set::<AddressId>::empty().map(|a: AddressId| addr_key(a)) =~= Set::empty());
    assert(n.out_peers@.remove_keys(Set::empty()) =~= n.out_peers@);
    assert(n.in_peers@.remove_keys(Set::empty()) =~= n.in_peers@);
}

/// Closing one more connection adds its address to what was closed.
pub proof fn lemma_closed_step(
    pre: Node,
    mid: Node,
    post: Node,
    cut: Set<AddressId>,
    a: AddressId,
    now: u64,
)
    requires
        Node::closed_post(pre, mid, cut, now),
        Node::disconnect_post(mid, post, a, now),
    ensures
        Node::closed_post(pre, post, cut.insert(a), now),
{
    let ks = cut.map(|x: AddressId| addr_key(x));
    let ks2 = cut.insert(a).map(|x: AddressId| addr_key(x));
    assert(ks2 =~= ks.insert(addr_key(a))) by {
        assert forall|k: u128| ks2.contains(k) implies ks.insert(addr_key(a)).contains(k) by {
            let x = choose|x: AddressId| cut.insert(a).contains(x) && k == addr_key(x);
            if x != a {
                assert(cut.contains(x));
            }
        }
        assert forall|k: u128| ks.insert(addr_key(a)).contains(k) implies ks2.contains(k) by {
            if k == addr_key(a) {
                assert(cut.insert(a).contains(a));
            } else {
                let x = choose|x: AddressId| cut.contains(x) && k == addr_key(x);
                assert(cut.insert(a).contains(x));
            }
        }
    }
    assert(post.out_peers@ =~= pre.out_peers@.remove_keys(ks2));
    assert(post.in_peers@ =~= pre.in_peers@.remove_keys(ks2));
    assert(post.addrman@.dom() =~= pre.addrman@.dom());
    assert forall|x: AddressId| #[trigger] post.addrman@.contains_key(x) implies post.addrman@[x] == if cut.insert(
        a,
    ).contains(x) {
        crate::addrman::connected_timestamp(pre.addrman@[x], now)
    } else {
        pre.addrman@[x]
    } by {
        crate::addrman::lemma_connected_monotone(pre.addrman@[x], now);
    }
}

/// Requesters on the same network get the same response while the cache lives: a
/// GETADDR answered before the expiry of the cache that answered an earlier one on the
/// same network repeats that answer exactly and leaves the cache as it was.
pub proof fn lemma_getaddr_cache_reuse(
    n0: Node,
    n1: Node,
    n2: Node,
    from1: AddressId,
    from2: AddressId,
    t1: u64,
    t2: u64,
    r1: Seq<Event>,
    r2: Seq<Event>,
)
    requires
        Node::getaddr_post(n0, n1, from1, t1, r1),
        Node::getaddr_post(n1, n2, from2, t2, r2),
        from1.network == from2.network,
        t2 < n1.getaddr_cache.cache(from1.network)->0.expires_at,
    ensures
        message_payloads(r2[0]) == message_payloads(r1[0]),
        n2.getaddr_cache.cache(from1.network) == n1.getaddr_cache.cache(from1.network),
{
}

/// A freshly built cache is valid for at least 21 hours and at most 27: any GETADDR on
/// the same network within 21 hours of building is answered from it.
pub proof fn lemma_getaddr_cache_lifetime(
    n0: Node,
    n1: Node,
    from: AddressId,
    now: u64,
    r: Seq<Event>,
    later: u64,
)
    requires
        Node::getaddr_post(n0, n1, from, now, r),
        !n0.cache_hit(from.network, now),
        later < now + GETADDR_CACHE_LIFETIME_BASE,
    ensures
        n1.cache_hit(from.network, later),
        n1.getaddr_cache.cache(from.network)->0.expires_at < now + 27 * 3600,
{
}

/// Caches are kept per network: answering a GETADDR on one network leaves the cache of
/// the other network exactly as it was, and the answer comes from the cache of the
/// requester's own network.
pub proof fn lemma_caches_per_network(n0: Node, n1: Node, from: AddressId, now: u64, r: Seq<Event>, other: NetworkType)
    requires
        Node::getaddr_post(n0, n1, from, now, r),
        other != from.network,
    ensures
        n1.getaddr_cache.cache(other) == n0.getaddr_cache.cache(other),
        message_payloads(r[0]) == n1.getaddr_cache.cache(from.network)->0.entries@,
{
}

/// A peer gets at most one GETADDR answer per connection: once a node has answered
/// `from`, it is not ready to answer `from` again, at any later time.
pub proof fn lemma_one_answer_per_connection(
    pre: Node,
    post: Node,
    from: AddressId,
    now: u64,
    r: Seq<Event>,
    later: u64,
)
    requires
        Node::getaddr_post(pre, post, from, now, r),
    ensures
        post.has_peer(from),
        post.peer(from).getaddr_recvd,
        !post.getaddr_ready(from, later),
{
}

/// A node announces only its own address on the peer's network, where it listens,
/// stamped with the time of the announcement; a dual-stack node's two addresses never
/// cross networks.
pub proof fn lemma_self_announce_own_network(
    pre: Node,
    post: Node,
    peer_addr: AddressId,
    now: u64,
    r: Seq<Event>,
)
    requires
        Node::self_announce_post(pre, post, peer_addr, now, r),
        r.len() > 0,
    ensures
        r.len() == 1,
        pre.reachable_networks.has(peer_addr.network),
        exists|a: AddressId|
            #![trigger pre.addresses@.contains(a)]
            pre.addresses@.contains(a) && a.network == peer_addr.network && is_announce(
                r[0],
                a,
                peer_addr,
                now,
                seq![AddrPayload { address: a, timestamp: now }],
            ),
{
    let a = pre.announce_addr(peer_addr.network)->0;
    lemma_first_on_contains(pre.addresses@, peer_addr.network);
    assert(pre.addresses@.contains(a));
}

/// Relays go out only for small announcements, and never back to their sender: after
/// an announcement of more than ten addresses, or one that answers the node's own
/// GETADDR, no peer's relay queue changes; and the sender's queue never does.
pub proof fn lemma_relay_gate(
    pre: Node,
    post: Node,
    from: AddressId,
    addrs: Seq<AddrPayload>,
    now: u64,
    reg: AddressRegistry,
    r: Seq<Event>,
)
    requires
        Node::announce_post(pre, post, from, addrs, now, reg, r),
    ensures
        !pre.announce_eligible(from, addrs) ==> forall|k: u128| #[trigger]
            pre.peers_view().contains_key(k) ==> post.peers_view()[k].pending_relay
                == pre.peers_view()[k].pending_relay,
        pre.has_peer(from) ==> post.peer(from).pending_relay == pre.peer(from).pending_relay,
        r.len() == 0,
{
    assert forall|k: u128| #[trigger]
        pre.peers_view().contains_key(k) && !pre.announce_eligible(from, addrs) implies post.peers_view()[k].pending_relay
            == pre.peers_view()[k].pending_relay by {
        if k == addr_key(from) {
            assert(pre.has_peer(from));
            assert(pre.peer(from) == pre.peers_view()[k]);
            assert(post.peer(from) == post.peers_view()[k]);
        }
    }
}

/// Relay fans out narrowly: after an announcement that names each address once, every
/// address has been queued to at most two peers, outbound or inbound (the sender never
/// among them).
pub proof fn lemma_relay_fanout(
    pre: Node,
    post: Node,
    from: AddressId,
    addrs: Seq<AddrPayload>,
    now: u64,
    reg: AddressRegistry,
    r: Seq<Event>,
    a: u128,
)
    requires
        Node::announce_post(pre, post, from, addrs, now, reg, r),
        forall|i: int, j: int|
            0 <= i < j < addrs.len() ==> #[trigger] addrs[i].address != #[trigger] addrs[j].address,
    ensures
        relayed_to(pre.peers_view(), post.peers_view(), from, a).len() <= 2,
        !relayed_to(pre.peers_view(), post.peers_view(), from, a).contains(addr_key(from)),
{
    lemma_occurrences_distinct(addrs, a);
    assert(relayed_to(pre.peers_view(), post.peers_view(), from, a).finite());
}

/// A GETADDR response only fills the addrman: it queues no relay and touches no
/// connection.
pub proof fn lemma_response_not_relayed(pre: Node, post: Node, addrs: Seq<AddrPayload>, now: u64)
    requires
        Node::addr_post(pre, post, addrs, now),
    ensures
        post.out_peers == pre.out_peers,
        post.in_peers == pre.in_peers,
        post.addrman@ == add_payloads(pre.addrman@, addrs, None, now),
{
}

/// Mark every address of `addrs` as known to the peer.
fn mark_known(peer: &mut Peer, addrs: &Vec<AddrPayload>)
    ensures
        final(peer).addr == old(peer).addr,
        final(peer).getaddr_sent == old(peer).getaddr_sent,
        final(peer).getaddr_recvd == old(peer).getaddr_recvd,
        final(peer).pending_relay == old(peer).pending_relay,
        final(peer).addr_known@ == old(peer).addr_known@.union(payload_keys(addrs@)),
{
    let mut i: usize = 0;
    while i < addrs.len()
        invariant
            peer.addr == old(peer).addr,
            peer.getaddr_sent == old(peer).getaddr_sent,
            peer.getaddr_recvd == old(peer).getaddr_recvd,
            peer.pending_relay == old(peer).pending_relay,
            peer.addr_known@ == old(peer).addr_known@.union(payload_keys(addrs@.take(i as int))),
            0 <= i <= addrs.len(),
        decreases addrs.len() - i,
    {
        let a = addrs[i].address;
        peer.addr_known.insert(a.key());
        proof {
            let t0 = addrs@.take(i as int);
            let t1 = addrs@.take(i + 1);
            assert(payload_keys(t1) =~= payload_keys(t0).insert(addr_key(a))) by {
                assert(t1[i as int] == addrs@[i as int]);
                assert forall|kk: u128| payload_keys(t1).contains(kk) implies payload_keys(
                    t0,
                ).insert(addr_key(a)).contains(kk) by {
                    let j = choose|j: int| 0 <= j < t1.len() && addr_key(t1[j].address) == kk;
                    if j < i {
                        assert(t0[j] == t1[j]);
                    }
                }
                assert forall|kk: u128| payload_keys(t0).contains(kk) implies payload_keys(
                    t1,
                ).contains(kk) by {
                    let j = choose|j: int| 0 <= j < t0.len() && addr_key(t0[j].address) == kk;
                    assert(t0[j] == t1[j]);
                }
            }
            assert(peer.addr_known@ =~= old(peer).addr_known@.union(payload_keys(t1)));
        }
        i = i + 1;
    }
    proof {
        assert(addrs@.take(addrs.len() as int) =~= addrs@);
    }
}

/// The addresses of the peers in a map.
fn peer_addrs_all(m: &BTreeMap<u128, Peer>) -> (r: Vec<AddressId>)
    requires
        peers_wf(m@),
    ensures
        forall|i: int|
            0 <= i < r.len() ==> m@.contains_key(addr_key(#[trigger] r@[i])) && m@[addr_key(
                r@[i],
            )].addr == r@[i],
        forall|k: u128| #[trigger] m@.contains_key(k) ==> r@.contains(m@[k].addr),
{
    let keys = btree_keys(m);
    let mut r: Vec<AddressId> = Vec::new();
    let mut i: usize = 0;
    while i < keys.len()
        invariant
            peers_wf(m@),
            keys@.to_set() == m@.dom(),
            0 <= i <= keys.len(),
            forall|j: int|
                0 <= j < r.len() ==> m@.contains_key(addr_key(#[trigger] r@[j])) && m@[addr_key(
                    r@[j],
                )].addr == r@[j],
            forall|j: int| 0 <= j < i ==> r@.contains(m@[#[trigger] keys@[j]].addr),
        decreases keys.len() - i,
    {
        let k = keys[i];
        proof {
            assert(keys@.contains(k));
        }
        let ghost r0 = r@;
        match m.get(&k) {
            Some(p) => {
                r.push(p.addr);
            },
            None => {},
        }
        proof {
            assert forall|j: int| 0 <= j < i + 1 implies r@.contains(m@[#[trigger] keys@[j]].addr) by {
                if j < i {
                    let q = choose|q: int| 0 <= q < r0.len() && r0[q] == m@[keys@[j]].addr;
                    assert(r@[q] == r0[q]);
                } else {
                    assert(r@[r0.len() as int] == m@[k].addr);
                }
            }
        }
        i = i + 1;
    }
    proof {
        assert forall|k: u128| #[trigger] m@.contains_key(k) implies r@.contains(m@[k].addr) by {
            assert(keys@.to_set().contains(k));
            let j = choose|j: int| 0 <= j < keys@.len() && keys@[j] == k;
        }
    }
    r
}

/// A copy of a list of payloads.
pub fn copy_payloads(v: &Vec<AddrPayload>) -> (r: Vec<AddrPayload>)
    ensures
        r@ == v@,
{
    let mut r: Vec<AddrPayload> = Vec::new();
    let mut i: usize = 0;
    while i < v.len()
        invariant
            0 <= i <= v.len(),
            r@ == v@.take(i as int),
        decreases v.len() - i,
    {
        r.push(v[i]);
        proof {
            assert(v@.take(i + 1) =~= v@.take(i as int).push(v@[i as int]));
        }
        i = i + 1;
    }
    proof {
        assert(v@.take(v.len() as int) =~= v@);
    }
    r
}

/// Add each payload to the addrman in turn.
fn add_all(addrman: &mut Addrman, addrs: &Vec<AddrPayload>, sender: Option<AddressId>, now: u64)
    requires
        old(addrman).wf(),
    ensures
        final(addrman).wf(),
        final(addrman)@ == add_payloads(old(addrman)@, addrs@, sender, now),
{
    let mut i: usize = 0;
    while i < addrs.len()
        invariant
            addrman.wf(),
            0 <= i <= addrs.len(),
            addrman@ == add_payloads(old(addrman)@, addrs@.take(i as int), sender, now),
        decreases addrs.len() - i,
    {
        let p = addrs[i];
        let penalty = match sender {
            Some(s) => if p.address == s {
                0
            } else {
                RELAY_PENALTY
            },
            None => RELAY_PENALTY,
        };
        addrman.add(p.address, p.timestamp, penalty, now);
        proof {
            assert(addrs@.take(i + 1).drop_last() =~= addrs@.take(i as int));
            assert(addrs@.take(i + 1).last() == p);
        }
        i = i + 1;
    }
    proof {
        assert(addrs@.take(addrs.len() as int) =~= addrs@);
    }
}

} // verus!
