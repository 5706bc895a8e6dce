//! The event-driven simulation: an ordered queue of events, and the loop that takes
//! them in time order and hands them to the nodes.
use std::collections::BTreeMap;

use rand::rngs::StdRng;
use vstd::prelude::*;

use crate::address::{addr_key, lemma_key_injective, AddressId, NetworkSet, NetworkType};
use crate::fingerprint::common_count;
use crate::maps::map_keys;
use crate::network::{
    eligible, lemma_links_live_kept_on_join, lemma_links_live_kept_on_leave, lemma_links_live_kept_on_reconnect,
    lemma_replace_node, lemma_symmetry_kept_by_same_links, lemma_symmetry_kept_on_join, lemma_symmetry_kept_on_leave,
    lemma_symmetry_kept_on_reconnect, links_live, out_live, send_target, single_homed, symmetric, Network,
};
use crate::node::{copy_payloads, is_getaddr, AddrPayload, Event, NetworkMessage, Node, NodeId};
use crate::random::{choose_one, random_below, seeded_rng, shuffle};
use crate::statistics::{
    cache_pairs, count_entries, entry_pairs, fingerprint_ok, has_cache, kind_totals, nodes_of_kind,
    record_caches, ChurnStats, DayCounts, EntryFilter,
};
use crate::{SimulationConfig, StartMode};

verus! {

broadcast use {vstd::std_specs::hash::group_hash_axioms, vstd::std_specs::btree::group_btree_axioms};

/// Seconds in a simulated day.
pub const DAY_SECONDS: u64 = 86400;

/// Keys of the event queue: the time in the high 64 bits, an insertion counter in the low.
pub const SEQ_SPAN: u128 = 0x1_0000_0000_0000_0000;

pub open spec fn event_key(time: u64, seq: u64) -> u128 {
    (time as int * SEQ_SPAN as int + seq as int) as u128
}

pub open spec fn key_time(k: u128) -> int {
    k as int / SEQ_SPAN as int
}

pub open spec fn key_seq(k: u128) -> int {
    k as int % SEQ_SPAN as int
}

proof fn lemma_event_key(time: u64, seq: u64)
    ensures
        key_time(event_key(time, seq)) == time,
        key_seq(event_key(time, seq)) == seq,
{
    let s = SEQ_SPAN as int;
    assert(time as int * s + seq as int <= u128::MAX) by (nonlinear_arith)
        requires
            time <= u64::MAX,
            seq <= u64::MAX,
            s == 0x1_0000_0000_0000_0000int,
    ;
    vstd::arithmetic::div_mod::lemma_div_multiples_vanish_fancy(time as int, seq as int, s);
    vstd::arithmetic::div_mod::lemma_mod_multiples_vanish(time as int, seq as int, s);
    vstd::arithmetic::div_mod::lemma_small_mod(seq as nat, s as nat);
    assert(s * time + seq == time * s + seq) by (nonlinear_arith);
}

proof fn lemma_key_time_ordered(k1: u128, k2: u128)
    requires
        k1 <= k2,
    ensures
        key_time(k1) <= key_time(k2),
{
    vstd::arithmetic::div_mod::lemma_div_is_ordered(k1 as int, k2 as int, SEQ_SPAN as int);
}

/// Calls `BTreeMap::pop_first`, which removes and returns the entry with the smallest key,
/// or `None` when the map is empty.
#[verifier::external_body]
fn pop_first_event(m: &mut BTreeMap<u128, Event>) -> (r: Option<(u128, Event)>)
    ensures
        match r {
            None => old(m)@ == Map::<u128, Event>::empty() && final(m)@ == old(m)@,
            Some((k, e)) => {
                &&& old(m)@.contains_key(k)
                &&& old(m)@[k] == e
                &&& forall|k2: u128| #[trigger] old(m)@.contains_key(k2) ==> k <= k2
                &&& final(m)@ == old(m)@.remove(k)
            },
        },
{
    m.pop_first()
}

/// Calls `BTreeMap::first_key_value`: the entry with the smallest key, or `None` when the
/// map is empty.
#[verifier::external_body]
fn first_event(m: &BTreeMap<u128, Event>) -> (r: Option<(&u128, &Event)>)
    ensures
        match r {
            None => m@ == Map::<u128, Event>::empty(),
            Some((k, e)) => {
                &&& m@.contains_key(*k)
                &&& m@[*k] == *e
                &&& forall|k2: u128| #[trigger] m@.contains_key(k2) ==> *k <= k2
            },
        },
{
    m.first_key_value()
}

pub struct ScheduledEvent {
    pub inner: Event,
    pub time: u64,
}

impl ScheduledEvent {
    pub open spec fn spec_time(&self) -> u64 {
        self.time
    }

    pub fn new(event: Event, time: u64) -> (r: Self)
        ensures
            r.inner == event,
            r.spec_time() == time,
    {
        ScheduledEvent { inner: event, time }
    }

    pub fn time(&self) -> (r: u64)
        ensures
            r == self.spec_time(),
    {
        self.time
    }
}

/// Events ordered by time; among events at the same time, the one queued first comes first.
pub struct EventQueue {
    pub events: BTreeMap<u128, Event>,
    pub next_seq: u64,
}

impl EventQueue {
    /// Every key's counter was handed out already.
    pub open spec fn wf(&self) -> bool {
        forall|k: u128| #[trigger] self.events@.contains_key(k) ==> key_seq(k) < self.next_seq
    }

    /// Every event is queued under its own time.
    pub open spec fn timed(&self) -> bool {
        forall|k: u128| #[trigger]
            self.events@.contains_key(k) ==> key_time(k) == spec_event_time(&self.events@[k])
    }

    /// The earliest time of a queued event.
    pub open spec fn is_earliest(&self, t: int) -> bool {
        &&& exists|k: u128| #[trigger] self.events@.contains_key(k) && key_time(k) == t
        &&& forall|k: u128| #[trigger] self.events@.contains_key(k) ==> t <= key_time(k)
    }

    pub fn new() -> (r: Self)
        ensures
            r.wf(),
            r.events@ == Map::<u128, Event>::empty(),
            r.next_seq == 0,
    {
        EventQueue { events: BTreeMap::new(), next_seq: 0 }
    }

    pub fn len(&self) -> (r: usize)
        ensures
            r == self.events@.dom().len(),
    {
        self.events.len()
    }

    /// Queue an event at a time.
    pub fn push(&mut self, se: ScheduledEvent)
        requires
            old(self).wf(),
            old(self).next_seq < u64::MAX,
        ensures
            final(self).wf(),
            final(self).next_seq == old(self).next_seq + 1,
            !old(self).events@.contains_key(event_key(se.spec_time(), old(self).next_seq)),
            final(self).events@ == old(self).events@.insert(
                event_key(se.spec_time(), old(self).next_seq),
                se.inner,
            ),
    {
        let t = se.time;
        let k = (t as u128) * SEQ_SPAN + (self.next_seq as u128);
        proof {
            lemma_event_key(t, self.next_seq);
            assert(k == event_key(t, self.next_seq)) by (nonlinear_arith)
                requires
                    k == (t as u128) * SEQ_SPAN + (self.next_seq as u128),
                    t * SEQ_SPAN + self.next_seq <= u128::MAX,
            ;
        }
        self.events.insert(k, se.inner);
        self.next_seq = self.next_seq + 1;
    }

    /// Take the earliest event.
    pub fn pop(&mut self) -> (r: Option<ScheduledEvent>)
        requires
            old(self).wf(),
        ensures
            final(self).wf(),
            final(self).next_seq == old(self).next_seq,
            match r {
                None => old(self).events@ == Map::<u128, Event>::empty() && final(self).events@
                    == old(self).events@,
                Some(se) => {
                    &&& old(self).is_earliest(se.spec_time() as int)
                    &&& exists|k: u128|
                        #![trigger old(self).events@.contains_key(k)]
                        {
                            &&& old(self).events@.contains_key(k)
                            &&& key_time(k) == se.spec_time()
                            &&& old(self).events@[k] == se.inner
                            &&& final(self).events@ == old(self).events@.remove(k)
                        }
                },
            },
    {
        match pop_first_event(&mut self.events) {
            None => None,
            Some((k, e)) => {
                let t = (k / SEQ_SPAN) as u64;
                proof {
                    assert(k / SEQ_SPAN <= u64::MAX) by (nonlinear_arith)
                        requires
                            k <= u128::MAX,
                            SEQ_SPAN == 0x1_0000_0000_0000_0000u128,
                    ;
                    assert forall|k2: u128| #[trigger] old(self).events@.contains_key(k2) implies t
                        <= key_time(k2) by {
                        lemma_key_time_ordered(k, k2);
                    }
                }
                Some(ScheduledEvent { inner: e, time: t })
            },
        }
    }

    /// The time of the earliest event.
    pub fn peek_time(&self) -> (r: Option<u64>)
        ensures
            match r {
                None => self.events@ == Map::<u128, Event>::empty(),
                Some(t) => self.is_earliest(t as int),
            },
    {
        match first_event(&self.events) {
            None => None,
            Some((k, _e)) => {
                let t = (*k / SEQ_SPAN) as u64;
                proof {
                    assert(*k / SEQ_SPAN <= u64::MAX) by (nonlinear_arith)
                        requires
                            *k <= u128::MAX,
                            SEQ_SPAN == 0x1_0000_0000_0000_0000u128,
                    ;
                    assert forall|k2: u128| #[trigger] self.events@.contains_key(k2) implies t
                        <= key_time(k2) by {
                        lemma_key_time_ordered(*k, k2);
                    }
                }
                Some(t)
            },
        }
    }

    /// The earliest event and its time.
    pub fn peek(&self) -> (r: Option<(u64, &Event)>)
        ensures
            match r {
                None => self.events@ == Map::<u128, Event>::empty(),
                Some((t, e)) => {
                    &&& self.is_earliest(t as int)
                    &&& exists|k: u128|
                        #![trigger self.events@.contains_key(k)]
                        self.events@.contains_key(k) && key_time(k) == t && self.events@[k] == *e
                },
            },
    {
        match first_event(&self.events) {
            None => None,
            Some((k, e)) => {
                let t = (*k / SEQ_SPAN) as u64;
                proof {
                    assert(*k / SEQ_SPAN <= u64::MAX) by (nonlinear_arith)
                        requires
                            *k <= u128::MAX,
                            SEQ_SPAN == 0x1_0000_0000_0000_0000u128,
                    ;
                    assert forall|k2: u128| #[trigger] self.events@.contains_key(k2) implies t
                        <= key_time(k2) by {
                        lemma_key_time_ordered(*k, k2);
                    }
                }
                Some((t, e))
            },
        }
    }
}

/// An event never leaves the queue before an earlier one: whatever `pop` returns is no
/// later than anything still queued.
pub proof fn lemma_pop_earliest(q0: EventQueue, q1: EventQueue, t: int)
    requires
        q0.is_earliest(t),
        q0.events@.dom().finite(),
        exists|k: u128|
            #![trigger q0.events@.contains_key(k)]
            q0.events@.contains_key(k) && key_time(k) == t && q1.events@ == q0.events@.remove(k),
    ensures
        forall|k: u128| #[trigger] q1.events@.contains_key(k) ==> t <= key_time(k),
{
}

/// Returns 0 for onion-only, 1 for clearnet-only, 2 for dual-stack.
pub fn node_type_idx(networks: &[NetworkType]) -> (r: usize)
    ensures
        r == if networks@ == seq![NetworkType::Onion] {
            0usize
        } else if networks@ == seq![NetworkType::Clearnet] {
            1usize
        } else {
            2usize
        },
{
    if networks.len() == 1 {
        proof {
            assert(networks@ =~= seq![networks@[0]]);
        }
        match networks[0] {
            NetworkType::Onion => 0,
            NetworkType::Clearnet => 1,
        }
    } else {
        proof {
            assert(networks@.len() != 1);
        }
        2
    }
}

/// The time an event is due.
pub open spec fn spec_event_time(event: &Event) -> u64 {
    match event {
        Event::SendMessage { at, .. } => *at,
        Event::NodeJoin { at } => *at,
        Event::NodeLeave { at, .. } => *at,
        Event::NodeReconnect { at, .. } => *at,
        Event::SelfAnnounce { at, .. } => *at,
        Event::FlushAddrQueue { at, .. } => *at,
    }
}

/// The queue `m` after `es` were queued in order, numbered from `seq` on.
pub open spec fn queued(m: Map<u128, Event>, seq: u64, es: Seq<Event>) -> Map<u128, Event>
    decreases es.len(),
{
    if es.len() == 0 {
        m
    } else {
        queued(m, seq, es.drop_last()).insert(
            event_key(spec_event_time(&es.last()), (seq + es.len() - 1) as u64),
            es.last(),
        )
    }
}

/// Adding node `i` to a network of the nodes before it keeps the registry as `built`
/// describes it, and every node, old or new, dialed as many peers as it could.
proof fn lemma_build_step(
    pre: Network,
    post: Network,
    i: NodeId,
    networks: Seq<NetworkType>,
    reach: NetworkSet,
    outbounds: usize,
    algo: crate::node::GetaddrCacheAlgorithm,
    now: u64,
    r: Seq<Event>,
)
    requires
        pre.wf(),
        Network::add_post(pre, post, networks, reach, outbounds, algo, now, i, r),
        pre.nodes@.dom() == Set::new(|j: NodeId| j < i),
        registry_ok(pre, i as int),
        forall|j: NodeId| #[trigger] pre.nodes@.contains_key(j) ==> dialed(pre, outbounds, j),
    ensures
        registry_ok(post, i + 1),
        forall|j: NodeId| #[trigger] post.nodes@.contains_key(j) ==> dialed(post, outbounds, j),
{
    let node = post.nodes@[i];
    assert(post.nodes@.contains_key(i));
    assert(post.node_ok(i));
    assert forall|k: u128| #[trigger] post.registry.addresses@.contains_key(k) implies {
        let a = post.registry.addresses@[k];
        &&& a.is_active
        &&& a.owner_node < i + 1
        &&& post.nodes@.contains_key(a.owner_node)
        &&& a.is_reachable == post.nodes@[a.owner_node].reachable_networks.has(a.id.network)
    } by {
        let a = post.registry.addresses@[k];
        if pre.registry.addresses@.contains_key(k) {
            assert(pre.nodes@.contains_key(a.owner_node));
            assert(post.nodes@[a.owner_node].same_identity(&pre.nodes@[a.owner_node]));
        } else {
            assert(a.owner_node == i);
            assert(post.record_ok(a));
            assert(post.registry.addresses_of(i).contains(a.id));
            let q = choose|q: int| 0 <= q < node.addresses@.len() && node.addresses@[q] == a.id;
            assert(post.registry.has(node.addresses@[q]));
            assert(addr_key(a.id) == k);
        }
    }
    assert forall|j: NodeId| #[trigger] post.nodes@.contains_key(j) implies dialed(post, outbounds, j) by {
        let nets = Network::nets_of(post.nodes@[j].addresses@);
        let fpost = post.registry.addresses@.dom().filter(
            |k: u128| eligible(post.registry.addresses@[k], j, nets, Set::empty()) && post.registry.addresses@[k].owner_node < j,
        );
        if j == i {
            let all = post.registry.addresses@.dom().filter(
                |k: u128| eligible(post.registry.addresses@[k], i, nets, Set::empty()),
            );
            assert(fpost =~= all);
        } else {
            assert(pre.nodes@.contains_key(j));
            assert(dialed(pre, outbounds, j));
            assert(post.nodes@[j].same_identity(&pre.nodes@[j]));
            let fpre = pre.registry.addresses@.dom().filter(
                |k: u128| eligible(pre.registry.addresses@[k], j, nets, Set::empty()) && pre.registry.addresses@[k].owner_node < j,
            );
            assert(fpost =~= fpre);
            assert(post.nodes@[j].out_peers@.dom() =~= pre.nodes@[j].out_peers@.dom());
        }
    }
}

/// Queuing in order puts each event under the number it was given, and keeps every
/// entry numbered below the first new number.
proof fn lemma_queued(m: Map<u128, Event>, seq: u64, es: Seq<Event>)
    requires
        seq + es.len() <= u64::MAX,
    ensures
        forall|i: int|
            0 <= i < es.len() ==> #[trigger] queued(m, seq, es).contains_key(
                event_key(spec_event_time(&es[i]), (seq + i) as u64),
            ) && queued(m, seq, es)[event_key(spec_event_time(&es[i]), (seq + i) as u64)] == es[i],
        forall|k: u128|
            #[trigger] m.contains_key(k) && key_seq(k) < seq ==> queued(m, seq, es).contains_key(k)
                && queued(m, seq, es)[k] == m[k],
    decreases es.len(),
{
    if es.len() > 0 {
        let t = es.drop_last();
        lemma_queued(m, seq, t);
        let last = event_key(spec_event_time(&es.last()), (seq + es.len() - 1) as u64);
        lemma_event_key(spec_event_time(&es.last()), (seq + es.len() - 1) as u64);
        assert forall|i: int|
            0 <= i < es.len() implies #[trigger] queued(m, seq, es).contains_key(
                event_key(spec_event_time(&es[i]), (seq + i) as u64),
            ) && queued(m, seq, es)[event_key(spec_event_time(&es[i]), (seq + i) as u64)] == es[i] by {
            let ki = event_key(spec_event_time(&es[i]), (seq + i) as u64);
            lemma_event_key(spec_event_time(&es[i]), (seq + i) as u64);
            if i < t.len() {
                assert(es[i] == t[i]);
                assert(ki != last);
                assert(queued(m, seq, t).contains_key(ki));
            } else {
                assert(es[i] == es.last());
            }
        }
        assert forall|k: u128|
            #[trigger] m.contains_key(k) && key_seq(k) < seq implies queued(m, seq, es).contains_key(k)
                && queued(m, seq, es)[k] == m[k] by {
            assert(k != last);
        }
    }
}

/// Queuing what node `i` sent on joining keeps a GETADDR in the queue for every outbound
/// connection, old and new, while the queue has numbers left.
proof fn lemma_start_getaddrs_step(
    pre: Network,
    post: Network,
    q0: EventQueue,
    q1: EventQueue,
    i: NodeId,
    networks: Seq<NetworkType>,
    reach: NetworkSet,
    outbounds: usize,
    algo: crate::node::GetaddrCacheAlgorithm,
    now: u64,
    r: Seq<Event>,
)
    requires
        pre.wf(),
        Network::add_post(pre, post, networks, reach, outbounds, algo, now, i, r),
        q0.wf(),
        q1.next_seq < u64::MAX,
        q1.next_seq >= q0.next_seq,
        q0.next_seq + r.len() > u64::MAX ==> q1.next_seq == u64::MAX,
        q0.next_seq + r.len() <= u64::MAX ==> q1.events@ == queued(q0.events@, q0.next_seq, r),
        q0.next_seq < u64::MAX ==> start_getaddrs(pre, q0, now),
    ensures
        start_getaddrs(post, q1, now),
{
    lemma_queued(q0.events@, q0.next_seq, r);
    let node = post.nodes@[i];
    let m = if outbounds < post.eligible_count(i, Network::nets_of(node.addresses@), Set::empty()) {
        outbounds as int
    } else {
        post.eligible_count(i, Network::nets_of(node.addresses@), Set::empty()) as int
    };
    assert forall|j: NodeId, k: u128|
        #[trigger] post.nodes@.contains_key(j) && #[trigger] post.nodes@[j].out_peers@.contains_key(k) implies {
            let t = post.nodes@[j].out_peers@[k].addr;
            exists|qk: u128|
                #[trigger] q1.events@.contains_key(qk) && is_getaddr(q1.events@[qk], post.nodes@[j].own_addr(t.network)->0, t, now)
        } by {
        let t = post.nodes@[j].out_peers@[k].addr;
        assert(post.node_ok(j));
        assert(addr_key(t) == k);
        if j == i {
            assert(!pre.nodes@.contains_key(i)) by {
                if pre.nodes@.contains_key(i) {
                    assert(pre.node_ok(i));
                }
            }
            let q = choose|q: int| 0 <= q < m && k == addr_key(send_target(#[trigger] r[q]));
            lemma_key_injective(t, send_target(r[q]));
            let qk = event_key(spec_event_time(&r[q]), (q0.next_seq + q) as u64);
            assert(q1.events@.contains_key(qk));
        } else {
            assert(pre.nodes@.contains_key(j));
            assert(pre.nodes@[j].out_peers@.contains_key(k));
            assert(pre.node_ok(j));
            let t0 = pre.nodes@[j].out_peers@[k].addr;
            lemma_key_injective(t, t0);
            assert(post.nodes@[j].same_identity(&pre.nodes@[j]));
            let qk = choose|qk: u128|
                #[trigger] q0.events@.contains_key(qk) && is_getaddr(q0.events@[qk], pre.nodes@[j].own_addr(t0.network)->0, t0, now);
            assert(q1.events@.contains_key(qk));
        }
    }
}

/// The batches of `bs` one after the other.
pub open spec fn concat(bs: Seq<Seq<Event>>) -> Seq<Event>
    decreases bs.len(),
{
    if bs.len() == 0 {
        Seq::empty()
    } else {
        concat(bs.drop_last()) + bs.last()
    }
}

/// Queuing `a` then `b` is queuing `a` followed by `b`.
proof fn lemma_queued_append(m: Map<u128, Event>, seq: u64, a: Seq<Event>, b: Seq<Event>)
    requires
        seq + a.len() + b.len() <= u64::MAX,
    ensures
        queued(m, seq, a + b) == queued(queued(m, seq, a), (seq + a.len()) as u64, b),
    decreases b.len(),
{
    if b.len() == 0 {
        assert(a + b =~= a);
    } else {
        lemma_queued_append(m, seq, a, b.drop_last());
        assert((a + b).drop_last() =~= a + b.drop_last());
        assert((a + b).last() == b.last());
    }
}

/// What a batch of new connections sends is due no earlier than the batch itself.
proof fn lemma_batch_times(
    net: Network,
    id: NodeId,
    nets: NetworkSet,
    skip: Set<u128>,
    now: u64,
    m: int,
    r: Seq<Event>,
)
    requires
        m >= 0,
        Network::batch_ok(net, id, nets, skip, now, m, r),
    ensures
        forall|i: int| 0 <= i < r.len() ==> spec_event_time(&#[trigger] r[i]) >= now,
{
    assert forall|i: int| 0 <= i < r.len() implies spec_event_time(&#[trigger] r[i]) >= now by {
        if i < m {
            assert(is_getaddr(r[i], net.nodes@[id].own_addr(send_target(r[i]).network)->0, send_target(r[i]), now));
        } else {
            let j = (i - m) / 2;
            assert(0 <= j < m);
            let t = send_target(r[j]);
            assert(Network::timer_pair(net, id, t, now, r[m + 2 * j], r[m + 2 * j + 1]));
            assert(i == m + 2 * j || i == m + 2 * j + 1);
        }
    }
}

pub fn event_time(event: &Event) -> (r: u64)
    ensures
        r == spec_event_time(event),
{
    match event {
        Event::SendMessage { at, .. } => *at,
        Event::NodeJoin { at } => *at,
        Event::NodeLeave { at, .. } => *at,
        Event::NodeReconnect { at, .. } => *at,
        Event::SelfAnnounce { at, .. } => *at,
        Event::FlushAddrQueue { at, .. } => *at,
    }
}

/// Counts of nodes of each kind: onion-only, clearnet-only, dual-stack.
#[derive(Clone, Copy, PartialEq, Eq, Debug, Structural)]
pub struct KindCounts {
    pub onion: usize,
    pub clearnet: usize,
    pub dual: usize,
}

impl KindCounts {
    pub open spec fn zero_spec() -> KindCounts {
        KindCounts { onion: 0, clearnet: 0, dual: 0 }
    }

    pub fn zero() -> (r: Self)
        ensures
            r == KindCounts::zero_spec(),
    {
        KindCounts { onion: 0, clearnet: 0, dual: 0 }
    }

    /// The counts with one more node of kind `kind` (0, 1, or anything else for dual),
    /// held at the largest `usize`.
    pub open spec fn counted(self, kind: usize) -> KindCounts {
        if kind == 0 {
            KindCounts { onion: if self.onion < usize::MAX { (self.onion + 1) as usize } else { self.onion }, ..self }
        } else if kind == 1 {
            KindCounts { clearnet: if self.clearnet < usize::MAX { (self.clearnet + 1) as usize } else { self.clearnet }, ..self }
        } else {
            KindCounts { dual: if self.dual < usize::MAX { (self.dual + 1) as usize } else { self.dual }, ..self }
        }
    }

    pub fn count(&mut self, kind: usize)
        ensures
            *final(self) == old(self).counted(kind),
    {
        if kind == 0 {
            if self.onion < usize::MAX {
                self.onion = self.onion + 1;
            }
        } else if kind == 1 {
            if self.clearnet < usize::MAX {
                self.clearnet = self.clearnet + 1;
            }
        } else {
            if self.dual < usize::MAX {
                self.dual = self.dual + 1;
            }
        }
    }
}

/// The kind of a node on `networks`: 0 for onion-only, 1 for clearnet-only, 2 otherwise.
pub open spec fn kind_of(networks: Seq<NetworkType>) -> usize {
    if networks == seq![NetworkType::Onion] {
        0
    } else if networks == seq![NetworkType::Clearnet] {
        1
    } else {
        2
    }
}

/// The networks of a list of addresses, in order.
pub open spec fn networks_seq(s: Seq<AddressId>) -> Seq<NetworkType> {
    s.map_values(|a: AddressId| a.network)
}

/// The networks and listening networks of node number `i` of a network laid out by
/// `config`: onion-only nodes first, then clearnet-only, then dual-stack; within each
/// group the first `pct` percent listen. A joining node draws `i` at random.
pub open spec fn node_kind(config: SimulationConfig, i: int) -> (Seq<NetworkType>, NetworkSet) {
    let onion = config.onion as int;
    let clearnet = config.clearnet as int;
    let dual = config.dual_stack as int;
    if i < onion {
        (
            seq![NetworkType::Onion],
            NetworkSet { onion: i < onion * config.reachable_onion_pct / 100, clearnet: false },
        )
    } else if i < onion + clearnet {
        (
            seq![NetworkType::Clearnet],
            NetworkSet { onion: false, clearnet: i - onion < clearnet * config.reachable_clearnet_pct / 100 },
        )
    } else if i < onion + clearnet + dual {
        let j = i - onion - clearnet;
        (
            seq![NetworkType::Onion, NetworkType::Clearnet],
            NetworkSet {
                onion: j < dual * config.reachable_onion_pct / 100,
                clearnet: j < dual * config.reachable_clearnet_pct / 100,
            },
        )
    } else {
        (seq![NetworkType::Clearnet], NetworkSet { onion: false, clearnet: false })
    }
}

/// The number of nodes `config` asks for.
pub open spec fn config_total(config: SimulationConfig) -> int {
    config.onion + config.clearnet + config.dual_stack
}

/// The networks and listening networks of node number `i` (see `node_kind`).
pub fn node_kind_of(config: &SimulationConfig, i: u128) -> (r: (Vec<NetworkType>, NetworkSet))
    ensures
        r.0@ == node_kind(*config, i as int).0,
        r.1 == node_kind(*config, i as int).1,
{
    let onion = config.onion as u128;
    let clearnet = config.clearnet as u128;
    let dual = config.dual_stack as u128;
    let pct_onion = config.reachable_onion_pct as u128;
    let pct_clearnet = config.reachable_clearnet_pct as u128;
    assert(onion * pct_onion <= u128::MAX && clearnet * pct_clearnet <= u128::MAX && dual * pct_onion
        <= u128::MAX && dual * pct_clearnet <= u128::MAX) by (nonlinear_arith)
        requires
            onion <= u64::MAX,
            clearnet <= u64::MAX,
            dual <= u64::MAX,
            pct_onion <= 255,
            pct_clearnet <= 255,
    ;
    let mut nets: Vec<NetworkType> = Vec::new();
    if i < onion {
        nets.push(NetworkType::Onion);
        proof {
            assert(nets@ =~= seq![NetworkType::Onion]);
        }
        (nets, NetworkSet { onion: i < onion * pct_onion / 100, clearnet: false })
    } else if i < onion + clearnet {
        nets.push(NetworkType::Clearnet);
        proof {
            assert(nets@ =~= seq![NetworkType::Clearnet]);
        }
        (nets, NetworkSet { onion: false, clearnet: i - onion < clearnet * pct_clearnet / 100 })
    } else if i < onion + clearnet + dual {
        let j = i - onion - clearnet;
        nets.push(NetworkType::Onion);
        nets.push(NetworkType::Clearnet);
        proof {
            assert(nets@ =~= seq![NetworkType::Onion, NetworkType::Clearnet]);
        }
        (nets, NetworkSet { onion: j < dual * pct_onion / 100, clearnet: j < dual * pct_clearnet / 100 })
    } else {
        nets.push(NetworkType::Clearnet);
        proof {
            assert(nets@ =~= seq![NetworkType::Clearnet]);
        }
        (nets, NetworkSet { onion: false, clearnet: false })
    }
}

/// A copy of a list of node ids.
pub fn copy_ids(v: &Vec<NodeId>) -> (r: Vec<NodeId>)
    ensures
        r@ == v@,
{
    let mut r: Vec<NodeId> = Vec::new();
    let mut i: usize = 0;
    while i < v.len()
        invariant
            0 <= i <= v.len(),
            r@ == v@.take(i as int),
        decreases v.len() - i,
    {
        r.push(v[i]);
        proof {
            assert(v@.take(i + 1) =~= v@.take(i as int).push(v@[i as int]));
        }
        i = i + 1;
    }
    proof {
        assert(v@.take(v.len() as int) =~= v@);
    }
    r
}

/// The networks of a list of addresses, in order.
pub fn networks_vec(v: &Vec<AddressId>) -> (r: Vec<NetworkType>)
    ensures
        r@ == networks_seq(v@),
{
    let mut r: Vec<NetworkType> = Vec::new();
    let mut i: usize = 0;
    while i < v.len()
        invariant
            0 <= i <= v.len(),
            r@ == networks_seq(v@.take(i as int)),
        decreases v.len() - i,
    {
        r.push(v[i].network);
        proof {
            assert(v@.take(i + 1) =~= v@.take(i as int).push(v@[i as int]));
            assert(networks_seq(v@.take(i + 1)) =~= networks_seq(v@.take(i as int)).push(v@[i as int].network));
        }
        i = i + 1;
    }
    proof {
        assert(v@.take(v.len() as int) =~= v@);
    }
    r
}

/// `days` whole days before `now`, floored at zero.
pub open spec fn days_before(now: u64, days: int) -> u64 {
    if now >= days * DAY_SECONDS {
        (now - days * DAY_SECONDS) as u64
    } else {
        0
    }
}

/// The timestamps a DNS seed hands out: three to seven whole days before `now`.
pub open spec fn dns_stamp_ok(v: u64, now: u64) -> bool {
    exists|days: int| 3 <= days <= 7 && v == #[trigger] days_before(now, days)
}

/// Fill a node's empty addrman with `addrs`, each at timestamp `ts` with no penalty.
pub fn seed_addrman(n: &mut Node, addrs: &Vec<AddressId>, ts: u64, now: u64)
    requires
        old(n).wf(),
        old(n).addrman@ == Map::<AddressId, u64>::empty(),
    ensures
        final(n).wf(),
        *final(n) == (Node { addrman: final(n).addrman, ..*old(n) }),
        final(n).addrman@ == Map::new(|a: AddressId| addrs@.contains(a), |a: AddressId| ts),
{
    let mut i: usize = 0;
    while i < addrs.len()
        invariant
            n.wf(),
            *n == (Node { addrman: n.addrman, ..*old(n) }),
            0 <= i <= addrs.len(),
            n.addrman@ == Map::new(|a: AddressId| addrs@.take(i as int).contains(a), |a: AddressId| ts),
        decreases addrs.len() - i,
    {
        let a = addrs[i];
        n.addrman.add(a, ts, 0, now);
        proof {
            let t1 = addrs@.take(i + 1);
            assert(t1 =~= addrs@.take(i as int).push(a));
            assert forall|x: AddressId| #[trigger] t1.contains(x) == (addrs@.take(i as int).contains(x) || x == a) by {
                if addrs@.take(i as int).contains(x) {
                    let q = choose|q: int| 0 <= q < i && addrs@.take(i as int)[q] == x;
                    assert(t1[q] == x);
                }
                if x == a {
                    assert(t1[i as int] == a);
                }
            }
            assert(n.addrman@ =~= Map::new(|x: AddressId| t1.contains(x), |x: AddressId| ts));
        }
        i = i + 1;
    }
    proof {
        assert(addrs@.take(addrs@.len() as int) =~= addrs@);
    }
}

/// Fill a node's empty addrman with `sample`, each address at a timestamp a random
/// three to seven days before `now`, with no penalty.
pub fn seed_dns(n: &mut Node, sample: &Vec<AddressId>, now: u64, rng: &mut StdRng)
    requires
        old(n).wf(),
        old(n).addrman@ == Map::<AddressId, u64>::empty(),
    ensures
        final(n).wf(),
        *final(n) == (Node { addrman: final(n).addrman, ..*old(n) }),
        final(n).addrman@.dom() == sample@.to_set(),
        forall|a: AddressId| #[trigger] final(n).addrman@.contains_key(a) ==> dns_stamp_ok(final(n).addrman@[a], now),
{
    let mut i: usize = 0;
    while i < sample.len()
        invariant
            n.wf(),
            *n == (Node { addrman: n.addrman, ..*old(n) }),
            0 <= i <= sample.len(),
            n.addrman@.dom() == sample@.take(i as int).to_set(),
            forall|a: AddressId| #[trigger] n.addrman@.contains_key(a) ==> dns_stamp_ok(n.addrman@[a], now),
        decreases sample.len() - i,
    {
        let a = sample[i];
        let age = random_below(rng, 3, 8);
        let ts = now.saturating_sub(age * DAY_SECONDS);
        n.addrman.add(a, ts, 0, now);
        proof {
            assert(ts == days_before(now, age as int));
            assert(dns_stamp_ok(ts, now));
            let t1 = sample@.take(i + 1);
            assert(t1 =~= sample@.take(i as int).push(a));
            assert forall|x: AddressId| #[trigger] t1.contains(x) == (sample@.take(i as int).contains(x) || x == a) by {
                if sample@.take(i as int).contains(x) {
                    let q = choose|q: int| 0 <= q < i && sample@.take(i as int)[q] == x;
                    assert(t1[q] == x);
                }
                if x == a {
                    assert(t1[i as int] == a);
                }
            }
            assert(n.addrman@.dom() =~= t1.to_set());
        }
        i = i + 1;
    }
    proof {
        assert(sample@.take(sample@.len() as int) =~= sample@);
    }
}

/// The smaller of two sizes.
pub open spec fn min_len(a: int, b: int) -> int {
    if a < b {
        a
    } else {
        b
    }
}

/// A random selection of `size` distinct items of `all` (all of them when there are
/// fewer): `all` shuffled, then cut to `size`.
pub fn random_sample(all: &Vec<AddressId>, size: usize, rng: &mut StdRng) -> (r: Vec<AddressId>)
    requires
        all@.no_duplicates(),
    ensures
        r@.len() == min_len(size as int, all@.len() as int),
        r@.no_duplicates(),
        forall|a: AddressId| #[trigger] r@.contains(a) ==> all@.contains(a),
{
    let mut mixed = crate::network::copy_addrs(all);
    shuffle(rng, &mut mixed);
    proof {
        broadcast use vstd::seq_lib::group_to_multiset_ensures;

        all@.lemma_multiset_has_no_duplicates();
        assert forall|x: AddressId| mixed@.to_multiset().contains(x) implies mixed@.to_multiset().count(x) == 1 by {
            assert(all@.to_multiset().contains(x));
        }
        mixed@.lemma_multiset_has_no_duplicates_conv();
        assert(mixed@.len() == all@.len()) by {
            assert(mixed@.to_multiset().len() == all@.to_multiset().len());
        }
        assert forall|x: AddressId| #[trigger] mixed@.contains(x) implies all@.contains(x) by {
            assert(mixed@.to_multiset().count(x) > 0);
            assert(all@.to_multiset().count(x) > 0);
        }
    }
    let n = if size < mixed.len() {
        size
    } else {
        mixed.len()
    };
    let mut r: Vec<AddressId> = Vec::new();
    let mut i: usize = 0;
    while i < n
        invariant
            0 <= i <= n,
            n <= mixed.len(),
            r@ == mixed@.take(i as int),
        decreases n - i,
    {
        r.push(mixed[i]);
        proof {
            assert(mixed@.take(i + 1) =~= mixed@.take(i as int).push(mixed@[i as int]));
        }
        i = i + 1;
    }
    proof {
        assert forall|a: AddressId| #[trigger] r@.contains(a) implies all@.contains(a) by {
            let q = choose|q: int| 0 <= q < r@.len() && r@[q] == a;
            assert(mixed@[q] == a);
            assert(mixed@.contains(a));
        }
    }
    r
}

/// The number of addresses handed out to the first `i` nodes of a layout: one each,
/// two for each dual-stack node.
pub open spec fn addr_count(config: SimulationConfig, i: int) -> int {
    if i <= config.onion + config.clearnet {
        i
    } else {
        2 * i - config.onion - config.clearnet
    }
}

/// The nodes and addresses `config` asks for can be numbered.
pub open spec fn build_fits(config: SimulationConfig) -> bool {
    &&& config_total(config) < usize::MAX
    &&& addr_count(config, config_total(config)) <= u64::MAX
}

/// Node `n` is node number `j` of the layout `config` describes.
pub open spec fn laid_out(n: Node, config: SimulationConfig, j: int) -> bool {
    &&& networks_seq(n.addresses@) == node_kind(config, j).0
    &&& n.reachable_networks == node_kind(config, j).1
    &&& n.cache_algo == config.cache_algo
    &&& forall|q: int| 0 <= q < n.addresses@.len() ==> #[trigger] n.addresses@[q].id == addr_count(config, j) + q
}

/// The registered addresses node `j` could dial when it joined: those of the nodes
/// before it that listen, on its own networks.
pub open spec fn early_eligible(net: Network, j: NodeId) -> nat {
    let nets = Network::nets_of(net.nodes@[j].addresses@);
    net.registry.addresses@.dom().filter(
        |k: u128| eligible(net.registry.addresses@[k], j, nets, Set::empty()) && net.registry.addresses@[k].owner_node < j,
    ).len()
}

/// Every registered address is active, belongs to a node of the network numbered
/// below `n`, and is marked listening exactly when its owner listens on its network.
pub open spec fn registry_ok(net: Network, n: int) -> bool {
    forall|k: u128| #[trigger]
        net.registry.addresses@.contains_key(k) ==> {
            let a = net.registry.addresses@[k];
            &&& a.is_active
            &&& a.owner_node < n
            &&& net.nodes@.contains_key(a.owner_node)
            &&& a.is_reachable == net.nodes@[a.owner_node].reachable_networks.has(a.id.network)
        }
}

/// The start of a simulation from `pre` to `post`, node by node: `nets[i + 1]` is
/// `nets[i]` after node `i` joined as `add_node` does, sending `bs[i]`; the queue is
/// `pre`'s with every batch queued in order; `post`'s network is the last of `nets`
/// with the addrmans seeded.
pub open spec fn start_trace(pre: Simulator, post: Simulator, nets: Seq<Network>, bs: Seq<Seq<Event>>) -> bool {
    let total = config_total(pre.config);
    &&& nets.len() == total + 1
    &&& bs.len() == total
    &&& nets[0] == pre.network
    &&& forall|i: int|
        0 <= i < total ==> #[trigger] Network::add_post(
            nets[i],
            nets[i + 1],
            node_kind(pre.config, i).0,
            node_kind(pre.config, i).1,
            pre.config.outbounds,
            pre.config.cache_algo,
            pre.start_time,
            i as NodeId,
            bs[i],
        )
    &&& post.event_queue.events@ == queued(pre.event_queue.events@, pre.event_queue.next_seq, concat(bs))
    &&& post.network.registry == nets[total].registry
    &&& post.network.nodes@.dom() == nets[total].nodes@.dom()
    &&& forall|x: NodeId| #[trigger]
        post.network.nodes@.contains_key(x) ==> post.network.nodes@[x] == (Node {
            addrman: post.network.nodes@[x].addrman,
            ..nets[total].nodes@[x]
        })
}

/// Every outbound connection has its GETADDR, sent at `now`, waiting in the queue.
pub open spec fn start_getaddrs(net: Network, q: EventQueue, now: u64) -> bool {
    forall|j: NodeId, k: u128|
        #[trigger] net.nodes@.contains_key(j) && #[trigger] net.nodes@[j].out_peers@.contains_key(k) ==> {
            let t = net.nodes@[j].out_peers@[k].addr;
            exists|qk: u128|
                #[trigger] q.events@.contains_key(qk) && is_getaddr(q.events@[qk], net.nodes@[j].own_addr(t.network)->0, t, now)
        }
}

/// Node `j` opened as many outbound connections as it was asked for, or as there were
/// addresses it could dial.
pub open spec fn dialed(net: Network, outbounds: usize, j: NodeId) -> bool {
    net.nodes@[j].out_peers@.dom().len() == min_len(outbounds as int, early_eligible(net, j) as int)
}

/// The size of the random sample a DNS start gives each node: `pct` percent of the
/// addresses, at least one.
pub open spec fn dns_sample_size(count: int, pct: int) -> int {
    if count * pct / 100 == 0 {
        1
    } else {
        count * pct / 100
    }
}

/// What node `x`'s addrman holds right after the start, by start mode.
pub open spec fn seeded(config: SimulationConfig, net: Network, x: NodeId, now: u64, m: Map<AddressId, u64>) -> bool {
    match config.start_mode {
        StartMode::Warm => m == Map::new(|a: AddressId| net.registry.has(a), |a: AddressId| now),
        StartMode::Cold => m == Map::<AddressId, u64>::empty(),
        StartMode::Peers => m == Map::new(|a: AddressId| net.nodes@[x].has_peer(a), |a: AddressId| now),
        StartMode::Dns => {
            &&& forall|a: AddressId| #[trigger] m.contains_key(a) ==> net.registry.has(a) && dns_stamp_ok(m[a], now)
            &&& m.dom().len() == min_len(
                dns_sample_size(net.registry.addresses@.dom().len() as int, config.dns_sample_pct as int),
                net.registry.addresses@.dom().len() as int,
            )
        },
    }
}

/// The network right after the start: nodes numbered from 0 in the layout `config`
/// describes, connected, with addrmans seeded as the start mode says at `now`.
pub open spec fn built(net: Network, config: SimulationConfig, now: u64) -> bool {
    &&& net.nodes@.dom() == Set::new(|i: NodeId| i < config_total(config))
    &&& registry_ok(net, config_total(config))
    &&& forall|i: NodeId| #[trigger] net.nodes@.contains_key(i) ==> dialed(net, config.outbounds, i)
    &&& symmetric(net)
    &&& out_live(net)
    &&& single_homed(net)
    &&& forall|i: NodeId| #[trigger] net.nodes@.contains_key(i) ==> laid_out(net.nodes@[i], config, i as int)
    &&& forall|i: NodeId| #[trigger] net.nodes@.contains_key(i) ==> seeded(config, net, i, now, net.nodes@[i].addrman@)
}

/// The simulation: the network, the queue of pending events, the random generator
/// every choice is drawn from, and the statistics collected so far.
pub struct Simulator {
    pub network: Network,
    pub event_queue: EventQueue,
    pub rng: StdRng,
    pub config: SimulationConfig,
    pub stats: Vec<DayCounts>,
    /// Unix timestamp at which the simulation starts. All event times and
    /// day boundaries are offsets from this value.
    pub start_time: u64,
    /// Nodes that joined this day, by kind.
    pub day_joined: KindCounts,
    /// Nodes that left this day, by kind.
    pub day_left: KindCounts,
}

impl Simulator {
    pub open spec fn wf(&self) -> bool {
        &&& self.network.wf()
        &&& self.event_queue.wf()
        &&& self.event_queue.timed()
    }

    /// A simulator over a fresh network laid out as `config` says, with the generator
    /// seeded by `seed` and the clock starting at `start_time`.
    pub fn new(config: SimulationConfig, seed: u64, start_time: u64) -> (r: Simulator)
        requires
            build_fits(config),
        ensures
            r.wf(),
            r.config == config,
            r.start_time == start_time,
            r.stats@.len() == 0,
            r.day_joined == KindCounts::zero_spec(),
            r.day_left == KindCounts::zero_spec(),
            built(r.network, config, start_time),
            r.event_queue.next_seq < u64::MAX ==> start_getaddrs(r.network, r.event_queue, start_time),
            r.event_queue.next_seq < u64::MAX ==> exists|s0: Simulator, nets: Seq<Network>, bs: Seq<Seq<Event>>|
                #[trigger] start_trace(s0, r, nets, bs) && s0.config == config && s0.start_time == start_time
                    && s0.network.nodes@ == Map::<NodeId, Node>::empty() && s0.network.registry.addresses@ == Map::<
                    u128,
                    crate::address::Address,
                >::empty() && s0.network.next_node_id == 0 && s0.network.next_addr_id == 0
                    && s0.event_queue.events@ == Map::<u128, Event>::empty() && s0.event_queue.next_seq == 0,
    {
        let mut sim = Simulator {
            network: Network::new(),
            event_queue: EventQueue::new(),
            rng: seeded_rng(seed),
            config,
            stats: Vec::new(),
            start_time,
            day_joined: KindCounts::zero(),
            day_left: KindCounts::zero(),
        };
        let ghost s0 = sim;
        sim.build_initial_network();
        proof {
            if sim.event_queue.next_seq < u64::MAX {
                let (nets, bs) = choose|nets: Seq<Network>, bs: Seq<Seq<Event>>| #[trigger] start_trace(s0, sim, nets, bs);
                assert(start_trace(s0, sim, nets, bs));
            }
        }
        sim
    }

    /// Add the configured nodes, in the order of `node_kind`, each connecting to up to
    /// `outbounds` random listening peers, then seed every addrman as the start mode says.
    fn build_initial_network(&mut self)
        requires
            old(self).wf(),
            old(self).network.nodes@ == Map::<NodeId, Node>::empty(),
            old(self).network.registry.addresses@ == Map::<u128, crate::address::Address>::empty(),
            old(self).network.next_node_id == 0,
            old(self).network.next_addr_id == 0,
            build_fits(old(self).config),
        ensures
            final(self).wf(),
            *final(self) == (Simulator {
                network: final(self).network,
                event_queue: final(self).event_queue,
                rng: final(self).rng,
                ..*old(self)
            }),
            built(final(self).network, old(self).config, old(self).start_time),
            final(self).event_queue.next_seq < u64::MAX ==> start_getaddrs(
                final(self).network,
                final(self).event_queue,
                old(self).start_time,
            ),
            final(self).event_queue.next_seq < u64::MAX ==> exists|nets: Seq<Network>, bs: Seq<Seq<Event>>|
                #[trigger] start_trace(*old(self), *final(self), nets, bs),
    {
        let ghost pre = *self;
        let ghost mut nets_t: Seq<Network> = seq![self.network];
        let ghost mut bs_t: Seq<Seq<Event>> = Seq::empty();
        let now = self.start_time;
        let total: usize = self.config.onion + self.config.clearnet + self.config.dual_stack;
        let outbounds = self.config.outbounds;
        let algo = self.config.cache_algo;
        let mut i: usize = 0;
        while i < total
            invariant
                self.wf(),
                *self == (Simulator { network: self.network, event_queue: self.event_queue, rng: self.rng, ..pre }),
                build_fits(pre.config),
                total == config_total(pre.config),
                outbounds == pre.config.outbounds,
                algo == pre.config.cache_algo,
                now == pre.start_time,
                0 <= i <= total,
                self.network.next_node_id == i,
                self.network.next_addr_id == addr_count(pre.config, i as int),
                self.network.nodes@.dom() == Set::new(|j: NodeId| j < i),
                forall|j: NodeId| #[trigger]
                    self.network.nodes@.contains_key(j) ==> laid_out(self.network.nodes@[j], pre.config, j as int)
                        && self.network.nodes@[j].addrman@ == Map::<AddressId, u64>::empty(),
                registry_ok(self.network, i as int),
                forall|j: NodeId| #[trigger] self.network.nodes@.contains_key(j) ==> dialed(self.network, outbounds, j),
                symmetric(self.network),
                out_live(self.network),
                single_homed(self.network),
                self.event_queue.next_seq < u64::MAX ==> start_getaddrs(self.network, self.event_queue, now),
                nets_t.len() == i + 1,
                bs_t.len() == i,
                nets_t[0] == pre.network,
                nets_t[i as int] == self.network,
                forall|j: int|
                    0 <= j < i ==> #[trigger] Network::add_post(
                        nets_t[j],
                        nets_t[j + 1],
                        node_kind(pre.config, j).0,
                        node_kind(pre.config, j).1,
                        pre.config.outbounds,
                        pre.config.cache_algo,
                        pre.start_time,
                        j as NodeId,
                        bs_t[j],
                    ),
                self.event_queue.next_seq < u64::MAX ==> self.event_queue.events@ == queued(
                    pre.event_queue.events@,
                    pre.event_queue.next_seq,
                    concat(bs_t),
                ) && self.event_queue.next_seq == pre.event_queue.next_seq + concat(bs_t).len(),
            decreases total - i,
        {
            let (networks, reachable_on) = node_kind_of(&self.config, i as u128);
            let ghost nets = networks@;
            let ghost before = self.network;
            proof {
                assert(addr_count(pre.config, i as int) + nets.len() == addr_count(pre.config, i + 1));
                assert(addr_count(pre.config, i + 1) <= addr_count(pre.config, total as int));
            }
            let (_, events) = self.network.add_node(networks, reachable_on, outbounds, algo, now, &mut self.rng);
            proof {
                lemma_build_step(before, self.network, i, nets, reachable_on, outbounds, algo, now, events@);
                lemma_links_live_kept_on_join(before, self.network, nets, reachable_on, outbounds, algo, now, i, events@);
                let net1 = self.network;
                assert forall|j: NodeId, p: int, q: int|
                    #![trigger net1.nodes@[j].addresses@[p], net1.nodes@[j].addresses@[q]]
                    net1.nodes@.contains_key(j) && 0 <= p < net1.nodes@[j].addresses@.len() && 0 <= q
                        < net1.nodes@[j].addresses@.len() && p != q implies net1.nodes@[j].addresses@[p].network
                        != net1.nodes@[j].addresses@[q].network by {
                    if j == i {
                        assert(net1.nodes@[j].addresses@[p].network == nets[p]);
                        assert(net1.nodes@[j].addresses@[q].network == nets[q]);
                    } else {
                        assert(before.nodes@.contains_key(j));
                        assert(net1.nodes@[j].same_identity(&before.nodes@[j]));
                        assert(before.nodes@[j].addresses@[p] == net1.nodes@[j].addresses@[p]);
                        assert(before.nodes@[j].addresses@[q] == net1.nodes@[j].addresses@[q]);
                    }
                }
            }
            let ghost q0 = self.event_queue;
            let ghost ev = events@;
            let ghost net1 = self.network;
            self.add_events(events);
            proof {
                let n2 = nets_t.push(net1);
                let b2 = bs_t.push(ev);
                assert(b2.drop_last() =~= bs_t);
                assert(concat(b2) == concat(bs_t) + ev);
                if self.event_queue.next_seq < u64::MAX {
                    assert(q0.next_seq + ev.len() <= u64::MAX);
                    lemma_queued_append(pre.event_queue.events@, pre.event_queue.next_seq, concat(bs_t), ev);
                }
                assert forall|j: int|
                    0 <= j < i + 1 implies #[trigger] Network::add_post(
                        n2[j],
                        n2[j + 1],
                        node_kind(pre.config, j).0,
                        node_kind(pre.config, j).1,
                        pre.config.outbounds,
                        pre.config.cache_algo,
                        pre.start_time,
                        j as NodeId,
                        b2[j],
                    ) by {
                    if j < i {
                        assert(n2[j] == nets_t[j] && n2[j + 1] == nets_t[j + 1] && b2[j] == bs_t[j]);
                    } else {
                        assert(n2[j] == before && n2[j + 1] == net1 && b2[j] == ev);
                    }
                }
                nets_t = n2;
                bs_t = b2;
            }
            proof {
                if self.event_queue.next_seq < u64::MAX {
                    lemma_start_getaddrs_step(before, net1, q0, self.event_queue, i, nets, reachable_on, outbounds, algo, now, ev);
                }
            }
            proof {
                assert(self.network.nodes@.dom() =~= Set::new(|j: NodeId| j < i + 1));
                assert forall|j: NodeId| #[trigger] self.network.nodes@.contains_key(j) implies laid_out(
                    self.network.nodes@[j],
                    pre.config,
                    j as int,
                ) && self.network.nodes@[j].addrman@ == Map::<AddressId, u64>::empty() by {
                    if j == i {
                        let n = self.network.nodes@[j];
                        assert(networks_seq(n.addresses@) =~= nets);
                        assert forall|q: int| 0 <= q < n.addresses@.len() implies #[trigger] n.addresses@[q].id
                            == addr_count(pre.config, j as int) + q by {}
                    } else {
                        assert(before.nodes@.contains_key(j));
                    }
                }
            }
            i = i + 1;
        }
        let ghost p1 = self.network;
        let ghost q1 = self.event_queue;
        let mode = self.config.start_mode;
        let all = self.network.registry.ids();
        let pct = self.config.dns_sample_pct as u128;
        let count = all.len() as u128;
        assert(count * pct <= u128::MAX) by (nonlinear_arith)
            requires
                count <= u64::MAX,
                pct <= 255,
        ;
        let scaled = count * pct / 100;
        let sample_size: usize = if scaled == 0 {
            1
        } else if scaled > usize::MAX as u128 {
            usize::MAX
        } else {
            scaled as usize
        };
        let mut j: usize = 0;
        while j < total
            invariant
                self.wf(),
                *self == (Simulator { network: self.network, event_queue: self.event_queue, rng: self.rng, ..pre }),
                total == config_total(pre.config),
                now == pre.start_time,
                mode == pre.config.start_mode,
                p1.wf(),
                p1.nodes@.dom() == Set::new(|x: NodeId| x < total),
                forall|x: NodeId| #[trigger]
                    p1.nodes@.contains_key(x) ==> laid_out(p1.nodes@[x], pre.config, x as int)
                        && p1.nodes@[x].addrman@ == Map::<AddressId, u64>::empty(),
                registry_ok(p1, total as int),
                forall|x: NodeId| #[trigger] p1.nodes@.contains_key(x) ==> dialed(p1, pre.config.outbounds, x),
                symmetric(p1),
                out_live(p1),
                single_homed(p1),
                self.event_queue == q1,
                q1.next_seq < u64::MAX ==> start_getaddrs(p1, q1, now),
                forall|a: AddressId| #[trigger] all@.contains(a) <==> p1.registry.has(a),
                all@.no_duplicates(),
                all@.len() == p1.registry.addresses@.dom().len(),
                min_len(sample_size as int, all@.len() as int) == min_len(
                    dns_sample_size(all@.len() as int, pre.config.dns_sample_pct as int),
                    all@.len() as int,
                ),
                0 <= j <= total,
                self.network.registry == p1.registry,
                self.network.next_node_id == p1.next_node_id,
                self.network.next_addr_id == p1.next_addr_id,
                self.network.nodes@.dom() == p1.nodes@.dom(),
                forall|x: NodeId| #[trigger]
                    self.network.nodes@.contains_key(x) ==> self.network.nodes@[x] == (Node {
                        addrman: self.network.nodes@[x].addrman,
                        ..p1.nodes@[x]
                    }),
                forall|x: NodeId| #[trigger]
                    self.network.nodes@.contains_key(x) ==> if x < j {
                        seeded(pre.config, p1, x, now, self.network.nodes@[x].addrman@)
                    } else {
                        self.network.nodes@[x].addrman@ == Map::<AddressId, u64>::empty()
                    },
            decreases total - j,
        {
            let ghost before = self.network;
            match self.network.nodes.remove(&j) {
                Some(n) => {
                    let mut n = n;
                    proof {
                        assert(before.node_ok(j));
                    }
                    match mode {
                        StartMode::Warm => {
                            seed_addrman(&mut n, &all, now, now);
                            proof {
                                assert(n.addrman@ =~= Map::new(|a: AddressId| p1.registry.has(a), |a: AddressId| now));
                            }
                        },
                        StartMode::Peers => {
                            let ghost n0 = n;
                            let conn = n.connected_addrs();
                            seed_addrman(&mut n, &conn, now, now);
                            proof {
                                assert(n0 == (Node { addrman: n0.addrman, ..p1.nodes@[j] }));
                                assert forall|a: AddressId| #[trigger] conn@.contains(a) <==> p1.nodes@[j].has_peer(a) by {
                                    if conn@.contains(a) {
                                        let q = choose|q: int| 0 <= q < conn@.len() && conn@[q] == a;
                                        assert(n0.has_peer(conn@[q]));
                                    }
                                    if p1.nodes@[j].has_peer(a) {
                                        assert(n0.has_peer(a));
                                    }
                                }
                                assert(n.addrman@ =~= Map::new(|a: AddressId| p1.nodes@[j].has_peer(a), |a: AddressId| now));
                            }
                        },
                        StartMode::Dns => {
                            let sample = random_sample(&all, sample_size, &mut self.rng);
                            seed_dns(&mut n, &sample, now, &mut self.rng);
                            proof {
                                sample@.unique_seq_to_set();
                            }
                        },
                        StartMode::Cold => {},
                    }
                    self.network.nodes.insert(j, n);
                    proof {
                        assert(self.network.nodes@ =~= before.nodes@.insert(j, self.network.nodes@[j]));
                        lemma_replace_node(before, self.network, j);
                    }
                },
                None => {
                    proof {
                        assert(false);
                    }
                },
            }
            proof {
                assert forall|x: NodeId| #[trigger] self.network.nodes@.contains_key(x) implies self.network.nodes@[x]
                    == (Node { addrman: self.network.nodes@[x].addrman, ..p1.nodes@[x] }) by {
                    if x != j {
                        assert(before.nodes@.contains_key(x));
                    }
                }
                assert forall|x: NodeId| #[trigger] self.network.nodes@.contains_key(x) implies if x < j + 1 {
                    seeded(pre.config, p1, x, now, self.network.nodes@[x].addrman@)
                } else {
                    self.network.nodes@[x].addrman@ == Map::<AddressId, u64>::empty()
                } by {
                    if x != j {
                        assert(before.nodes@.contains_key(x));
                    }
                }
            }
            j = j + 1;
        }
        proof {
            assert forall|x: NodeId| #[trigger] self.network.nodes@.contains_key(x) implies laid_out(
                self.network.nodes@[x],
                pre.config,
                x as int,
            ) by {
                assert(p1.nodes@.contains_key(x));
            }
            assert forall|x: NodeId, k: u128|
                #[trigger] self.network.nodes@.contains_key(x) && #[trigger] self.network.nodes@[x].out_peers@.contains_key(k)
                    implies {
                    let rec = self.network.registry.record(self.network.nodes@[x].out_peers@[k].addr);
                    rec.is_active && rec.owner_node != x
                } by {
                assert(p1.nodes@.contains_key(x));
                assert(self.network.nodes@[x].out_peers == p1.nodes@[x].out_peers);
            }
            assert forall|k: u128| #[trigger] self.network.registry.addresses@.contains_key(k) implies {
                let a = self.network.registry.addresses@[k];
                &&& a.is_active
                &&& a.owner_node < total
                &&& self.network.nodes@.contains_key(a.owner_node)
                &&& a.is_reachable == self.network.nodes@[a.owner_node].reachable_networks.has(a.id.network)
            } by {
                let a = p1.registry.addresses@[k];
                assert(p1.nodes@.contains_key(a.owner_node));
            }
            assert forall|x: NodeId| #[trigger] self.network.nodes@.contains_key(x) implies dialed(
                self.network,
                pre.config.outbounds,
                x,
            ) by {
                assert(p1.nodes@.contains_key(x));
                assert(dialed(p1, pre.config.outbounds, x));
                let nets = Network::nets_of(p1.nodes@[x].addresses@);
                assert(self.network.registry.addresses@.dom().filter(
                    |k: u128| eligible(self.network.registry.addresses@[k], x, nets, Set::empty())
                        && self.network.registry.addresses@[k].owner_node < x,
                ) =~= p1.registry.addresses@.dom().filter(
                    |k: u128| eligible(p1.registry.addresses@[k], x, nets, Set::empty()) && p1.registry.addresses@[k].owner_node < x,
                ));
            }
            if q1.next_seq < u64::MAX {
                assert forall|x: NodeId, k: u128|
                    #[trigger] self.network.nodes@.contains_key(x) && #[trigger] self.network.nodes@[x].out_peers@.contains_key(k)
                        implies {
                        let t = self.network.nodes@[x].out_peers@[k].addr;
                        exists|qk: u128|
                            #[trigger] self.event_queue.events@.contains_key(qk) && is_getaddr(
                                self.event_queue.events@[qk],
                                self.network.nodes@[x].own_addr(t.network)->0,
                                t,
                                now,
                            )
                    } by {
                    assert(p1.nodes@.contains_key(x));
                    assert(p1.nodes@[x].out_peers@.contains_key(k));
                }
            }
            if self.event_queue.next_seq < u64::MAX {
                assert(nets_t[total as int] == p1);
                assert(start_trace(pre, *self, nets_t, bs_t));
            }
            let fin = self.network;
            assert forall|x: NodeId, k: u128|
                #[trigger] fin.nodes@.contains_key(x) && #[trigger] fin.nodes@[x].out_peers@.contains_key(k)
                    implies {
                    let t = fin.nodes@[x].out_peers@[k].addr;
                    let o = fin.registry.record(t).owner_node;
                    &&& fin.nodes@.contains_key(o)
                    &&& fin.nodes@[o].in_peers@.contains_key(addr_key(fin.nodes@[x].own_addr(t.network)->0))
                } by {
                assert(p1.nodes@.contains_key(x));
                assert(p1.nodes@[x].out_peers@.contains_key(k));
                let t = p1.nodes@[x].out_peers@[k].addr;
                let o = p1.registry.record(t).owner_node;
                assert(p1.nodes@.contains_key(o));
            }
            assert forall|x: NodeId, k: u128|
                #[trigger] fin.nodes@.contains_key(x) && #[trigger] fin.nodes@[x].in_peers@.contains_key(k)
                    implies {
                    let t = fin.nodes@[x].in_peers@[k].addr;
                    let o = fin.registry.record(t).owner_node;
                    &&& fin.nodes@.contains_key(o)
                    &&& fin.nodes@[o].out_peers@.contains_key(addr_key(fin.nodes@[x].own_addr(t.network)->0))
                } by {
                assert(p1.nodes@.contains_key(x));
                assert(p1.nodes@[x].in_peers@.contains_key(k));
                let t = p1.nodes@[x].in_peers@[k].addr;
                let o = p1.registry.record(t).owner_node;
                assert(p1.nodes@.contains_key(o));
            }
            assert forall|j: NodeId, p: int, q: int|
                #![trigger fin.nodes@[j].addresses@[p], fin.nodes@[j].addresses@[q]]
                fin.nodes@.contains_key(j) && 0 <= p < fin.nodes@[j].addresses@.len() && 0 <= q
                    < fin.nodes@[j].addresses@.len() && p != q implies fin.nodes@[j].addresses@[p].network
                    != fin.nodes@[j].addresses@[q].network by {
                assert(p1.nodes@.contains_key(j));
                assert(p1.nodes@[j].addresses@[p] == fin.nodes@[j].addresses@[p]);
                assert(p1.nodes@[j].addresses@[q] == fin.nodes@[j].addresses@[q]);
            }
            assert forall|x: NodeId| #[trigger] self.network.nodes@.contains_key(x) implies seeded(
                pre.config,
                self.network,
                x,
                now,
                self.network.nodes@[x].addrman@,
            ) by {
                assert(p1.nodes@.contains_key(x));
                assert(seeded(pre.config, p1, x, now, self.network.nodes@[x].addrman@));
                if pre.config.start_mode == StartMode::Peers {
                    assert forall|a: AddressId| self.network.nodes@[x].has_peer(a) == p1.nodes@[x].has_peer(a) by {}
                    assert(Map::new(|a: AddressId| self.network.nodes@[x].has_peer(a), |a: AddressId| now) =~= Map::new(
                        |a: AddressId| p1.nodes@[x].has_peer(a),
                        |a: AddressId| now,
                    ));
                }
            }
        }
    }

    /// The queue, the configuration, the statistics and the start time are as they were.
    pub open spec fn frame(pre: Simulator, post: Simulator) -> bool {
        &&& post.event_queue == pre.event_queue
        &&& post.config == pre.config
        &&& post.stats@ == pre.stats@
        &&& post.start_time == pre.start_time
    }

    /// The day's join and leave counts are as they were.
    pub open spec fn same_counts(pre: Simulator, post: Simulator) -> bool {
        &&& post.day_joined == pre.day_joined
        &&& post.day_left == pre.day_left
    }

    /// A node on `nets` can still be given an id and addresses.
    pub open spec fn join_fits(net: Network, nets: Seq<NetworkType>) -> bool {
        &&& net.next_node_id < usize::MAX
        &&& net.next_addr_id + nets.len() <= u64::MAX
    }

    /// A node joins at `at`: its kind is that of node number `roll`, a random draw below
    /// the configured number of nodes, and it connects as `add_node` does; the day counts
    /// it. A join that cannot be given ids changes nothing.
    pub open spec fn joined(pre: Simulator, post: Simulator, at: u64, r: Seq<Event>) -> bool {
        let total = config_total(pre.config);
        &&& post.day_left == pre.day_left
        &&& exists|roll: int|
            #![trigger node_kind(pre.config, roll)]
            0 <= roll && (roll == 0 || roll < total) && {
                let nets = node_kind(pre.config, roll).0;
                let reach = node_kind(pre.config, roll).1;
                if total <= u64::MAX && Simulator::join_fits(pre.network, nets) {
                    &&& Network::add_post(
                        pre.network,
                        post.network,
                        nets,
                        reach,
                        pre.config.outbounds,
                        pre.config.cache_algo,
                        at,
                        pre.network.next_node_id,
                        r,
                    )
                    &&& post.day_joined == pre.day_joined.counted(kind_of(nets))
                } else {
                    &&& post.network == pre.network
                    &&& r.len() == 0
                    &&& post.day_joined == pre.day_joined
                }
            }
    }

    /// Node `node_id` leaves at `at`, if it is still in the network, and the day counts it.
    pub open spec fn left(pre: Simulator, post: Simulator, node_id: NodeId, at: u64, r: Seq<Event>) -> bool {
        &&& post.day_joined == pre.day_joined
        &&& if pre.network.nodes@.contains_key(node_id)
            && pre.network.registry.node_addresses@.contains_key(node_id) {
            &&& Network::remove_post(pre.network, post.network, node_id, at, r)
            &&& post.day_left == pre.day_left.counted(
                kind_of(networks_seq(pre.network.nodes@[node_id].addresses@)),
            )
        } else {
            &&& post.network == pre.network
            &&& r.len() == 0
            &&& post.day_left == pre.day_left
        }
    }

    /// The simulation after handling `event`, and the events it gave rise to.
    /// Handling `event` draws nothing from the random generator: a leave, a queue flush,
    /// a GETADDR response, a GETADDR answered from a cache still valid, or anything that
    /// reaches no node able to take it.
    pub open spec fn quiet(pre: Simulator, event: Event) -> bool {
        match event {
            Event::NodeJoin { .. } => false,
            Event::NodeLeave { .. } => true,
            Event::FlushAddrQueue { .. } => true,
            Event::NodeReconnect { node_id, network, .. } => !pre.network.reconnect_ready(node_id, network),
            Event::SelfAnnounce { node_id, peer_addr, .. } => !(pre.network.self_announce_ready(node_id, peer_addr)
                && pre.network.nodes@[node_id].has_peer(peer_addr)),
            Event::SendMessage { from, to, msg, at } => match msg {
                NetworkMessage::GetAddr => !pre.network.getaddr_deliverable(from, to, at)
                    || pre.network.nodes@[pre.network.live_owner(to)->0].cache_hit(from.network, at),
                NetworkMessage::Addr(_) => true,
                NetworkMessage::AddrAnnounce(v) => !pre.network.announce_deliverable(from, to, v@, at),
            },
        }
    }

    pub open spec fn processed(pre: Simulator, post: Simulator, event: Event, r: Seq<Event>) -> bool {
        &&& post.wf()
        &&& Simulator::frame(pre, post)
        &&& Simulator::quiet(pre, event) ==> post.rng == pre.rng
        &&& match event {
            Event::NodeJoin { at } => Simulator::joined(pre, post, at, r),
            Event::NodeLeave { node_id, at } => Simulator::left(pre, post, node_id, at, r),
            Event::NodeReconnect { node_id, network, at } => {
                &&& Simulator::same_counts(pre, post)
                &&& Network::reconnected(pre.network, post.network, node_id, network, at, r)
            },
            Event::SelfAnnounce { node_id, peer_addr, at } => {
                &&& Simulator::same_counts(pre, post)
                &&& Network::self_announced(pre.network, post.network, node_id, peer_addr, at, r)
            },
            Event::FlushAddrQueue { node_id, peer_addr, at } => {
                &&& Simulator::same_counts(pre, post)
                &&& Network::flushed(pre.network, post.network, node_id, peer_addr, at, r)
            },
            Event::SendMessage { from, to, msg, at } => {
                &&& Simulator::same_counts(pre, post)
                &&& match msg {
                    NetworkMessage::GetAddr => Network::getaddr_delivered(
                        pre.network,
                        post.network,
                        from,
                        to,
                        at,
                        r,
                    ),
                    NetworkMessage::Addr(v) => {
                        &&& Network::addr_delivered(pre.network, post.network, from, to, v@, at)
                        &&& r.len() == 0
                    },
                    NetworkMessage::AddrAnnounce(v) => Network::announce_delivered(
                        pre.network,
                        post.network,
                        from,
                        to,
                        v@,
                        at,
                        r,
                    ),
                }
            },
        }
    }

    /// Handle one event and return the events it gives rise to.
    pub fn process(&mut self, event: &Event, _at: u64) -> (r: Vec<Event>)
        requires
            old(self).wf(),
        ensures
            Simulator::processed(*old(self), *final(self), *event, r@),
            forall|i: int| 0 <= i < r@.len() ==> spec_event_time(&#[trigger] r@[i]) >= spec_event_time(event),
    {
        match event {
            Event::NodeJoin { at } => {
                let total: u128 = self.config.onion as u128 + self.config.clearnet as u128
                    + self.config.dual_stack as u128;
                let roll: u128 = if total > 0 && total <= u64::MAX as u128 {
                    random_below(&mut self.rng, 0, total as u64) as u128
                } else {
                    0
                };
                let (networks, reachable_on) = node_kind_of(&self.config, roll);
                proof {
                    assert(node_kind(self.config, roll as int).0 == networks@);
                }
                if total > u64::MAX as u128 || self.network.next_node_id == usize::MAX
                    || self.network.next_addr_id as u128 + networks.len() as u128 > u64::MAX as u128 {
                    return Vec::new();
                }
                let idx = node_type_idx(networks.as_slice());
                let algo = self.config.cache_algo;
                let outbounds = self.config.outbounds;
                let (nid, events) = self.network.add_node(
                    networks,
                    reachable_on,
                    outbounds,
                    algo,
                    *at,
                    &mut self.rng,
                );
                proof {
                    let netp = self.network;
                    let nets = Network::nets_of(netp.nodes@[nid].addresses@);
                    let c = netp.eligible_count(nid, nets, Set::empty());
                    lemma_batch_times(netp, nid, nets, Set::empty(), *at, if outbounds < c {
                        outbounds as int
                    } else {
                        c as int
                    }, events@);
                }
                self.day_joined.count(idx);
                events
            },
            Event::NodeLeave { node_id, at } => {
                if !self.network.nodes.contains_key(node_id)
                    || !self.network.registry.node_addresses.contains_key(node_id) {
                    return Vec::new();
                }
                let nets = match self.network.nodes.get(node_id) {
                    Some(n) => networks_vec(&n.addresses),
                    None => Vec::new(),
                };
                let idx = node_type_idx(nets.as_slice());
                self.day_left.count(idx);
                self.network.remove_node(*node_id, *at)
            },
            Event::NodeReconnect { node_id, network, at } => {
                let ghost pre = self.network;
                let events = self.network.reconnect(*node_id, *network, *at, &mut self.rng);
                proof {
                    if pre.reconnect_ready(*node_id, *network) {
                        let skip = pre.owned_keys(pre.peer_owners(*node_id));
                        let nets = NetworkSet {
                            onion: *network == NetworkType::Onion,
                            clearnet: *network == NetworkType::Clearnet,
                        };
                        let c = pre.eligible_count(*node_id, nets, skip);
                        lemma_batch_times(pre, *node_id, nets, skip, *at, if c == 0 {
                            0int
                        } else {
                            1int
                        }, events@);
                    }
                }
                events
            },
            Event::SelfAnnounce { node_id, peer_addr, at } => {
                self.network.self_announce(*node_id, *peer_addr, *at, &mut self.rng)
            },
            Event::FlushAddrQueue { node_id, peer_addr, at } => {
                self.network.flush_addr_queue(*node_id, *peer_addr, *at)
            },
            Event::SendMessage { from, to, msg, at } => match msg {
                NetworkMessage::GetAddr => self.network.deliver_getaddr(*from, *to, *at, &mut self.rng),
                NetworkMessage::Addr(v) => {
                    self.network.deliver_addr(*from, *to, copy_payloads(v), *at);
                    Vec::new()
                },
                NetworkMessage::AddrAnnounce(v) => self.network.deliver_announce(
                    *from,
                    *to,
                    copy_payloads(v),
                    *at,
                    &mut self.rng,
                ),
            },
        }
    }

    /// Queue an event at its own time. Events at equal times leave in the order they
    /// were queued; the queue numbers them for that, and once its 2^64 - 1 numbers are
    /// spent it takes no more.
    pub fn add_event(&mut self, event: Event)
        requires
            old(self).wf(),
        ensures
            final(self).wf(),
            *final(self) == (Simulator { event_queue: final(self).event_queue, ..*old(self) }),
            old(self).event_queue.next_seq < u64::MAX ==> {
                &&& final(self).event_queue.next_seq == old(self).event_queue.next_seq + 1
                &&& !old(self).event_queue.events@.contains_key(
                    event_key(spec_event_time(&event), old(self).event_queue.next_seq),
                )
                &&& final(self).event_queue.events@ == old(self).event_queue.events@.insert(
                    event_key(spec_event_time(&event), old(self).event_queue.next_seq),
                    event,
                )
            },
            old(self).event_queue.next_seq == u64::MAX ==> final(self).event_queue
                == old(self).event_queue,
    {
        if self.event_queue.next_seq < u64::MAX {
            let at = event_time(&event);
            let ghost q0 = self.event_queue;
            self.event_queue.push(ScheduledEvent::new(event, at));
            proof {
                lemma_event_key(at, q0.next_seq);
                assert forall|k: u128| #[trigger] self.event_queue.events@.contains_key(k) implies key_time(k)
                    == spec_event_time(&self.event_queue.events@[k]) by {
                    if k != event_key(at, q0.next_seq) {
                        assert(q0.events@.contains_key(k));
                    }
                }
            }
        }
    }

    /// Queue each of `events`. Every event already queued stays; every new one is one of
    /// `events`, under a key that carries its time.
    pub fn add_events(&mut self, events: Vec<Event>)
        requires
            old(self).wf(),
        ensures
            final(self).wf(),
            *final(self) == (Simulator { event_queue: final(self).event_queue, ..*old(self) }),
            forall|k: u128| #[trigger]
                old(self).event_queue.events@.contains_key(k) ==> final(self).event_queue.events@.contains_key(k)
                    && final(self).event_queue.events@[k] == old(self).event_queue.events@[k],
            forall|k: u128| #[trigger]
                final(self).event_queue.events@.contains_key(k) && !old(self).event_queue.events@.contains_key(k)
                    ==> exists|i: int|
                    0 <= i < events@.len() && final(self).event_queue.events@[k] == #[trigger] events@[i]
                        && key_time(k) == spec_event_time(&events@[i]),
            old(self).event_queue.next_seq + events@.len() <= u64::MAX ==> final(self).event_queue.events@.dom().len()
                == old(self).event_queue.events@.dom().len() + events@.len(),
            old(self).event_queue.next_seq + events@.len() <= u64::MAX ==> final(self).event_queue.events@
                == queued(old(self).event_queue.events@, old(self).event_queue.next_seq, events@)
                && final(self).event_queue.next_seq == old(self).event_queue.next_seq + events@.len(),
            final(self).event_queue.next_seq >= old(self).event_queue.next_seq,
            final(self).event_queue.next_seq == old(self).event_queue.next_seq ==> final(self).event_queue.events@
                == old(self).event_queue.events@,
            old(self).event_queue.next_seq + events@.len() > u64::MAX ==> final(self).event_queue.next_seq == u64::MAX,
    {
        let ghost pre = *self;
        let ghost all = events@;
        let mut events = events;
        assert(all.len() == events.len());
        let mut n: usize = 0;
        while events.len() > 0
            invariant
                self.wf(),
                *self == (Simulator { event_queue: self.event_queue, ..pre }),
                pre.event_queue.events@.dom().finite(),
                self.event_queue.events@.dom().finite(),
                n + events@.len() == all.len(),
                events@ == all.subrange(n as int, all.len() as int),
                all.len() <= usize::MAX,
                forall|k: u128| #[trigger]
                    pre.event_queue.events@.contains_key(k) ==> self.event_queue.events@.contains_key(k)
                        && self.event_queue.events@[k] == pre.event_queue.events@[k],
                forall|k: u128| #[trigger]
                    self.event_queue.events@.contains_key(k) && !pre.event_queue.events@.contains_key(k)
                        ==> exists|i: int|
                        0 <= i < n && self.event_queue.events@[k] == #[trigger] all[i]
                            && key_time(k) == spec_event_time(&all[i]),
                pre.event_queue.next_seq + n <= u64::MAX ==> self.event_queue.next_seq == pre.event_queue.next_seq + n
                    && self.event_queue.events@.dom().len() == pre.event_queue.events@.dom().len() + n
                    && self.event_queue.events@ == queued(pre.event_queue.events@, pre.event_queue.next_seq, all.take(n as int)),
                self.event_queue.next_seq >= pre.event_queue.next_seq,
                self.event_queue.next_seq == pre.event_queue.next_seq ==> self.event_queue.events@
                    == pre.event_queue.events@,
                pre.event_queue.next_seq + n > u64::MAX ==> self.event_queue.next_seq == u64::MAX,
            decreases events.len(),
        {
            let e = events.remove(0);
            proof {
                assert(e == all[n as int]);
                assert(events@ =~= all.subrange(n + 1, all.len() as int));
            }
            let ghost before = self.event_queue;
            self.add_event(e);
            proof {
                if pre.event_queue.next_seq + n + 1 <= u64::MAX {
                    let t = all.take(n + 1);
                    assert(t.drop_last() =~= all.take(n as int));
                    assert(t.last() == e);
                    assert(self.event_queue.events@ == queued(pre.event_queue.events@, pre.event_queue.next_seq, t));
                }
                if before.next_seq < u64::MAX {
                    let k0 = event_key(spec_event_time(&e), before.next_seq);
                    lemma_event_key(spec_event_time(&e), before.next_seq);
                    assert forall|k: u128| #[trigger]
                        self.event_queue.events@.contains_key(k) && !pre.event_queue.events@.contains_key(k)
                            implies exists|i: int|
                            0 <= i < n + 1 && self.event_queue.events@[k] == #[trigger] all[i]
                                && key_time(k) == spec_event_time(&all[i]) by {
                        if k == k0 {
                            assert(self.event_queue.events@[k] == all[n as int]);
                        } else {
                            assert(before.events@.contains_key(k));
                            let i = choose|i: int|
                                0 <= i < n && before.events@[k] == #[trigger] all[i]
                                    && key_time(k) == spec_event_time(&all[i]);
                            assert(self.event_queue.events@[k] == all[i]);
                        }
                    }
                } else {
                    assert forall|k: u128| #[trigger]
                        self.event_queue.events@.contains_key(k) && !pre.event_queue.events@.contains_key(k)
                            implies exists|i: int|
                            0 <= i < n + 1 && self.event_queue.events@[k] == #[trigger] all[i]
                                && key_time(k) == spec_event_time(&all[i]) by {
                        let i = choose|i: int|
                            0 <= i < n && before.events@[k] == #[trigger] all[i]
                                && key_time(k) == spec_event_time(&all[i]);
                    }
                }
            }
            n = n + 1;
        }
        proof {
            assert(all.take(all.len() as int) =~= all);
        }
    }

    /// One step in parts: `e`, due at `at`, the earliest, left the queue under key `k`;
    /// handling it took the simulation to `mid` and gave rise to `out`; `post` is `mid`
    /// with `out` queued in order under fresh keys (while the queue has numbers left).
    pub open spec fn step_parts(pre: Simulator, post: Simulator, e: Event, at: u64, k: u128, mid: Simulator, out: Seq<Event>) -> bool {
        &&& pre.event_queue.events@.contains_key(k)
        &&& key_time(k) == at
        &&& pre.event_queue.events@[k] == e
        &&& mid.event_queue.events@ == pre.event_queue.events@.remove(k)
        &&& mid.event_queue.next_seq == pre.event_queue.next_seq
        &&& Simulator::processed(Simulator { event_queue: mid.event_queue, ..pre }, mid, e, out)
        &&& post == Simulator { event_queue: post.event_queue, ..mid }
        &&& mid.event_queue.next_seq + out.len() <= u64::MAX ==> {
            &&& post.event_queue.events@ == queued(mid.event_queue.events@, mid.event_queue.next_seq, out)
            &&& post.event_queue.next_seq == mid.event_queue.next_seq + out.len()
        }
        &&& post.event_queue.next_seq >= mid.event_queue.next_seq
        &&& post.event_queue.next_seq == mid.event_queue.next_seq ==> post.event_queue.events@
            == mid.event_queue.events@
    }

    /// The simulation after one step, and the event it handled with its time.
    pub open spec fn stepped(pre: Simulator, post: Simulator, r: Option<(Event, u64)>) -> bool {
        &&& post.wf()
        &&& post.config == pre.config
        &&& post.stats@ == pre.stats@
        &&& post.start_time == pre.start_time
        &&& match r {
            None => {
                &&& pre.event_queue.events@ == Map::<u128, Event>::empty()
                &&& post.event_queue.events@ == pre.event_queue.events@
                &&& post.event_queue.next_seq == pre.event_queue.next_seq
                &&& post == (Simulator { event_queue: post.event_queue, ..pre })
            },
            Some((e, at)) => {
                &&& pre.event_queue.is_earliest(at as int)
                &&& spec_event_time(&e) == at
                &&& exists|k: u128, mid: Simulator, out: Seq<Event>|
                    #[trigger] Simulator::step_parts(pre, post, e, at, k, mid, out)
                &&& forall|k: u128| #[trigger]
                    post.event_queue.events@.contains_key(k) ==> at <= key_time(k)
            },
        }
    }

    /// Take the earliest event, handle it, and queue what it gives rise to. Returns the
    /// event and its time, or `None` when the queue is empty.
    pub fn step(&mut self) -> (r: Option<(Event, u64)>)
        requires
            old(self).wf(),
        ensures
            Simulator::stepped(*old(self), *final(self), r),
    {
        let se = match self.event_queue.pop() {
            Some(se) => se,
            None => {
                return None;
            },
        };
        let at = se.time;
        let ghost popped = self.event_queue;
        proof {
            assert(spec_event_time(&se.inner) == at) by {
                let k = choose|k: u128|
                    #![trigger old(self).event_queue.events@.contains_key(k)]
                    {
                        &&& old(self).event_queue.events@.contains_key(k)
                        &&& key_time(k) == se.spec_time()
                        &&& old(self).event_queue.events@[k] == se.inner
                        &&& popped.events@ == old(self).event_queue.events@.remove(k)
                    };
            }
        }
        let ghost popped_sim = *self;
        let new_events = self.process(&se.inner, at);
        let ghost mid = *self;
        let ghost out = new_events@;
        self.add_events(new_events);
        proof {
            let k = choose|k: u128|
                #![trigger old(self).event_queue.events@.contains_key(k)]
                {
                    &&& old(self).event_queue.events@.contains_key(k)
                    &&& key_time(k) == se.spec_time()
                    &&& old(self).event_queue.events@[k] == se.inner
                    &&& popped.events@ == old(self).event_queue.events@.remove(k)
                };
            assert(popped_sim == Simulator { event_queue: mid.event_queue, ..*old(self) });
            assert(Simulator::step_parts(*old(self), *self, se.inner, at, k, mid, out));
            assert forall|k: u128| #[trigger] self.event_queue.events@.contains_key(k) implies at
                <= key_time(k) by {
                if popped.events@.contains_key(k) {
                    let k0 = choose|k0: u128|
                        #![trigger old(self).event_queue.events@.contains_key(k0)]
                        {
                            &&& old(self).event_queue.events@.contains_key(k0)
                            &&& key_time(k0) == se.spec_time()
                            &&& old(self).event_queue.events@[k0] == se.inner
                            &&& popped.events@ == old(self).event_queue.events@.remove(k0)
                        };
                    assert(old(self).event_queue.events@.contains_key(k));
                }
            }
        }
        Some((se.inner, at))
    }


    /// Handle events in time order until the earliest one left is due after `end_time`.
    /// Each step either takes a queue number or shrinks the queue, so this ends.
    fn run_until(&mut self, end_time: u64)
        requires
            old(self).wf(),
        ensures
            final(self).wf(),
            final(self).config == old(self).config,
            final(self).stats@ == old(self).stats@,
            final(self).start_time == old(self).start_time,
            forall|k: u128| #[trigger]
                final(self).event_queue.events@.contains_key(k) ==> key_time(k) > end_time,
            exists|n: nat| #[trigger] Simulator::reach(*old(self), *final(self), n),
    {
        let ghost pre = *self;
        let ghost mut n: nat = 0;
        loop
            invariant
                self.wf(),
                pre == *old(self),
                self.config == pre.config,
                self.stats@ == pre.stats@,
                self.start_time == pre.start_time,
                Simulator::reach(pre, *self, n),
            ensures
                self.wf(),
                self.config == pre.config,
                self.stats@ == pre.stats@,
                self.start_time == pre.start_time,
                forall|k: u128| #[trigger] self.event_queue.events@.contains_key(k) ==> key_time(k) > end_time,
                Simulator::reach(pre, *self, n),
            decreases u64::MAX - self.event_queue.next_seq, self.event_queue.events@.dom().len(),
        {
            match self.event_queue.peek_time() {
                None => {
                    break;
                },
                Some(t) => {
                    if t > end_time {
                        break;
                    }
                },
            }
            let ghost s0 = *self;
            let r = self.step();
            proof {
                match r {
                    None => {
                        assert(false);
                    },
                    Some((e, at)) => {
                        let (k, mid, out) = choose|k: u128, mid: Simulator, out: Seq<Event>|
                            #[trigger] Simulator::step_parts(s0, *self, e, at, k, mid, out);
                        assert(s0.event_queue.events@.dom().finite());
                        assert(mid.event_queue.events@.dom() =~= s0.event_queue.events@.dom().remove(k));
                    },
                }
                assert(Simulator::stepped(s0, *self, r));
                assert(Simulator::reach(pre, *self, n + 1));
                n = n + 1;
            }
        }
    }

    /// `b` is where `a` gets to in `n` steps.
    pub open spec fn reach(a: Simulator, b: Simulator, n: nat) -> bool
        decreases n,
    {
        if n == 0 {
            a == b
        } else {
            exists|mid: Simulator, e: Option<(Event, u64)>|
                #[trigger] Simulator::stepped(mid, b, e) && Simulator::reach(a, mid, (n - 1) as nat)
        }
    }

    /// Day `day` of a run, from `a` to `b`: the day's counts start from zero, its joins
    /// and leaves are queued, steps are taken until no event due by the day's last second
    /// is left, and, at most, the day's statistics are appended.
    pub open spec fn day_run(a: Simulator, b: Simulator, day: u64) -> bool {
        exists|mid: Simulator, c: Simulator, n: nat|
            #![trigger Simulator::reach(mid, c, n)]
            Simulator::churned(
                Simulator { day_joined: KindCounts::zero_spec(), day_left: KindCounts::zero_spec(), ..a },
                mid,
                day,
            ) && Simulator::reach(mid, c, n) && (forall|k: u128| #[trigger]
                c.event_queue.events@.contains_key(k) ==> key_time(k) > a.day_end(day)) && b == (Simulator {
                stats: b.stats,
                ..c
            })
    }

    /// `trace` is the run from `pre` to `post`, one state per day's end after the start:
    /// each day follows from the one before, and the records appended are the totals of
    /// the network at the end of each measured day, with that day's joins and leaves.
    pub open spec fn run_trace(pre: Simulator, post: Simulator, trace: Seq<Simulator>) -> bool {
        let b = pre.config.burn_in_days as int;
        let d = pre.config.days as int;
        &&& trace.len() == b + d + 1
        &&& trace[0] == pre
        &&& trace[b + d] == post
        &&& forall|t: int| 0 <= t < b + d ==> #[trigger] Simulator::day_run(trace[t], trace[t + 1], t as u64)
        &&& forall|i: int|
            0 <= i < d ==> Simulator::day_counts_ok(
                trace[b + i + 1].network,
                pre.day_end(i as u64) as u64,
                i as u64,
                trace[b + i + 1].day_joined,
                trace[b + i + 1].day_left,
                #[trigger] post.stats@[pre.stats@.len() + i],
            )
    }

    /// A join or leave event for the day starting at `day_start`; a leave names a node
    /// of `net`.
    pub open spec fn churn_event(e: Event, net: Network, day_start: int) -> bool {
        match e {
            Event::NodeJoin { at } => day_start <= at < day_start + DAY_SECONDS,
            Event::NodeLeave { node_id, at } => net.nodes@.contains_key(node_id) && day_start <= at
                < day_start + DAY_SECONDS,
            _ => false,
        }
    }

    /// The events of a day's churn, in the order they are queued: the configured number
    /// of joins, then the configured number of leaves, each of a node of `pre`'s network
    /// (none when the network is empty), all within day `day`.
    pub open spec fn churn_batch(pre: Simulator, day: u64, ev: Seq<Event>) -> bool {
        let j = pre.config.joins_per_day as int;
        let day_start = pre.start_time + day * DAY_SECONDS;
        &&& ev.len() == j + if pre.network.nodes@.dom().len() == 0 {
            0
        } else {
            pre.config.leaves_per_day as int
        }
        &&& forall|i: int|
            0 <= i < j ==> #[trigger] ev[i] is NodeJoin && Simulator::churn_event(ev[i], pre.network, day_start)
        &&& forall|i: int|
            j <= i < ev.len() ==> #[trigger] ev[i] is NodeLeave && Simulator::churn_event(ev[i], pre.network, day_start)
    }

    /// `post` is `pre` with the joins and leaves of day `day` queued: every earlier event
    /// kept, every new one a join or a leave of a node of `pre` within the day, and, while
    /// the queue has numbers left, exactly the configured joins followed by the configured
    /// leaves (no leave when the network is empty).
    pub open spec fn churned(pre: Simulator, post: Simulator, day: u64) -> bool {
        &&& post == (Simulator { event_queue: post.event_queue, rng: post.rng, ..pre })
        &&& forall|k: u128| #[trigger]
            pre.event_queue.events@.contains_key(k) ==> post.event_queue.events@.contains_key(k)
                && post.event_queue.events@[k] == pre.event_queue.events@[k]
        &&& forall|k: u128| #[trigger]
            post.event_queue.events@.contains_key(k) && !pre.event_queue.events@.contains_key(k)
                ==> Simulator::churn_event(post.event_queue.events@[k], pre.network, pre.start_time + day * DAY_SECONDS)
        &&& pre.event_queue.next_seq + pre.config.joins_per_day + pre.config.leaves_per_day <= u64::MAX
            ==> post.event_queue.events@.dom().len() == pre.event_queue.events@.dom().len() + pre.config.joins_per_day
            + if pre.network.nodes@.dom().len() == 0 {
            0
        } else {
            pre.config.leaves_per_day as int
        }
        &&& pre.event_queue.next_seq + pre.config.joins_per_day + pre.config.leaves_per_day <= u64::MAX
            ==> exists|ev: Seq<Event>|
            Simulator::churn_batch(pre, day, ev) && post.event_queue.events@ == queued(
                pre.event_queue.events@,
                pre.event_queue.next_seq,
                ev,
            ) && post.event_queue.next_seq == pre.event_queue.next_seq + ev.len()
    }

    /// Queue the day's joins, each at a random second of the day, and the day's leaves,
    /// each of a node drawn at random from those in the network, at a random second.
    fn schedule_churn(&mut self, day: u64)
        requires
            old(self).wf(),
            old(self).start_time + day * DAY_SECONDS + DAY_SECONDS <= u64::MAX,
        ensures
            final(self).wf(),
            Simulator::churned(*old(self), *final(self), day),
    {
        let ghost pre = *self;
        let day_start = self.start_time + day * DAY_SECONDS;
        let joins = self.config.joins_per_day;
        let leaves = self.config.leaves_per_day;
        let ghost mut ev: Seq<Event> = Seq::empty();
        let mut i: usize = 0;
        while i < joins
            invariant
                self.wf(),
                leaves == pre.config.leaves_per_day,
                ev.len() == i,
                forall|x: int|
                    0 <= x < ev.len() ==> #[trigger] ev[x] is NodeJoin && Simulator::churn_event(
                        ev[x],
                        pre.network,
                        day_start as int,
                    ),
                pre.event_queue.next_seq + joins + leaves <= u64::MAX ==> self.event_queue.events@ == queued(
                    pre.event_queue.events@,
                    pre.event_queue.next_seq,
                    ev,
                ) && self.event_queue.next_seq == pre.event_queue.next_seq + ev.len(),
                *self == (Simulator { event_queue: self.event_queue, rng: self.rng, ..pre }),
                day_start == pre.start_time + day * DAY_SECONDS,
                day_start + DAY_SECONDS <= u64::MAX,
                0 <= i <= joins,
                joins == pre.config.joins_per_day,
                forall|k: u128| #[trigger]
                    pre.event_queue.events@.contains_key(k) ==> self.event_queue.events@.contains_key(k)
                        && self.event_queue.events@[k] == pre.event_queue.events@[k],
                forall|k: u128| #[trigger]
                    self.event_queue.events@.contains_key(k) && !pre.event_queue.events@.contains_key(k)
                        ==> Simulator::churn_event(self.event_queue.events@[k], pre.network, day_start as int),
                pre.event_queue.next_seq + i <= u64::MAX ==> self.event_queue.next_seq == pre.event_queue.next_seq + i
                    && self.event_queue.events@.dom().len() == pre.event_queue.events@.dom().len() + i,
            decreases joins - i,
        {
            let at = day_start + random_below(&mut self.rng, 0, DAY_SECONDS);
            let ghost q0 = self.event_queue;
            self.add_event(Event::NodeJoin { at });
            proof {
                if q0.next_seq < u64::MAX {
                    assert(q0.events@.dom().finite());
                }
                let ev0 = ev;
                ev = ev.push(Event::NodeJoin { at });
                assert(ev.drop_last() =~= ev0);
                assert forall|x: int| 0 <= x < ev.len() implies #[trigger] ev[x] is NodeJoin && Simulator::churn_event(
                    ev[x],
                    pre.network,
                    day_start as int,
                ) by {
                    if x < ev0.len() {
                        assert(ev[x] == ev0[x]);
                    }
                }
            }
            i = i + 1;
        }
        let ids = map_keys(&self.network.nodes);
        let mut j: usize = 0;
        while j < leaves
            invariant
                self.wf(),
                *self == (Simulator { event_queue: self.event_queue, rng: self.rng, ..pre }),
                day_start == pre.start_time + day * DAY_SECONDS,
                day_start + DAY_SECONDS <= u64::MAX,
                0 <= j <= leaves,
                leaves == pre.config.leaves_per_day,
                joins == pre.config.joins_per_day,
                ids@.to_set() == pre.network.nodes@.dom(),
                ids@.len() == pre.network.nodes@.dom().len(),
                forall|k: u128| #[trigger]
                    pre.event_queue.events@.contains_key(k) ==> self.event_queue.events@.contains_key(k)
                        && self.event_queue.events@[k] == pre.event_queue.events@[k],
                forall|k: u128| #[trigger]
                    self.event_queue.events@.contains_key(k) && !pre.event_queue.events@.contains_key(k)
                        ==> Simulator::churn_event(self.event_queue.events@[k], pre.network, day_start as int),
                ev.len() == joins + if ids@.len() == 0 {
                    0
                } else {
                    j as int
                },
                forall|x: int|
                    0 <= x < joins ==> #[trigger] ev[x] is NodeJoin && Simulator::churn_event(
                        ev[x],
                        pre.network,
                        day_start as int,
                    ),
                forall|x: int|
                    joins <= x < ev.len() ==> #[trigger] ev[x] is NodeLeave && Simulator::churn_event(
                        ev[x],
                        pre.network,
                        day_start as int,
                    ),
                pre.event_queue.next_seq + joins + leaves <= u64::MAX ==> self.event_queue.events@ == queued(
                    pre.event_queue.events@,
                    pre.event_queue.next_seq,
                    ev,
                ) && self.event_queue.next_seq == pre.event_queue.next_seq + ev.len(),
                pre.event_queue.next_seq + joins + j <= u64::MAX ==> self.event_queue.next_seq
                    == pre.event_queue.next_seq + joins + if ids@.len() == 0 {
                    0
                } else {
                    j as int
                } && self.event_queue.events@.dom().len() == pre.event_queue.events@.dom().len() + joins
                    + if ids@.len() == 0 {
                    0
                } else {
                    j as int
                },
            decreases leaves - j,
        {
            let ghost all = ids@;
            let pick = choose_one(&mut self.rng, copy_ids(&ids));
            match pick {
                Some(node_id) => {
                    proof {
                        assert(all.to_set().contains(node_id));
                    }
                    let at = day_start + random_below(&mut self.rng, 0, DAY_SECONDS);
                    let ghost q0 = self.event_queue;
                    self.add_event(Event::NodeLeave { node_id, at });
                    proof {
                        if q0.next_seq < u64::MAX {
                            assert(q0.events@.dom().finite());
                        }
                        let ev0 = ev;
                        ev = ev.push(Event::NodeLeave { node_id, at });
                        assert(ev.drop_last() =~= ev0);
                        assert forall|x: int| 0 <= x < joins implies #[trigger] ev[x] is NodeJoin && Simulator::churn_event(
                            ev[x],
                            pre.network,
                            day_start as int,
                        ) by {
                            assert(ev[x] == ev0[x]);
                        }
                        assert forall|x: int| joins <= x < ev.len() implies #[trigger] ev[x] is NodeLeave
                            && Simulator::churn_event(ev[x], pre.network, day_start as int) by {
                            if x < ev0.len() {
                                assert(ev[x] == ev0[x]);
                            }
                        }
                    }
                },
                None => {},
            }
            j = j + 1;
        }
        proof {
            assert(Simulator::churn_batch(pre, day, ev));
        }
    }


    /// The totals of a day's statistics for a network at `now`, with the day's joins and
    /// leaves.
    pub open spec fn day_counts_ok(
        net: Network,
        now: u64,
        day: u64,
        joined: KindCounts,
        left: KindCounts,
        c: DayCounts,
    ) -> bool {
        &&& c.day == day
        &&& c.node_count == net.nodes@.dom().len()
        &&& c.total_registered == net.registry.addresses@.dom().len()
        &&& c.total_addrman == entry_pairs(net, EntryFilter::All, now).len()
        &&& c.total_addrman_live == entry_pairs(net, EntryFilter::Live, now).len()
        &&& c.stale_7d == entry_pairs(net, EntryFilter::OlderThan7Days, now).len()
        &&& c.stale_30d == entry_pairs(net, EntryFilter::OlderThan30Days, now).len()
        &&& c.departed == entry_pairs(net, EntryFilter::Departed, now).len()
        &&& c.departed_fresh == entry_pairs(net, EntryFilter::DepartedLive, now).len()
        &&& fingerprint_ok(net, c.fingerprint@)
        &&& c.churn == (ChurnStats {
            joined_onion: joined.onion,
            joined_clearnet: joined.clearnet,
            joined_dual: joined.dual,
            left_onion: left.onion,
            left_clearnet: left.clearnet,
            left_dual: left.dual,
            total_onion: nodes_of_kind(net, 0).len() as usize,
            total_clearnet: nodes_of_kind(net, 1).len() as usize,
            total_dual: nodes_of_kind(net, 2).len() as usize,
        })
    }

    /// The last second of day `day`.
    pub open spec fn day_end(&self, day: u64) -> int {
        self.start_time + day * DAY_SECONDS + (DAY_SECONDS - 1)
    }

    /// Append the totals of day `day`, taken at its last second.
    fn collect_statistics(&mut self, day: u64)
        requires
            old(self).wf(),
            old(self).day_end(day) <= u64::MAX,
        ensures
            final(self).wf(),
            *final(self) == (Simulator { stats: final(self).stats, ..*old(self) }),
            final(self).stats@.len() == old(self).stats@.len() + 1,
            final(self).stats@.take(old(self).stats@.len() as int) == old(self).stats@,
            Simulator::day_counts_ok(
                old(self).network,
                old(self).day_end(day) as u64,
                day,
                old(self).day_joined,
                old(self).day_left,
                final(self).stats@[old(self).stats@.len() as int],
            ),
    {
        let now = self.start_time + day * DAY_SECONDS + (DAY_SECONDS - 1);
        let a = record_caches(&self.network);
        let fingerprint = a.analyze_counts();
        proof {
            broadcast use vstd::seq_lib::group_to_multiset_ensures;

            let net = self.network;
            assert forall|i: int| 0 <= i < fingerprint@.len() implies {
                let (n, shared, total) = #[trigger] fingerprint@[i];
                &&& has_cache(net, n, NetworkType::Clearnet)
                &&& has_cache(net, n, NetworkType::Onion)
                &&& shared == common_count(
                    cache_pairs(net, n, NetworkType::Clearnet),
                    cache_pairs(net, n, NetworkType::Onion),
                )
                &&& total == cache_pairs(net, n, NetworkType::Clearnet).len()
            } by {
                let n = fingerprint@[i].0;
                assert(a.recorded(NetworkType::Clearnet).dom().contains(n));
                assert(a.recorded(NetworkType::Onion).dom().contains(n));
                assert(a.recorded(NetworkType::Clearnet)[n].to_multiset().len()
                    == a.recorded(NetworkType::Clearnet)[n].len());
                assert(cache_pairs(net, n, NetworkType::Clearnet).to_multiset().len()
                    == cache_pairs(net, n, NetworkType::Clearnet).len());
            }
            assert forall|n: NodeId|
                has_cache(net, n, NetworkType::Clearnet) && has_cache(net, n, NetworkType::Onion)
                    implies exists|i: int| 0 <= i < fingerprint@.len() && #[trigger] fingerprint@[i].0 == n by {
                assert(a.recorded(NetworkType::Clearnet).dom().contains(n));
                assert(a.recorded(NetworkType::Onion).dom().contains(n));
            }
        }
        let (t0, t1, t2) = kind_totals(&self.network);
        let c = DayCounts {
            day,
            node_count: self.network.nodes.len(),
            total_registered: self.network.registry.addresses.len(),
            total_addrman: count_entries(&self.network, EntryFilter::All, now),
            total_addrman_live: count_entries(&self.network, EntryFilter::Live, now),
            stale_7d: count_entries(&self.network, EntryFilter::OlderThan7Days, now),
            stale_30d: count_entries(&self.network, EntryFilter::OlderThan30Days, now),
            departed: count_entries(&self.network, EntryFilter::Departed, now),
            departed_fresh: count_entries(&self.network, EntryFilter::DepartedLive, now),
            fingerprint,
            churn: ChurnStats {
                joined_onion: self.day_joined.onion,
                joined_clearnet: self.day_joined.clearnet,
                joined_dual: self.day_joined.dual,
                left_onion: self.day_left.onion,
                left_clearnet: self.day_left.clearnet,
                left_dual: self.day_left.dual,
                total_onion: t0,
                total_clearnet: t1,
                total_dual: t2,
            },
        };
        let ghost old_stats = self.stats@;
        self.stats.push(c);
        proof {
            assert(self.stats@.take(old_stats.len() as int) =~= old_stats);
        }
    }


    /// The run's last second fits in a `u64`.
    pub open spec fn run_fits(&self) -> bool {
        self.start_time + (self.config.burn_in_days + self.config.days) * DAY_SECONDS <= u64::MAX
    }

    /// Run day `day`, counted from the start with the burn-in days: queue the day's joins
    /// and leaves, handle every event due by the day's last second, and, once the burn-in
    /// is over, append the day's totals, numbered from the first measured day.
    pub fn run_day(&mut self, day: u64)
        requires
            old(self).wf(),
            old(self).start_time + day * DAY_SECONDS + DAY_SECONDS <= u64::MAX,
        ensures
            final(self).wf(),
            final(self).config == old(self).config,
            final(self).start_time == old(self).start_time,
            Simulator::day_run(*old(self), *final(self), day),
            forall|k: u128| #[trigger]
                final(self).event_queue.events@.contains_key(k) ==> key_time(k) > old(self).day_end(day),
            day < old(self).config.burn_in_days ==> final(self).stats@ == old(self).stats@,
            day >= old(self).config.burn_in_days ==> {
                let i = (day - old(self).config.burn_in_days) as u64;
                &&& final(self).stats@.len() == old(self).stats@.len() + 1
                &&& final(self).stats@.take(old(self).stats@.len() as int) == old(self).stats@
                &&& Simulator::day_counts_ok(
                    final(self).network,
                    old(self).day_end(i) as u64,
                    i,
                    final(self).day_joined,
                    final(self).day_left,
                    final(self).stats@.last(),
                )
            },
    {
        let ghost sa = *self;
        let burn_in = self.config.burn_in_days;
        self.day_joined = KindCounts::zero();
        self.day_left = KindCounts::zero();
        let ghost z = *self;
        self.schedule_churn(day);
        let ghost mid = *self;
        let end = self.start_time + day * DAY_SECONDS + (DAY_SECONDS - 1);
        self.run_until(end);
        let ghost c = *self;
        proof {
            assert(z == Simulator { day_joined: KindCounts::zero_spec(), day_left: KindCounts::zero_spec(), ..sa });
            assert(end == sa.day_end(day));
        }
        if day >= burn_in {
            proof {
                assert(c.day_end((day - burn_in) as u64) <= c.day_end(day));
            }
            self.collect_statistics(day - burn_in);
        }
        proof {
            let n = choose|n: nat| #[trigger] Simulator::reach(mid, c, n);
            assert(Simulator::reach(mid, c, n));
            assert(*self == Simulator { stats: self.stats, ..c });
            assert(Simulator::day_run(sa, *self, day));
        }
    }

    /// Run the burn-in days, then the measured days. Each day: queue the day's joins and
    /// leaves, handle every event due by the day's last second, and, once the burn-in is
    /// over, append the day's totals, numbered from 0.
    pub fn run(&mut self)
        requires
            old(self).wf(),
            old(self).run_fits(),
        ensures
            final(self).wf(),
            final(self).config == old(self).config,
            final(self).start_time == old(self).start_time,
            final(self).stats@.len() == old(self).stats@.len() + old(self).config.days,
            final(self).stats@.take(old(self).stats@.len() as int) == old(self).stats@,
            forall|d: int|
                0 <= d < old(self).config.days ==> #[trigger] final(self).stats@[old(self).stats@.len() + d].day
                    == d,
            exists|trace: Seq<Simulator>| #[trigger] Simulator::run_trace(*old(self), *final(self), trace),
            old(self).config.burn_in_days + old(self).config.days > 0 ==> forall|k: u128| #[trigger]
                final(self).event_queue.events@.contains_key(k) ==> key_time(k) > old(self).start_time + (
                old(self).config.burn_in_days + old(self).config.days) * DAY_SECONDS - 1,
    {
        let ghost pre = *self;
        let burn_in = self.config.burn_in_days;
        let total_days = burn_in + self.config.days;
        let ghost mut trace: Seq<Simulator> = seq![*self];
        let mut day: u64 = 0;
        while day < total_days
            invariant
                self.wf(),
                self.config == pre.config,
                self.start_time == pre.start_time,
                pre.run_fits(),
                burn_in == pre.config.burn_in_days,
                total_days == burn_in + pre.config.days,
                0 <= day <= total_days,
                self.stats@.len() == pre.stats@.len() + if day > burn_in {
                    day - burn_in
                } else {
                    0
                },
                self.stats@.take(pre.stats@.len() as int) == pre.stats@,
                forall|d: int|
                    0 <= d < day - burn_in ==> #[trigger] self.stats@[pre.stats@.len() + d].day == d,
                day > 0 ==> forall|k: u128| #[trigger]
                    self.event_queue.events@.contains_key(k) ==> key_time(k) > pre.start_time + day * DAY_SECONDS - 1,
                trace.len() == day + 1,
                trace[0] == pre,
                trace[day as int] == *self,
                forall|t: int| 0 <= t < day ==> #[trigger] Simulator::day_run(trace[t], trace[t + 1], t as u64),
                forall|i: int|
                    0 <= i < day - burn_in ==> Simulator::day_counts_ok(
                        trace[burn_in + i + 1].network,
                        pre.day_end(i as u64) as u64,
                        i as u64,
                        trace[burn_in + i + 1].day_joined,
                        trace[burn_in + i + 1].day_left,
                        #[trigger] self.stats@[pre.stats@.len() + i],
                    ),
            decreases total_days - day,
        {
            proof {
                assert(pre.start_time + day * DAY_SECONDS + DAY_SECONDS <= u64::MAX) by (nonlinear_arith)
                    requires
                        pre.start_time + total_days * DAY_SECONDS <= u64::MAX,
                        day < total_days,
                        DAY_SECONDS == 86400,
                ;
            }
            let ghost sa = *self;
            let ghost before = self.stats@;
            self.run_day(day);
            proof {
                if day >= burn_in {
                    assert forall|i: int| 0 <= i < day + 1 - burn_in implies Simulator::day_counts_ok(
                        trace.push(*self)[burn_in + i + 1].network,
                        pre.day_end(i as u64) as u64,
                        i as u64,
                        trace.push(*self)[burn_in + i + 1].day_joined,
                        trace.push(*self)[burn_in + i + 1].day_left,
                        #[trigger] self.stats@[pre.stats@.len() + i],
                    ) by {
                        if i < day - burn_in {
                            assert(self.stats@.take(before.len() as int)[pre.stats@.len() + i] == before[pre.stats@.len() + i]);
                            assert(trace.push(*self)[burn_in + i + 1] == trace[burn_in + i + 1]);
                        } else {
                            assert(pre.day_end(i as u64) == sa.day_end((day - burn_in) as u64));
                            assert(trace.push(*self)[burn_in + i + 1] == *self);
                            assert(self.stats@[pre.stats@.len() + i] == self.stats@.last());
                        }
                    }
                    assert forall|d: int| 0 <= d < day + 1 - burn_in implies #[trigger] self.stats@[pre.stats@.len() + d].day
                        == d by {
                        if d < day - burn_in {
                            assert(self.stats@.take(before.len() as int)[pre.stats@.len() + d] == before[pre.stats@.len() + d]);
                        } else {
                            assert(self.stats@[pre.stats@.len() + d] == self.stats@.last());
                        }
                    }
                    assert(self.stats@.take(pre.stats@.len() as int) =~= pre.stats@) by {
                        assert forall|i: int| 0 <= i < pre.stats@.len() implies self.stats@[i] == pre.stats@[i] by {
                            assert(self.stats@.take(before.len() as int)[i] == before[i]);
                            assert(before.take(pre.stats@.len() as int)[i] == pre.stats@[i]);
                        }
                    }
                }
                let t2 = trace.push(*self);
                assert forall|t: int| 0 <= t < day + 1 implies #[trigger] Simulator::day_run(t2[t], t2[t + 1], t as u64) by {
                    if t < day {
                        assert(t2[t] == trace[t]);
                        assert(t2[t + 1] == trace[t + 1]);
                    } else {
                        assert(t2[t] == sa);
                    }
                }
                if day < burn_in {
                    assert forall|i: int| 0 <= i < day + 1 - burn_in implies Simulator::day_counts_ok(
                        t2[burn_in + i + 1].network,
                        pre.day_end(i as u64) as u64,
                        i as u64,
                        t2[burn_in + i + 1].day_joined,
                        t2[burn_in + i + 1].day_left,
                        #[trigger] self.stats@[pre.stats@.len() + i],
                    ) by {}
                }
                trace = t2;
            }
            day = day + 1;
        }
        proof {
            assert(Simulator::run_trace(pre, *self, trace));
        }
    }
}

proof fn lemma_join_keeps_symmetry(pre: Simulator, post: Simulator, at: u64, r: Seq<Event>)
    requires
        pre.wf(),
        Simulator::joined(pre, post, at, r),
        post.network.wf(),
        symmetric(pre.network),
        single_homed(pre.network),
    ensures
        symmetric(post.network),
        single_homed(post.network),
        out_live(pre.network) ==> out_live(post.network),
{
    let a = pre.network;
    let b = post.network;
            let total = config_total(pre.config);
            let roll = choose|roll: int|
                #![trigger node_kind(pre.config, roll)]
                0 <= roll && (roll == 0 || roll < total) && {
                    let nets = node_kind(pre.config, roll).0;
                    let reach = node_kind(pre.config, roll).1;
                    if total <= u64::MAX && Simulator::join_fits(pre.network, nets) {
                        &&& Network::add_post(
                            pre.network,
                            post.network,
                            nets,
                            reach,
                            pre.config.outbounds,
                            pre.config.cache_algo,
                            at,
                            pre.network.next_node_id,
                            r,
                        )
                        &&& post.day_joined == pre.day_joined.counted(kind_of(nets))
                    } else {
                        &&& post.network == pre.network
                        &&& r.len() == 0
                        &&& post.day_joined == pre.day_joined
                    }
                };
            let nets = node_kind(pre.config, roll).0;
            if total <= u64::MAX && Simulator::join_fits(pre.network, nets) {
                let id = a.next_node_id;
                lemma_symmetry_kept_on_join(a, b, nets, node_kind(pre.config, roll).1, pre.config.outbounds, pre.config.cache_algo, at, id, r);
                if out_live(a) {
                    lemma_links_live_kept_on_join(a, b, nets, node_kind(pre.config, roll).1, pre.config.outbounds, pre.config.cache_algo, at, id, r);
                }
                assert forall|j: NodeId, p: int, q: int|
                    #![trigger b.nodes@[j].addresses@[p], b.nodes@[j].addresses@[q]]
                    b.nodes@.contains_key(j) && 0 <= p < b.nodes@[j].addresses@.len() && 0 <= q
                        < b.nodes@[j].addresses@.len() && p != q implies b.nodes@[j].addresses@[p].network
                        != b.nodes@[j].addresses@[q].network by {
                    if j == id {
                        assert(b.nodes@[j].addresses@[p].network == nets[p]);
                        assert(b.nodes@[j].addresses@[q].network == nets[q]);
                    } else {
                        assert(a.nodes@.contains_key(j));
                        assert(b.nodes@[j].same_identity(&a.nodes@[j]));
                        assert(a.nodes@[j].addresses@[p] == b.nodes@[j].addresses@[p]);
                        assert(a.nodes@[j].addresses@[q] == b.nodes@[j].addresses@[q]);
                    }
                }
            }
}

proof fn lemma_leave_keeps_symmetry(pre: Simulator, post: Simulator, node_id: NodeId, at: u64, r: Seq<Event>)
    requires
        pre.wf(),
        Simulator::left(pre, post, node_id, at, r),
        symmetric(pre.network),
        single_homed(pre.network),
    ensures
        symmetric(post.network),
        single_homed(post.network),
        out_live(pre.network) ==> out_live(post.network),
{
    let a = pre.network;
    let b = post.network;
            if a.nodes@.contains_key(node_id) && a.registry.node_addresses@.contains_key(node_id) {
                lemma_symmetry_kept_on_leave(a, b, node_id, at, r);
                if out_live(a) {
                    lemma_links_live_kept_on_leave(a, b, node_id, at, r);
                }
                assert forall|j: NodeId, p: int, q: int|
                    #![trigger b.nodes@[j].addresses@[p], b.nodes@[j].addresses@[q]]
                    b.nodes@.contains_key(j) && 0 <= p < b.nodes@[j].addresses@.len() && 0 <= q
                        < b.nodes@[j].addresses@.len() && p != q implies b.nodes@[j].addresses@[p].network
                        != b.nodes@[j].addresses@[q].network by {
                    assert(b.nodes@[j].same_identity(&a.nodes@[j]));
                    assert(a.nodes@[j].addresses@[p] == b.nodes@[j].addresses@[p]);
                    assert(a.nodes@[j].addresses@[q] == b.nodes@[j].addresses@[q]);
                }
            }
}

proof fn lemma_reconnect_keeps_symmetry(pre: Simulator, post: Simulator, node_id: NodeId, network: NetworkType, at: u64, r: Seq<Event>)
    requires
        pre.wf(),
        Network::reconnected(pre.network, post.network, node_id, network, at, r),
        symmetric(pre.network),
        single_homed(pre.network),
    ensures
        symmetric(post.network),
        single_homed(post.network),
        out_live(pre.network) ==> out_live(post.network),
{
    let a = pre.network;
    let b = post.network;
            if a.reconnect_ready(node_id, network) {
                lemma_symmetry_kept_on_reconnect(a, b, node_id, network, at, r);
                if out_live(a) {
                    lemma_links_live_kept_on_reconnect(a, b, node_id, network, at, r);
                }
                assert forall|j: NodeId, p: int, q: int|
                    #![trigger b.nodes@[j].addresses@[p], b.nodes@[j].addresses@[q]]
                    b.nodes@.contains_key(j) && 0 <= p < b.nodes@[j].addresses@.len() && 0 <= q
                        < b.nodes@[j].addresses@.len() && p != q implies b.nodes@[j].addresses@[p].network
                        != b.nodes@[j].addresses@[q].network by {
                    assert(b.nodes@[j].same_identity(&a.nodes@[j]));
                    assert(a.nodes@[j].addresses@[p] == b.nodes@[j].addresses@[p]);
                    assert(a.nodes@[j].addresses@[q] == b.nodes@[j].addresses@[q]);
                }
            }
}

proof fn lemma_getaddr_keeps_symmetry(pre: Simulator, post: Simulator, from: AddressId, to: AddressId, at: u64, r: Seq<Event>)
    requires
        pre.wf(),
        Network::getaddr_delivered(pre.network, post.network, from, to, at, r),
        symmetric(pre.network),
        single_homed(pre.network),
    ensures
        symmetric(post.network),
        single_homed(post.network),
        out_live(pre.network) ==> out_live(post.network),
{
    let a = pre.network;
    let b = post.network;
                if a.getaddr_deliverable(from, to, at) {
                    let t = a.live_owner(to)->0;
                    let mid = crate::delivery::counted(a.nodes@, a.live_owner(from), true);
                    assert forall|j: NodeId| #[trigger] a.nodes@.contains_key(j) implies {
                        &&& b.nodes@[j].same_identity(&a.nodes@[j])
                        &&& b.nodes@[j].out_peers@.dom() == a.nodes@[j].out_peers@.dom()
                        &&& b.nodes@[j].in_peers@.dom() == a.nodes@[j].in_peers@.dom()
                    } by {
                        assert(mid[j].out_peers == a.nodes@[j].out_peers);
                        assert(mid[j].in_peers == a.nodes@[j].in_peers);
                        if j == t {
                            let k = addr_key(from);
                            assert(b.nodes@[j].out_peers@.dom() =~= a.nodes@[j].out_peers@.dom());
                            assert(b.nodes@[j].in_peers@.dom() =~= a.nodes@[j].in_peers@.dom());
                        }
                    }
                    assert(b.nodes@.dom() =~= a.nodes@.dom());
                    lemma_symmetry_kept_by_same_links(a, b);
                }
}

proof fn lemma_addr_keeps_symmetry(pre: Simulator, post: Simulator, from: AddressId, to: AddressId, v: Seq<AddrPayload>, at: u64)
    requires
        pre.wf(),
        Network::addr_delivered(pre.network, post.network, from, to, v, at),
        symmetric(pre.network),
        single_homed(pre.network),
    ensures
        symmetric(post.network),
        single_homed(post.network),
        out_live(pre.network) ==> out_live(post.network),
{
    let a = pre.network;
    let b = post.network;
                if a.addr_deliverable(from, to) {
                    let t = a.live_owner(to)->0;
                    let mid = crate::delivery::counted(a.nodes@, a.live_owner(from), false);
                    assert forall|j: NodeId| #[trigger] a.nodes@.contains_key(j) implies {
                        &&& b.nodes@[j].same_identity(&a.nodes@[j])
                        &&& b.nodes@[j].out_peers@.dom() == a.nodes@[j].out_peers@.dom()
                        &&& b.nodes@[j].in_peers@.dom() == a.nodes@[j].in_peers@.dom()
                    } by {
                        assert(mid[j].out_peers == a.nodes@[j].out_peers);
                        assert(mid[j].in_peers == a.nodes@[j].in_peers);
                    }
                    assert(b.nodes@.dom() =~= a.nodes@.dom());
                    lemma_symmetry_kept_by_same_links(a, b);
                }
}

/// Handling any event keeps the connections known at both ends and every node on one
/// address per network: joins, leaves and reconnections rewire the network without
/// leaving a one-sided connection, and messages and timers leave it as it is.
pub proof fn lemma_process_keeps_symmetry(pre: Simulator, post: Simulator, event: Event, r: Seq<Event>)
    requires
        pre.wf(),
        Simulator::processed(pre, post, event, r),
        symmetric(pre.network),
        single_homed(pre.network),
    ensures
        symmetric(post.network),
        single_homed(post.network),
        out_live(pre.network) ==> out_live(post.network),
{
    let a = pre.network;
    let b = post.network;
    match event {
        Event::NodeJoin { at } => lemma_join_keeps_symmetry(pre, post, at, r),
        Event::NodeLeave { node_id, at } => lemma_leave_keeps_symmetry(pre, post, node_id, at, r),
        Event::NodeReconnect { node_id, network, at } => lemma_reconnect_keeps_symmetry(pre, post, node_id, network, at, r),
        Event::SelfAnnounce { node_id, peer_addr, at } => {
            if a.self_announce_ready(node_id, peer_addr) {
                assert(b.nodes@.dom() =~= a.nodes@.dom());
                lemma_symmetry_kept_by_same_links(a, b);
            }
        },
        Event::FlushAddrQueue { node_id, peer_addr, at } => {
            if a.flush_ready(node_id, peer_addr) {
                assert(b.nodes@.dom() =~= a.nodes@.dom());
                lemma_symmetry_kept_by_same_links(a, b);
            }
        },
        Event::SendMessage { from, to, msg, at } => match msg {
            NetworkMessage::GetAddr => lemma_getaddr_keeps_symmetry(pre, post, from, to, at, r),
            NetworkMessage::Addr(v) => lemma_addr_keeps_symmetry(pre, post, from, to, v@, at),
            NetworkMessage::AddrAnnounce(v) => {
                if a.announce_deliverable(from, to, v@, at) {
                    assert(b.nodes@.dom() =~= a.nodes@.dom());
                    lemma_symmetry_kept_by_same_links(a, b);
                }
            },
        },
    }
}

/// Handling any event keeps every outbound link live: each dialed address stays active,
/// belongs to another node, and that node knows the connection, so a departure leaves
/// no connection to the departed node behind.
pub proof fn lemma_process_keeps_links_live(pre: Simulator, post: Simulator, event: Event, r: Seq<Event>)
    requires
        pre.wf(),
        Simulator::processed(pre, post, event, r),
        links_live(pre.network),
        single_homed(pre.network),
    ensures
        links_live(post.network),
        single_homed(post.network),
{
    lemma_process_keeps_symmetry(pre, post, event, r);
}

/// The simulation clock never runs backwards: of two steps in a row, the second handles
/// an event no earlier than the first.
pub proof fn lemma_steps_in_time_order(
    s0: Simulator,
    s1: Simulator,
    s2: Simulator,
    e1: Event,
    t1: u64,
    e2: Event,
    t2: u64,
)
    requires
        Simulator::stepped(s0, s1, Some((e1, t1))),
        Simulator::stepped(s1, s2, Some((e2, t2))),
    ensures
        t1 <= t2,
{
    let k = choose|k: u128|
        #![trigger s1.event_queue.events@.contains_key(k)]
        s1.event_queue.events@.contains_key(k) && key_time(k) == t2 && s1.event_queue.events@[k] == e2;
}

} // verus!
