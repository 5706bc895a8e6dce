//! Handing work to the nodes it concerns: protocol messages go to the node that owns
//! their target address, timers to the node they were set for. Work that reaches no
//! node still in the network, or that the node could not take, changes nothing.
use rand::rngs::StdRng;
use vstd::prelude::*;

use crate::address::{AddressId, NetworkType};
use crate::network::{lemma_replace_node, Network};
use crate::node::{
    flush_event, flush_timer, later_by, max_announce_delay, newly_pending, next_announce_delay, AddrPayload, Event, Node,
    NodeId, RELAY_FLUSH_DELAY,
};
use crate::statistics::NodeStatistics;

verus! {

broadcast use vstd::std_specs::hash::group_hash_axioms;

/// The counters after one more message was sent: a GETADDR when `getaddr`, an ADDR
/// response otherwise.
pub open spec fn count_sent(st: NodeStatistics, getaddr: bool) -> NodeStatistics {
    if getaddr {
        NodeStatistics { getaddr_sent: (st.getaddr_sent + 1) as u64, ..st }
    } else {
        NodeStatistics { addr_sent: (st.addr_sent + 1) as u64, ..st }
    }
}

/// The counter `count_sent` raises is below its limit.
pub open spec fn can_count_sent(st: NodeStatistics, getaddr: bool) -> bool {
    if getaddr {
        st.getaddr_sent < u64::MAX
    } else {
        st.addr_sent < u64::MAX
    }
}

/// The nodes after the sender, if there is one, counted one more message.
pub open spec fn counted(nodes: Map<NodeId, Node>, sender: Option<NodeId>, getaddr: bool) -> Map<
    NodeId,
    Node,
> {
    match sender {
        Some(s) => nodes.insert(
            s,
            Node { node_statistics: count_sent(nodes[s].node_statistics, getaddr), ..nodes[s] },
        ),
        None => nodes,
    }
}

impl Network {
    /// The node that owns `a`, when `a` is registered and that node is still in the network.
    pub open spec fn live_owner(&self, a: AddressId) -> Option<NodeId> {
        if self.registry.has(a) && self.nodes@.contains_key(self.registry.record(a).owner_node) {
            Some(self.registry.record(a).owner_node)
        } else {
            None
        }
    }

    /// The sender of a message, if still in the network, can count one more.
    pub open spec fn sender_countable(&self, from: AddressId, getaddr: bool) -> bool {
        self.live_owner(from) matches Some(s) ==> can_count_sent(
            self.nodes@[s].node_statistics,
            getaddr,
        )
    }

    /// The network after node `id` alone changed, into `node`; nothing else differs.
    pub open spec fn only_node_changed(pre: Network, post: Network, nodes: Map<NodeId, Node>, id: NodeId) -> bool {
        &&& post.wf()
        &&& post.registry == pre.registry
        &&& post.next_node_id == pre.next_node_id
        &&& post.next_addr_id == pre.next_addr_id
        &&& post.nodes@ == nodes.insert(id, post.nodes@[id])
    }

    /// A GETADDR from `from` to `to` at `at` reaches a node that can answer it.
    pub open spec fn getaddr_deliverable(&self, from: AddressId, to: AddressId, at: u64) -> bool {
        &&& self.live_owner(to) is Some
        &&& self.sender_countable(from, true)
        &&& counted(self.nodes@, self.live_owner(from), true)[self.live_owner(to)->0].getaddr_ready(
            from,
            at,
        )
    }

    /// The network after a GETADDR from `from` to `to` at `at`, and the answer `r`:
    /// the sender counts it and the target answers it, or nothing happens.
    pub open spec fn getaddr_delivered(
        pre: Network,
        post: Network,
        from: AddressId,
        to: AddressId,
        at: u64,
        r: Seq<Event>,
    ) -> bool {
        if pre.getaddr_deliverable(from, to, at) {
            let t = pre.live_owner(to)->0;
            let mid = counted(pre.nodes@, pre.live_owner(from), true);
            &&& Network::only_node_changed(pre, post, mid, t)
            &&& Node::getaddr_post(mid[t], post.nodes@[t], from, at, r)
        } else {
            post == pre && r.len() == 0
        }
    }

    /// A GETADDR response from `from` to `to` reaches a node that can take it.
    pub open spec fn addr_deliverable(&self, from: AddressId, to: AddressId) -> bool {
        &&& self.live_owner(to) is Some
        &&& self.sender_countable(from, false)
        &&& self.nodes@[self.live_owner(to)->0].node_statistics.addr_received < u64::MAX
    }

    /// The network after a GETADDR response `addrs` from `from` to `to` at `at`: the
    /// sender counts it and the target takes it in, or nothing happens.
    pub open spec fn addr_delivered(
        pre: Network,
        post: Network,
        from: AddressId,
        to: AddressId,
        addrs: Seq<AddrPayload>,
        at: u64,
    ) -> bool {
        if pre.addr_deliverable(from, to) {
            let t = pre.live_owner(to)->0;
            let mid = counted(pre.nodes@, pre.live_owner(from), false);
            &&& Network::only_node_changed(pre, post, mid, t)
            &&& Node::addr_post(mid[t], post.nodes@[t], addrs, at)
        } else {
            post == pre
        }
    }

    /// An announcement from `from` to `to` reaches a node that can take it.
    pub open spec fn announce_deliverable(
        &self,
        from: AddressId,
        to: AddressId,
        addrs: Seq<AddrPayload>,
        at: u64,
    ) -> bool {
        &&& self.live_owner(to) is Some
        &&& self.nodes@[self.live_owner(to)->0].announce_ready(from, addrs, at, &self.registry)
    }

    /// The network after an announcement `addrs` from `from` to `to` at `at`: the target
    /// takes it in and queues relays, and a flush is scheduled for exactly the relay
    /// queues that were empty before and are not now; or nothing happens.
    pub open spec fn announce_delivered(
        pre: Network,
        post: Network,
        from: AddressId,
        to: AddressId,
        addrs: Seq<AddrPayload>,
        at: u64,
        r: Seq<Event>,
    ) -> bool {
        if pre.announce_deliverable(from, to, addrs, at) {
            let t = pre.live_owner(to)->0;
            &&& Network::only_node_changed(pre, post, pre.nodes@, t)
            &&& Node::announce_post(pre.nodes@[t], post.nodes@[t], from, addrs, at, pre.registry, Seq::empty())
            &&& forall|i: int|
                0 <= i < r.len() ==> flush_timer(#[trigger] r[i], t, at) && newly_pending(
                    pre.nodes@[t],
                    post.nodes@[t],
                    r[i]->FlushAddrQueue_peer_addr,
                )
            &&& forall|a: AddressId|
                #[trigger] newly_pending(pre.nodes@[t], post.nodes@[t], a) ==> exists|i: int|
                    0 <= i < r.len() && r[i] == flush_event(t, a, at)
        } else {
            post == pre && r.len() == 0
        }
    }

    /// Node `id` is in the network and can announce itself to `peer_addr`.
    pub open spec fn self_announce_ready(&self, id: NodeId, peer_addr: AddressId) -> bool {
        &&& self.nodes@.contains_key(id)
        &&& self.nodes@[id].announce_addr(peer_addr.network) is Some
            ==> self.nodes@[id].node_statistics.addr_announce_sent < u64::MAX
    }

    /// `e` schedules the next self-announcement of node `id` to `peer_addr`, some time
    /// after `at` and no later than the longest delay.
    pub open spec fn next_announce(id: NodeId, peer_addr: AddressId, at: u64, e: Event) -> bool {
        e matches Event::SelfAnnounce { node_id, peer_addr: p, at: t } && node_id == id && p == peer_addr
            && at <= t && t <= at + max_announce_delay()
    }

    /// The network after node `id` announced itself to `peer_addr`, or nothing happened;
    /// while the two are still connected, the next self-announcement is scheduled (the
    /// timer is the connection's and ends with it).
    pub open spec fn self_announced(
        pre: Network,
        post: Network,
        id: NodeId,
        peer_addr: AddressId,
        at: u64,
        r: Seq<Event>,
    ) -> bool {
        if pre.self_announce_ready(id, peer_addr) {
            let n = if pre.nodes@[id].has_peer(peer_addr) {
                r.len() - 1
            } else {
                r.len() as int
            };
            &&& Network::only_node_changed(pre, post, pre.nodes@, id)
            &&& Node::self_announce_post(pre.nodes@[id], post.nodes@[id], peer_addr, at, r.take(n))
            &&& pre.nodes@[id].has_peer(peer_addr) ==> r.len() >= 1 && Network::next_announce(
                id,
                peer_addr,
                at,
                r.last(),
            )
        } else {
            post == pre && r.len() == 0
        }
    }

    /// Node `id` is in the network and can flush its queue for `peer_addr`.
    pub open spec fn flush_ready(&self, id: NodeId, peer_addr: AddressId) -> bool {
        let n = self.nodes@[id];
        &&& self.nodes@.contains_key(id)
        &&& n.has_peer(peer_addr) && n.peer(peer_addr).pending_relay@.len() > 0 ==> n.own_addr(
            peer_addr.network,
        ) is Some && n.node_statistics.addr_announce_sent < u64::MAX
    }

    /// The network after node `id` flushed its relay queue for `peer_addr`, or nothing
    /// happened.
    pub open spec fn flushed(
        pre: Network,
        post: Network,
        id: NodeId,
        peer_addr: AddressId,
        at: u64,
        r: Seq<Event>,
    ) -> bool {
        if pre.flush_ready(id, peer_addr) {
            &&& Network::only_node_changed(pre, post, pre.nodes@, id)
            &&& Node::flush_post(pre.nodes@[id], post.nodes@[id], peer_addr, at, r)
        } else {
            post == pre && r.len() == 0
        }
    }

    /// Node `id` is in the network and has an address on `network`.
    pub open spec fn reconnect_ready(&self, id: NodeId, network: NetworkType) -> bool {
        &&& self.nodes@.contains_key(id)
        &&& self.nodes@[id].own_addr(network) is Some
    }

    /// The network after node `id` looked for a new outbound peer on `network`, or
    /// nothing happened.
    pub open spec fn reconnected(
        pre: Network,
        post: Network,
        id: NodeId,
        network: NetworkType,
        at: u64,
        r: Seq<Event>,
    ) -> bool {
        if pre.reconnect_ready(id, network) {
            Network::reconnect_post(pre, post, id, network, at, r)
        } else {
            post == pre && r.len() == 0
        }
    }

    /// The node that owns `a`, when it is still in the network.
    pub fn live_owner_of(&self, a: AddressId) -> (r: Option<NodeId>)
        ensures
            r == self.live_owner(a),
    {
        match self.registry.owner_of(a) {
            Some(n) => if self.nodes.contains_key(&n) {
                Some(n)
            } else {
                None
            },
            None => None,
        }
    }

    /// Count one more message sent by `sender`.
    fn count_sent(&mut self, sender: Option<NodeId>, getaddr: bool)
        requires
            old(self).wf(),
            sender matches Some(s) ==> old(self).nodes@.contains_key(s) && can_count_sent(
                old(self).nodes@[s].node_statistics,
                getaddr,
            ),
        ensures
            final(self).wf(),
            final(self).registry == old(self).registry,
            final(self).next_node_id == old(self).next_node_id,
            final(self).next_addr_id == old(self).next_addr_id,
            final(self).nodes@ == counted(old(self).nodes@, sender, getaddr),
    {
        let ghost pre = *self;
        match sender {
            Some(s) => {
                match self.nodes.remove(&s) {
                    Some(n) => {
                        let mut n = n;
                        if getaddr {
                            n.node_statistics.getaddr_sent = n.node_statistics.getaddr_sent + 1;
                        } else {
                            n.node_statistics.addr_sent = n.node_statistics.addr_sent + 1;
                        }
                        self.nodes.insert(s, n);
                        proof {
                            assert(self.nodes@ =~= pre.nodes@.insert(s, self.nodes@[s]));
                            lemma_replace_node(pre, *self, s);
                        }
                    },
                    None => {},
                }
            },
            None => {},
        }
    }

    /// Deliver a GETADDR: the sender counts it and the node that owns `to` answers it.
    pub fn deliver_getaddr(&mut self, from: AddressId, to: AddressId, at: u64, rng: &mut StdRng) -> (r: Vec<Event>)
        requires
            old(self).wf(),
        ensures
            Network::getaddr_delivered(*old(self), *final(self), from, to, at, r@),
            !old(self).getaddr_deliverable(from, to, at) || old(self).nodes@[old(self).live_owner(to)->0].cache_hit(
                from.network,
                at,
            ) ==> *final(rng) == *old(rng),
    {
        let t = match self.live_owner_of(to) {
            Some(t) => t,
            None => {
                return Vec::new();
            },
        };
        let s = self.live_owner_of(from);
        let countable = match s {
            Some(sid) => match self.nodes.get(&sid) {
                Some(n) => n.node_statistics.getaddr_sent < u64::MAX,
                None => false,
            },
            None => true,
        };
        if !countable {
            return Vec::new();
        }
        let ready = match self.nodes.get(&t) {
            Some(n) => {
                proof {
                    assert(self.node_ok(t));
                }
                n.check_getaddr_ready(from, at)
            },
            None => false,
        };
        proof {
            let mid = counted(self.nodes@, s, true);
            assert(mid[t].getaddr_ready(from, at) == self.nodes@[t].getaddr_ready(from, at));
        }
        if !ready {
            return Vec::new();
        }
        self.count_sent(s, true);
        let ghost mid = *self;
        let r = match self.nodes.remove(&t) {
            Some(n) => {
                let mut n = n;
                let r = n.receive_getaddr(from, at, rng);
                self.nodes.insert(t, n);
                r
            },
            None => Vec::new(),
        };
        proof {
            assert(self.nodes@ =~= mid.nodes@.insert(t, self.nodes@[t]));
            assert(self.nodes@[t].out_peers@.dom() =~= mid.nodes@[t].out_peers@.dom());
            assert(self.nodes@[t].in_peers@.dom() =~= mid.nodes@[t].in_peers@.dom());
            lemma_replace_node(mid, *self, t);
        }
        r
    }

    /// Deliver a GETADDR response: the sender counts it and the node that owns `to`
    /// takes it in.
    pub fn deliver_addr(&mut self, from: AddressId, to: AddressId, addrs: Vec<AddrPayload>, at: u64)
        requires
            old(self).wf(),
        ensures
            Network::addr_delivered(*old(self), *final(self), from, to, addrs@, at),
    {
        let t = match self.live_owner_of(to) {
            Some(t) => t,
            None => {
                return ;
            },
        };
        let s = self.live_owner_of(from);
        let countable = match s {
            Some(sid) => match self.nodes.get(&sid) {
                Some(n) => n.node_statistics.addr_sent < u64::MAX,
                None => false,
            },
            None => true,
        };
        if !countable {
            return ;
        }
        let ready = match self.nodes.get(&t) {
            Some(n) => n.node_statistics.addr_received < u64::MAX,
            None => false,
        };
        if !ready {
            return ;
        }
        self.count_sent(s, false);
        let ghost mid = *self;
        proof {
            assert(mid.node_ok(t));
        }
        match self.nodes.remove(&t) {
            Some(n) => {
                let mut n = n;
                n.receive_addr(addrs, at);
                self.nodes.insert(t, n);
            },
            None => {},
        }
        proof {
            assert(self.nodes@ =~= mid.nodes@.insert(t, self.nodes@[t]));
            lemma_replace_node(mid, *self, t);
        }
    }

    /// Deliver an announcement to the node that owns `to`, and schedule a flush, 30
    /// seconds on, of each relay queue the announcement started filling.
    pub fn deliver_announce(
        &mut self,
        from: AddressId,
        to: AddressId,
        addrs: Vec<AddrPayload>,
        at: u64,
        rng: &mut StdRng,
    ) -> (r: Vec<Event>)
        requires
            old(self).wf(),
        ensures
            Network::announce_delivered(*old(self), *final(self), from, to, addrs@, at, r@),
            !old(self).announce_deliverable(from, to, addrs@, at) ==> *final(rng) == *old(rng),
    {
        let t = match self.live_owner_of(to) {
            Some(t) => t,
            None => {
                return Vec::new();
            },
        };
        let ready = match self.nodes.get(&t) {
            Some(n) => {
                proof {
                    assert(self.node_ok(t));
                }
                n.check_announce_ready(from, &addrs, at, &self.registry)
            },
            None => false,
        };
        if !ready {
            return Vec::new();
        }
        let ghost pre = *self;
        let (cs, lens) = match self.nodes.get(&t) {
            Some(n) => {
                proof {
                    assert(pre.node_ok(t));
                }
                let cs = n.connected_addrs();
                let mut lens: Vec<usize> = Vec::new();
                let mut i: usize = 0;
                while i < cs.len()
                    invariant
                        0 <= i <= cs.len(),
                        lens@.len() == i,
                        forall|j: int|
                            0 <= j < i ==> #[trigger] lens@[j] == (if n.has_peer(cs@[j]) {
                                n.peer(cs@[j]).pending_relay@.len()
                            } else {
                                0
                            }),
                    decreases cs.len() - i,
                {
                    lens.push(n.pending_len(cs[i]));
                    i = i + 1;
                }
                (cs, lens)
            },
            None => (Vec::new(), Vec::new()),
        };
        match self.nodes.remove(&t) {
            Some(n) => {
                let mut n = n;
                let _ = n.receive_addr_announce(from, addrs, at, &self.registry, rng);
                self.nodes.insert(t, n);
            },
            None => {},
        }
        proof {
            assert(self.nodes@ =~= pre.nodes@.insert(t, self.nodes@[t]));
            lemma_replace_node(pre, *self, t);
        }
        let ghost n0 = pre.nodes@[t];
        let ghost n1 = self.nodes@[t];
        let mut r: Vec<Event> = Vec::new();
        let mut i: usize = 0;
        while i < cs.len()
            invariant
                0 <= i <= cs.len(),
                lens@.len() == cs@.len(),
                self.nodes@.contains_key(t),
                self.nodes@[t] == n1,
                n1.out_peers@.dom() == n0.out_peers@.dom(),
                n1.in_peers@.dom() == n0.in_peers@.dom(),
                forall|a: AddressId| #[trigger] n0.has_peer(a) ==> cs@.contains(a),
                forall|j: int|
                    0 <= j < cs.len() ==> #[trigger] lens@[j] == (if n0.has_peer(cs@[j]) {
                        n0.peer(cs@[j]).pending_relay@.len()
                    } else {
                        0
                    }),
                forall|j: int|
                    0 <= j < r.len() ==> flush_timer(#[trigger] r@[j], t, at) && newly_pending(
                        n0,
                        n1,
                        r@[j]->FlushAddrQueue_peer_addr,
                    ),
                forall|j: int|
                    0 <= j < i && newly_pending(n0, n1, #[trigger] cs@[j]) ==> exists|l: int|
                        0 <= l < r.len() && r@[l] == flush_event(t, cs@[j], at),
            decreases cs.len() - i,
        {
            let a = cs[i];
            let now_len = match self.nodes.get(&t) {
                Some(n) => n.pending_len(a),
                None => 0,
            };
            if lens[i] == 0 && now_len > 0 {
                let ghost r0 = r@;
                r.push(Event::FlushAddrQueue { node_id: t, peer_addr: a, at: later_by(at, RELAY_FLUSH_DELAY) });
                proof {
                    assert(r@[r0.len() as int] == flush_event(t, a, at));
                    assert forall|j: int| 0 <= j < i + 1 && newly_pending(n0, n1, #[trigger] cs@[j]) implies exists|l: int|
                        0 <= l < r.len() && r@[l] == flush_event(t, cs@[j], at) by {
                        if j < i {
                            let l = choose|l: int| 0 <= l < r0.len() && r0[l] == flush_event(t, cs@[j], at);
                            assert(r@[l] == r0[l]);
                        }
                    }
                }
            } else {
                proof {
                    assert(!newly_pending(n0, n1, cs@[i as int]));
                }
            }
            i = i + 1;
        }
        proof {
            assert forall|a: AddressId| #[trigger] newly_pending(n0, n1, a) implies exists|l: int|
                0 <= l < r.len() && r@[l] == flush_event(t, a, at) by {
                assert(n0.has_peer(a));
                let j = choose|j: int| 0 <= j < cs.len() && cs@[j] == a;
                assert(newly_pending(n0, n1, cs@[j]));
            }
        }
        r
    }

    /// Node `id` announces its own address to `peer_addr` and, while the two are still
    /// connected, schedules the next announcement after a random delay (see
    /// `next_announce_delay`). The timer belongs to the connection, as the per-peer
    /// `m_next_local_addr_send` of Bitcoin Core does: once the peer is gone no further
    /// announcement is scheduled, so closed connections leave no timers behind that
    /// would fire, and reschedule themselves, for the rest of the run.
    pub fn self_announce(&mut self, id: NodeId, peer_addr: AddressId, at: u64, rng: &mut StdRng) -> (r: Vec<Event>)
        requires
            old(self).wf(),
        ensures
            Network::self_announced(*old(self), *final(self), id, peer_addr, at, r@),
            !(old(self).self_announce_ready(id, peer_addr) && old(self).nodes@[id].has_peer(peer_addr))
                ==> *final(rng) == *old(rng),
    {
        let ready = match self.nodes.get(&id) {
            Some(n) => {
                let network = peer_addr.network;
                let announces = n.reachable_networks.contains(network) && n.find_own(network).is_some();
                !announces || n.node_statistics.addr_announce_sent < u64::MAX
            },
            None => false,
        };
        if !ready {
            return Vec::new();
        }
        let ghost pre = *self;
        proof {
            assert(pre.node_ok(id));
        }
        let mut r = match self.nodes.remove(&id) {
            Some(n) => {
                let mut n = n;
                let r = n.self_announce_to_peer(peer_addr, at);
                self.nodes.insert(id, n);
                r
            },
            None => Vec::new(),
        };
        proof {
            assert(self.nodes@ =~= pre.nodes@.insert(id, self.nodes@[id]));
            lemma_replace_node(pre, *self, id);
        }
        let ghost r0 = r@;
        let connected = match self.nodes.get(&id) {
            Some(n) => n.is_connected(peer_addr),
            None => false,
        };
        if connected {
            let d = next_announce_delay(rng);
            r.push(Event::SelfAnnounce { node_id: id, peer_addr, at: later_by(at, d) });
            proof {
                assert(r@.take(r@.len() - 1) =~= r0);
            }
        } else {
            proof {
                assert(r@.take(r@.len() as int) =~= r0);
            }
        }
        r
    }

    /// Node `id` sends its queued relays to `peer_addr`.
    pub fn flush_addr_queue(&mut self, id: NodeId, peer_addr: AddressId, at: u64) -> (r: Vec<Event>)
        requires
            old(self).wf(),
        ensures
            Network::flushed(*old(self), *final(self), id, peer_addr, at, r@),
    {
        let ready = match self.nodes.get(&id) {
            Some(n) => {
                let k = peer_addr.key();
                let pending = match n.out_peers.get(&k) {
                    Some(p) => p.pending_relay.len(),
                    None => match n.in_peers.get(&k) {
                        Some(p) => p.pending_relay.len(),
                        None => 0,
                    },
                };
                pending == 0 || (n.find_own(peer_addr.network).is_some()
                    && n.node_statistics.addr_announce_sent < u64::MAX)
            },
            None => false,
        };
        if !ready {
            return Vec::new();
        }
        let ghost pre = *self;
        proof {
            assert(pre.node_ok(id));
        }
        let r = match self.nodes.remove(&id) {
            Some(n) => {
                let mut n = n;
                let r = n.flush_addr_queue(peer_addr, at);
                self.nodes.insert(id, n);
                r
            },
            None => Vec::new(),
        };
        proof {
            assert(self.nodes@ =~= pre.nodes@.insert(id, self.nodes@[id]));
            lemma_replace_node(pre, *self, id);
        }
        r
    }

    /// Node `id` looks for a new outbound peer on `network`.
    pub fn reconnect(&mut self, id: NodeId, network: NetworkType, at: u64, rng: &mut StdRng) -> (r: Vec<
        Event,
    >)
        requires
            old(self).wf(),
        ensures
            Network::reconnected(*old(self), *final(self), id, network, at, r@),
            !old(self).reconnect_ready(id, network) ==> *final(rng) == *old(rng),
    {
        let ready = match self.nodes.get(&id) {
            Some(n) => n.find_own(network).is_some(),
            None => false,
        };
        if !ready {
            return Vec::new();
        }
        self.reconnect_outbound(id, network, at, rng)
    }
}

/// A node that does not listen on the requester's network does not answer its GETADDR,
/// and a node that already answered a peer on this connection does not answer again:
/// either way the message changes nothing and nothing is sent back.
pub proof fn lemma_getaddr_unanswered(
    pre: Network,
    post: Network,
    from: AddressId,
    to: AddressId,
    at: u64,
    r: Seq<Event>,
)
    requires
        Network::getaddr_delivered(pre, post, from, to, at, r),
        pre.live_owner(to) matches Some(t) && (!pre.nodes@[t].reachable_networks.has(from.network) || (
        pre.nodes@[t].has_peer(from) && pre.nodes@[t].peer(from).getaddr_recvd)),
    ensures
        post == pre,
        r.len() == 0,
{
    let t = pre.live_owner(to)->0;
    let mid = counted(pre.nodes@, pre.live_owner(from), true);
    assert(mid[t].reachable_networks == pre.nodes@[t].reachable_networks);
    assert(mid[t].out_peers == pre.nodes@[t].out_peers);
    assert(mid[t].in_peers == pre.nodes@[t].in_peers);
}

/// A message to an address whose node has left reaches no one: whatever its kind, it
/// changes nothing and nothing answers it.
pub proof fn lemma_departed_unreached(
    pre: Network,
    post_getaddr: Network,
    post_addr: Network,
    post_announce: Network,
    from: AddressId,
    to: AddressId,
    addrs: Seq<AddrPayload>,
    at: u64,
    r1: Seq<Event>,
    r2: Seq<Event>,
)
    requires
        !pre.nodes@.contains_key(pre.registry.record(to).owner_node),
        Network::getaddr_delivered(pre, post_getaddr, from, to, at, r1),
        Network::addr_delivered(pre, post_addr, from, to, addrs, at),
        Network::announce_delivered(pre, post_announce, from, to, addrs, at, r2),
    ensures
        post_getaddr == pre,
        post_addr == pre,
        post_announce == pre,
        r1.len() == 0,
        r2.len() == 0,
{
}

} // verus!
