//! Fingerprinting analysis: how many (address, timestamp) pairs a dual-stack node's
//! clearnet and onion GETADDR caches share.
use std::collections::HashMap;

use vstd::prelude::*;

use crate::address::{addr_key, NetworkType};
use crate::maps::map_keys;
use crate::node::{AddrPayload, NodeId};

verus! {

broadcast use vstd::std_specs::hash::group_hash_axioms;

/// An (address key, timestamp) pair as recorded from a GETADDR cache.
pub open spec fn pair_of(p: AddrPayload) -> (u128, u64) {
    (addr_key(p.address), p.timestamp)
}

/// Lexicographic order on pairs: by address key, then by timestamp.
pub open spec fn pair_le(p: (u128, u64), q: (u128, u64)) -> bool {
    p.0 < q.0 || (p.0 == q.0 && p.1 <= q.1)
}

pub open spec fn sorted_pairs(s: Seq<(u128, u64)>) -> bool {
    forall|i: int, j: int| 0 <= i < j < s.len() ==> pair_le(#[trigger] s[i], #[trigger] s[j])
}

/// The number of pairs two lists have in common, counted with multiplicity.
pub open spec fn common_count(a: Seq<(u128, u64)>, b: Seq<(u128, u64)>) -> nat {
    a.to_multiset().intersection_with(b.to_multiset()).len()
}

/// Calls `slice::sort_unstable` on pairs of integers. std orders such tuples
/// lexicographically, so the result is the same pairs in non-decreasing order.
#[verifier::external_body]
fn sort_pairs(v: &mut Vec<(u128, u64)>)
    ensures
        final(v)@.to_multiset() == old(v)@.to_multiset(),
        sorted_pairs(final(v)@),
{
    v.sort_unstable()
}

/// Removing one element present in both multisets lowers the size of their
/// intersection by one.
proof fn lemma_common_both(a: vstd::multiset::Multiset<(u128, u64)>, b: vstd::multiset::Multiset<(u128, u64)>, x: (u128, u64))
    requires
        a.count(x) > 0,
        b.count(x) > 0,
    ensures
        a.intersection_with(b).len() == a.remove(x).intersection_with(b.remove(x)).len() + 1,
{
    broadcast use vstd::multiset::group_multiset_properties;

    let small = a.remove(x).intersection_with(b.remove(x));
    assert(small.insert(x) =~= a.intersection_with(b));
}

proof fn lemma_intersection_commutative(
    a: vstd::multiset::Multiset<(u128, u64)>,
    b: vstd::multiset::Multiset<(u128, u64)>,
)
    ensures
        a.intersection_with(b) == b.intersection_with(a),
{
    broadcast use vstd::multiset::group_multiset_properties;

    assert(a.intersection_with(b) =~= b.intersection_with(a));
}

proof fn lemma_subset_len(a: vstd::multiset::Multiset<(u128, u64)>, b: vstd::multiset::Multiset<(u128, u64)>)
    requires
        a.subset_of(b),
    ensures
        a.len() <= b.len(),
{
    broadcast use vstd::multiset::group_multiset_axioms;

    assert(b.sub(a).len() == b.len() - a.len());
}

/// Removing an element absent from the other multiset leaves the intersection alone.
proof fn lemma_common_one(a: vstd::multiset::Multiset<(u128, u64)>, b: vstd::multiset::Multiset<(u128, u64)>, x: (u128, u64))
    requires
        b.count(x) == 0,
    ensures
        a.intersection_with(b) == a.remove(x).intersection_with(b),
{
    broadcast use vstd::multiset::group_multiset_properties;

    assert(a.remove(x).intersection_with(b) =~= a.intersection_with(b));
}

proof fn lemma_skip_multiset(s: Seq<(u128, u64)>, i: int)
    requires
        0 <= i < s.len(),
    ensures
        s.skip(i + 1).to_multiset() == s.skip(i).to_multiset().remove(s[i]),
        s.skip(i).to_multiset().count(s[i]) > 0,
{
    broadcast use vstd::seq_lib::group_to_multiset_ensures;

    assert(s.skip(i).remove(0) =~= s.skip(i + 1));
    assert(s.skip(i)[0] == s[i]);
    assert(s.skip(i).contains(s[i]));
}

/// In a sorted list, nothing from position `j` on is smaller than the element there.
proof fn lemma_sorted_skip_absent(s: Seq<(u128, u64)>, j: int, x: (u128, u64))
    requires
        sorted_pairs(s),
        0 <= j < s.len(),
        pair_le(x, s[j]),
        x != s[j],
    ensures
        s.skip(j).to_multiset().count(x) == 0,
{
    broadcast use vstd::seq_lib::group_to_multiset_ensures;

    if s.skip(j).contains(x) {
        let k = choose|k: int| 0 <= k < s.skip(j).len() && s.skip(j)[k] == x;
        assert(s[j + k] == x);
        if k > 0 {
            assert(pair_le(s[j], s[j + k]));
        }
    }
}

/// Number of pairs from `a` that also appear in `b`.
/// Both slices must be sorted.
pub fn overlap_count(a: &[(u128, u64)], b: &[(u128, u64)]) -> (r: usize)
    requires
        sorted_pairs(a@),
        sorted_pairs(b@),
    ensures
        r == common_count(a@, b@),
        r <= a@.len(),
{
    broadcast use vstd::seq_lib::group_to_multiset_ensures;

    let mut intersection: usize = 0;
    let mut ai: usize = 0;
    let mut bi: usize = 0;
    assert(a@.skip(0) =~= a@);
    assert(b@.skip(0) =~= b@);
    while ai < a.len() && bi < b.len()
        invariant
            sorted_pairs(a@),
            sorted_pairs(b@),
            0 <= ai <= a.len(),
            0 <= bi <= b.len(),
            intersection <= ai,
            intersection + common_count(a@.skip(ai as int), b@.skip(bi as int)) == common_count(
                a@,
                b@,
            ),
        decreases a.len() - ai + b.len() - bi,
    {
        let x = a[ai];
        let y = b[bi];
        proof {
            lemma_skip_multiset(a@, ai as int);
            lemma_skip_multiset(b@, bi as int);
        }
        if x.0 == y.0 && x.1 == y.1 {
            proof {
                lemma_common_both(
                    a@.skip(ai as int).to_multiset(),
                    b@.skip(bi as int).to_multiset(),
                    x,
                );
            }
            intersection = intersection + 1;
            ai = ai + 1;
            bi = bi + 1;
        } else if x.0 < y.0 || (x.0 == y.0 && x.1 < y.1) {
            proof {
                lemma_sorted_skip_absent(b@, bi as int, x);
                lemma_common_one(
                    a@.skip(ai as int).to_multiset(),
                    b@.skip(bi as int).to_multiset(),
                    x,
                );
            }
            ai = ai + 1;
        } else {
            proof {
                lemma_sorted_skip_absent(a@, ai as int, y);
                lemma_common_one(
                    b@.skip(bi as int).to_multiset(),
                    a@.skip(ai as int).to_multiset(),
                    y,
                );
                lemma_intersection_commutative(
                    a@.skip(ai as int).to_multiset(),
                    b@.skip(bi as int).to_multiset(),
                );
                lemma_intersection_commutative(
                    a@.skip(ai as int).to_multiset(),
                    b@.skip(bi + 1).to_multiset(),
                );
            }
            bi = bi + 1;
        }
    }
    proof {
        broadcast use vstd::multiset::group_multiset_properties;

        if ai == a.len() {
            assert(a@.skip(ai as int) =~= Seq::<(u128, u64)>::empty());
            assert(a@.skip(ai as int).to_multiset().intersection_with(
                b@.skip(bi as int).to_multiset(),
            ) =~= vstd::multiset::Multiset::empty());
        } else {
            assert(b@.skip(bi as int) =~= Seq::<(u128, u64)>::empty());
            assert(a@.skip(ai as int).to_multiset().intersection_with(
                b@.skip(bi as int).to_multiset(),
            ) =~= vstd::multiset::Multiset::empty());
        }
    }
    intersection
}

/// The shared count of two lists, what `overlap_count` returns, does not depend on
/// their order of comparison and never exceeds the length of either; a list shares all
/// of its pairs with itself.
pub proof fn lemma_common_count_symmetric(a: Seq<(u128, u64)>, b: Seq<(u128, u64)>)
    ensures
        common_count(a, b) == common_count(b, a),
        common_count(a, b) <= a.len(),
        common_count(a, b) <= b.len(),
        common_count(a, a) == a.len(),
{
    broadcast use vstd::seq_lib::group_to_multiset_ensures;
    broadcast use vstd::multiset::group_multiset_properties;

    assert(a.to_multiset().intersection_with(a.to_multiset()) =~= a.to_multiset());

    lemma_intersection_commutative(a.to_multiset(), b.to_multiset());
    assert(a.to_multiset().intersection_with(b.to_multiset()).subset_of(a.to_multiset()));
    assert(a.to_multiset().intersection_with(b.to_multiset()).subset_of(b.to_multiset()));
    lemma_subset_len(
        a.to_multiset().intersection_with(b.to_multiset()),
        a.to_multiset(),
    );
    lemma_subset_len(
        a.to_multiset().intersection_with(b.to_multiset()),
        b.to_multiset(),
    );
}

/// The recorded fingerprint of a cache does not depend on the order of its entries: two
/// caches holding the same entries, each recorded as sorted pairs holding its entries,
/// are recorded as the same list.
pub proof fn lemma_record_order_free(
    c1: Seq<AddrPayload>,
    c2: Seq<AddrPayload>,
    s1: Seq<(u128, u64)>,
    s2: Seq<(u128, u64)>,
)
    requires
        c1.map_values(|p: AddrPayload| pair_of(p)).to_multiset() == c2.map_values(|p: AddrPayload| pair_of(p)).to_multiset(),
        sorted_pairs(s1),
        sorted_pairs(s2),
        s1.to_multiset() == c1.map_values(|p: AddrPayload| pair_of(p)).to_multiset(),
        s2.to_multiset() == c2.map_values(|p: AddrPayload| pair_of(p)).to_multiset(),
    ensures
        s1 == s2,
{
    let leq = |p: (u128, u64), q: (u128, u64)| pair_le(p, q);
    assert(vstd::relations::total_ordering(leq));
    assert(vstd::relations::sorted_by(s1, leq));
    assert(vstd::relations::sorted_by(s2, leq));
    vstd::seq_lib::lemma_sorted_unique(s1, s2, leq);
}

/// Lists holding the same entries, in any order, map to lists holding the same images.
proof fn lemma_map_same_entries(c1: Seq<AddrPayload>, c2: Seq<AddrPayload>)
    requires
        c1.to_multiset() == c2.to_multiset(),
    ensures
        c1.map_values(|p: AddrPayload| pair_of(p)).to_multiset() == c2.map_values(|p: AddrPayload| pair_of(p)).to_multiset(),
    decreases c1.len(),
{
    broadcast use vstd::seq_lib::group_to_multiset_ensures;
    broadcast use vstd::multiset::group_multiset_properties;

    let f = |p: AddrPayload| pair_of(p);
    if c1.len() == 0 {
        assert(c2.to_multiset().len() == 0);
        assert(c2.len() == 0);
        assert(c1.map_values(f) =~= Seq::<(u128, u64)>::empty());
        assert(c2.map_values(f) =~= Seq::<(u128, u64)>::empty());
    } else {
        let x = c1.last();
        let c1s = c1.drop_last();
        assert(c1s.push(x) =~= c1);
        assert(c1.to_multiset().count(x) > 0);
        assert(c2.contains(x));
        let j = choose|j: int| 0 <= j < c2.len() && c2[j] == x;
        let c2s = c2.remove(j);
        assert(c2s.to_multiset() == c2.to_multiset().remove(x));
        assert(c1s.to_multiset() =~= c1.to_multiset().remove(x));
        lemma_map_same_entries(c1s, c2s);
        assert(c1.map_values(f) =~= c1s.map_values(f).push(f(x)));
        assert(c2.map_values(f).remove(j) =~= c2s.map_values(f));
        assert(c2.map_values(f)[j] == f(x));
        let m2 = c2.map_values(f).to_multiset();
        assert(m2.count(f(x)) > 0) by {
            assert(c2.map_values(f).contains(f(x)));
        }
        assert(c2s.map_values(f).to_multiset() == m2.remove(f(x)));
        assert(m2 =~= m2.remove(f(x)).insert(f(x)));
    }
}

/// Recording does not depend on the order of the cache's entries, nor on what was
/// recorded before for that node and network: caches holding the same entries, in any
/// order, are recorded as the same list, which replaces any earlier one; and analyzers
/// that held the same records before hold the same records after.
pub proof fn lemma_record_permutation(
    f1: FingerprintAnalyzer,
    g1: FingerprintAnalyzer,
    f2: FingerprintAnalyzer,
    g2: FingerprintAnalyzer,
    node_id: NodeId,
    network: NetworkType,
    c1: Seq<AddrPayload>,
    c2: Seq<AddrPayload>,
)
    requires
        FingerprintAnalyzer::record_post(f1, g1, node_id, network, c1),
        FingerprintAnalyzer::record_post(f2, g2, node_id, network, c2),
        c1.to_multiset() == c2.to_multiset(),
    ensures
        g1.recorded(network)[node_id] == g2.recorded(network)[node_id],
        (forall|net: NetworkType| #[trigger] f1.recorded(net) == f2.recorded(net)) ==> forall|net: NetworkType|
            #[trigger] g1.recorded(net) == g2.recorded(net),
{
    lemma_map_same_entries(c1, c2);
    lemma_record_order_free(c1, c2, g1.recorded(network)[node_id], g2.recorded(network)[node_id]);
    if forall|net: NetworkType| #[trigger] f1.recorded(net) == f2.recorded(net) {
        assert forall|net: NetworkType| #[trigger] g1.recorded(net) == g2.recorded(net) by {
            if net == network {
                assert(f1.recorded(net) == f2.recorded(net));
                assert(g1.recorded(net) =~= g2.recorded(net));
            } else {
                assert(f1.recorded(net) == f2.recorded(net));
            }
        }
    }
}

pub struct FingerprintAnalyzer {
    clearnet: HashMap<NodeId, Vec<(u128, u64)>>,
    onion: HashMap<NodeId, Vec<(u128, u64)>>,
}

impl FingerprintAnalyzer {
    /// The recorded pairs of each node on a network.
    pub closed spec fn recorded(&self, network: NetworkType) -> Map<NodeId, Seq<(u128, u64)>> {
        let m = if network == NetworkType::Clearnet {
            self.clearnet@
        } else {
            self.onion@
        };
        Map::new(|n: NodeId| m.contains_key(n), |n: NodeId| m[n]@)
    }

    /// Every recorded list is sorted.
    pub closed spec fn wf(&self) -> bool {
        &&& forall|n: NodeId| #[trigger]
            self.clearnet@.contains_key(n) ==> sorted_pairs(self.clearnet@[n]@)
        &&& forall|n: NodeId| #[trigger]
            self.onion@.contains_key(n) ==> sorted_pairs(self.onion@[n]@)
    }

    pub fn new() -> (r: Self)
        ensures
            r.wf(),
            r.recorded(NetworkType::Clearnet) == Map::<NodeId, Seq<(u128, u64)>>::empty(),
            r.recorded(NetworkType::Onion) == Map::<NodeId, Seq<(u128, u64)>>::empty(),
    {
        let r = FingerprintAnalyzer { clearnet: HashMap::new(), onion: HashMap::new() };
        assert(r.recorded(NetworkType::Clearnet) =~= Map::<NodeId, Seq<(u128, u64)>>::empty());
        assert(r.recorded(NetworkType::Onion) =~= Map::<NodeId, Seq<(u128, u64)>>::empty());
        r
    }

    /// The analyzer after recording `cache` for `node_id` on `network`: that node's list
    /// on that network is the cache's pairs in order, and nothing else changed.
    pub open spec fn record_post(
        pre: FingerprintAnalyzer,
        post: FingerprintAnalyzer,
        node_id: NodeId,
        network: NetworkType,
        cache: Seq<AddrPayload>,
    ) -> bool {
        &&& post.wf()
        &&& post.recorded(network).dom() == pre.recorded(network).dom().insert(node_id)
        &&& sorted_pairs(post.recorded(network)[node_id])
        &&& post.recorded(network)[node_id].to_multiset() == cache.map_values(|p: AddrPayload| pair_of(p)).to_multiset()
        &&& forall|n: NodeId|
            n != node_id && #[trigger] pre.recorded(network).contains_key(n) ==> post.recorded(network)[n]
                == pre.recorded(network)[n]
        &&& forall|net: NetworkType| net != network ==> #[trigger] post.recorded(net) == pre.recorded(net)
    }

    /// Record a node's GETADDR cache for a given network, as sorted pairs.
    pub fn record(&mut self, node_id: NodeId, network: NetworkType, cache: &[AddrPayload])
        requires
            old(self).wf(),
        ensures
            FingerprintAnalyzer::record_post(*old(self), *final(self), node_id, network, cache@),
    {
        let mut pairs: Vec<(u128, u64)> = Vec::new();
        let mut i: usize = 0;
        while i < cache.len()
            invariant
                0 <= i <= cache.len(),
                pairs@ == cache@.take(i as int).map_values(|p: AddrPayload| pair_of(p)),
            decreases cache.len() - i,
        {
            let p = cache[i];
            pairs.push((p.address.key(), p.timestamp));
            proof {
                assert(cache@.take(i + 1) =~= cache@.take(i as int).push(p));
            }
            i = i + 1;
        }
        proof {
            assert(cache@.take(cache.len() as int) =~= cache@);
        }
        let ghost unsorted = pairs@;
        sort_pairs(&mut pairs);
        match network {
            NetworkType::Clearnet => {
                self.clearnet.insert(node_id, pairs);
            },
            NetworkType::Onion => {
                self.onion.insert(node_id, pairs);
            },
        }
        proof {
            assert(self.recorded(network).dom() =~= old(self).recorded(network).dom().insert(
                node_id,
            ));
            assert forall|net: NetworkType| net != network implies #[trigger] self.recorded(net)
                == old(self).recorded(net) by {
                assert(self.recorded(net) =~= old(self).recorded(net));
            }
        }
    }

    /// For each dual-stack node (one with both a clearnet and an onion cache), the number
    /// of clearnet pairs that also appear in the onion cache, and the size of the
    /// clearnet cache. Each such node appears exactly once.
    pub fn analyze_counts(&self) -> (r: Vec<(NodeId, usize, usize)>)
        requires
            self.wf(),
        ensures
            forall|i: int|
                0 <= i < r.len() ==> {
                    let (n, shared, total) = #[trigger] r@[i];
                    &&& self.recorded(NetworkType::Clearnet).contains_key(n)
                    &&& self.recorded(NetworkType::Onion).contains_key(n)
                    &&& shared == common_count(
                        self.recorded(NetworkType::Clearnet)[n],
                        self.recorded(NetworkType::Onion)[n],
                    )
                    &&& total == self.recorded(NetworkType::Clearnet)[n].len()
                },
            forall|n: NodeId|
                self.recorded(NetworkType::Clearnet).contains_key(n) && self.recorded(
                    NetworkType::Onion,
                ).contains_key(n) ==> exists|i: int| 0 <= i < r.len() && #[trigger] r@[i].0 == n,
            forall|i: int, j: int| 0 <= i < j < r.len() ==> #[trigger] r@[i].0 != #[trigger] r@[j].0,
    {
        let keys = map_keys(&self.clearnet);
        let mut r: Vec<(NodeId, usize, usize)> = Vec::new();
        let mut i: usize = 0;
        while i < keys.len()
            invariant
                self.wf(),
                keys@.to_set() == self.clearnet@.dom(),
                keys@.no_duplicates(),
                0 <= i <= keys.len(),
                forall|j: int|
                    0 <= j < r.len() ==> {
                        let (n, shared, total) = #[trigger] r@[j];
                        &&& self.recorded(NetworkType::Clearnet).contains_key(n)
                        &&& self.recorded(NetworkType::Onion).contains_key(n)
                        &&& shared == common_count(
                            self.recorded(NetworkType::Clearnet)[n],
                            self.recorded(NetworkType::Onion)[n],
                        )
                        &&& total == self.recorded(NetworkType::Clearnet)[n].len()
                        &&& keys@.take(i as int).contains(n)
                    },
                forall|k: int|
                    0 <= k < i && self.onion@.contains_key(keys@[k]) ==> exists|j: int|
                        0 <= j < r.len() && #[trigger] r@[j].0 == keys@[k],
                forall|j1: int, j2: int|
                    0 <= j1 < j2 < r.len() ==> #[trigger] r@[j1].0 != #[trigger] r@[j2].0,
            decreases keys.len() - i,
        {
            let n = keys[i];
            let ghost r_before = r@;
            proof {
                assert(keys@.contains(n));
                assert(keys@.take(i + 1) =~= keys@.take(i as int).push(n));
            }
            match self.clearnet.get(&n) {
                Some(c) => {
                    match self.onion.get(&n) {
                        Some(o) => {
                            let shared = overlap_count(c.as_slice(), o.as_slice());
                            proof {
                                assert(!keys@.take(i as int).contains(n));
                                assert forall|j: int| 0 <= j < r.len() implies #[trigger] r@[j].0
                                    != n by {
                                    assert(keys@.take(i as int).contains(r@[j].0));
                                }
                            }
                            r.push((n, shared, c.len()));
                        },
                        None => {},
                    }
                },
                None => {},
            }
            proof {
                assert(r@.len() >= r_before.len());
                assert(forall|j: int| 0 <= j < r_before.len() ==> r@[j] == r_before[j]);
                assert forall|k: int|
                    0 <= k < i + 1 && self.onion@.contains_key(keys@[k]) implies exists|j: int|
                        0 <= j < r.len() && #[trigger] r@[j].0 == keys@[k] by {
                    if k < i {
                        let j = choose|j: int| 0 <= j < r_before.len() && #[trigger] r_before[j].0 == keys@[k];
                        assert(r@[j].0 == keys@[k]);
                    } else {
                        assert(self.clearnet@.contains_key(n));
                        assert(r@[r.len() - 1].0 == n);
                    }
                }
                assert forall|j: int| 0 <= j < r.len() implies keys@.take(i + 1).contains(
                    #[trigger] r@[j].0,
                ) by {
                    if j < r.len() - 1 || !(r@[j].0 == n) {
                        assert(keys@.take(i as int).contains(r@[j].0));
                        let q = choose|q: int|
                            0 <= q < i && keys@.take(i as int)[q] == r@[j].0;
                        assert(keys@.take(i + 1)[q] == r@[j].0);
                    } else {
                        assert(keys@.take(i + 1)[i as int] == n);
                    }
                }
            }
            i = i + 1;
        }
        proof {
            assert forall|n: NodeId|
                self.recorded(NetworkType::Clearnet).contains_key(n) && self.recorded(
                    NetworkType::Onion,
                ).contains_key(n) implies exists|i: int| 0 <= i < r.len() && #[trigger] r@[i].0 == n by {
                assert(keys@.to_set().contains(n));
                let k = choose|k: int| 0 <= k < keys.len() && keys@[k] == n;
            }
        }
        r
    }
}

} // verus!
