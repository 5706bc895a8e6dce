//! Small helpers for walking the keys of the hash maps used throughout the crate.
use std::collections::{BTreeMap, HashMap};

use vstd::prelude::*;

verus! {

broadcast use {vstd::std_specs::hash::group_hash_axioms, vstd::std_specs::btree::group_btree_axioms, vstd::laws_cmp::group_laws_cmp};

/// All keys of a map, each once, in the map's own iteration order.
pub fn map_keys<K: Copy + std::hash::Hash + Eq, V>(m: &HashMap<K, V>) -> (r: Vec<K>)
    requires
        vstd::std_specs::hash::obeys_key_model::<K>(),
    ensures
        r@.to_set() == m@.dom(),
        r@.no_duplicates(),
        r@.len() == m@.dom().len(),
{
    let mut r: Vec<K> = Vec::new();
    for k in it: m.keys()
        invariant
            r@ == it.seq().take(it.index()).map_values(|x: &K| *x),
            it.seq().unref().to_set() == m@.dom(),
            it.seq().no_duplicates(),
            it.seq().len() == m@.dom().len(),
            it.index() == it.seq().len() ==> r@ == it.seq().unref(),
    {
        r.push(*k);
        assert(r@ == it.seq().take(it.index() + 1).map_values(|x: &K| *x));
        assert(it.index() + 1 == it.seq().len() ==> r@ =~= it.seq().unref());
    }
    r
}

/// All keys of an ordered map, each once, in increasing order.
pub fn btree_keys<V>(m: &BTreeMap<u128, V>) -> (r: Vec<u128>)
    ensures
        r@.to_set() == m@.dom(),
        r@.no_duplicates(),
        r@.len() == m@.dom().len(),
{
    let mut r: Vec<u128> = Vec::new();
    for k in it: m.keys()
        invariant
            r@ == it.seq().take(it.index()).map_values(|x: &u128| *x),
            it.seq().unref().to_set() == m@.dom(),
            it.seq().no_duplicates(),
            it.seq().len() == m@.dom().len(),
            it.index() == it.seq().len() ==> r@ == it.seq().unref(),
    {
        r.push(*k);
        assert(r@ == it.seq().take(it.index() + 1).map_values(|x: &u128| *x));
        assert(it.index() + 1 == it.seq().len() ==> r@ =~= it.seq().unref());
    }
    r
}

} // verus!
