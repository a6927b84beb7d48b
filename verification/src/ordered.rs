//! Helpers for walking ordered maps.

use std::collections::BTreeMap;
use std::collections::BTreeSet;
use vstd::prelude::*;
use vstd::std_specs::btree::*;
use vstd::std_specs::cmp::OrdSpec;
use vstd::std_specs::iter::IteratorSpec;
use crate::seqs::lemma_take_all;

verus! {

broadcast use vstd::std_specs::btree::group_btree_axioms;

/// A sequence of keys that grows strictly.
pub open spec fn ascending_u64(s: Seq<u64>) -> bool {
    forall|i: int, j: int| 0 <= i < j < s.len() ==> s[i] < s[j]
}

/// A sequence of keys that grows strictly.
pub open spec fn ascending_u32(s: Seq<u32>) -> bool {
    forall|i: int, j: int| 0 <= i < j < s.len() ==> s[i] < s[j]
}

proof fn lemma_keys_ascending_u64(all: Seq<&u64>)
    requires
        increasing_seq(all),
    ensures
        ascending_u64(all.unref()),
{
    assert forall|i: int, j: int| 0 <= i < j < all.len() implies all.unref()[i] < all.unref()[j] by {
        axiom_increasing_seq_meaning(all);
        assert(OrdSpec::cmp_spec(&all[i], &all[j]) is Less);
    }
}

proof fn lemma_keys_ascending_u32(all: Seq<&u32>)
    requires
        increasing_seq(all),
    ensures
        ascending_u32(all.unref()),
{
    assert forall|i: int, j: int| 0 <= i < j < all.len() implies all.unref()[i] < all.unref()[j] by {
        axiom_increasing_seq_meaning(all);
        assert(OrdSpec::cmp_spec(&all[i], &all[j]) is Less);
    }
}

/// The keys of `m`, from the least to the greatest.
pub fn keys_u64<V>(m: &BTreeMap<u64, V>) -> (keys: Vec<u64>)
    ensures
        keys@.to_set() == m@.dom(),
        ascending_u64(keys@),
{
    let mut keys: Vec<u64> = Vec::new();
    for k in it: m.keys()
        invariant
            it.seq() == spec_keys_iter(m).remaining(),
            keys@ == it.seq().take(it.index()).unref(),
    {
        keys.push(*k);
    }
    proof {
        let all = spec_keys_iter(m).remaining();
        lemma_take_all(all);
        axiom_spec_keys_iter(m);
        lemma_keys_ascending_u64(all);
    }
    keys
}

/// The keys of `m`, from the least to the greatest.
pub fn keys_u32<V>(m: &BTreeMap<u32, V>) -> (keys: Vec<u32>)
    ensures
        keys@.to_set() == m@.dom(),
        ascending_u32(keys@),
{
    let mut keys: Vec<u32> = Vec::new();
    for k in it: m.keys()
        invariant
            it.seq() == spec_keys_iter(m).remaining(),
            keys@ == it.seq().take(it.index()).unref(),
    {
        keys.push(*k);
    }
    proof {
        let all = spec_keys_iter(m).remaining();
        lemma_take_all(all);
        axiom_spec_keys_iter(m);
        lemma_keys_ascending_u32(all);
    }
    keys
}

/// The members of `set`, from the least to the greatest.
pub fn members_u32(set: &BTreeSet<u32>) -> (members: Vec<u32>)
    ensures
        members@.to_set() == set@,
        ascending_u32(members@),
{
    let mut members: Vec<u32> = Vec::new();
    for k in it: set.iter()
        invariant
            it.seq() == spec_btree_keys_iter(set).remaining(),
            members@ == it.seq().take(it.index()).unref(),
    {
        members.push(*k);
    }
    proof {
        let all = spec_btree_keys_iter(set).remaining();
        lemma_take_all(all);
        axiom_spec_btree_keys_iter(set);
        lemma_keys_ascending_u32(all);
    }
    members
}

} // verus!
