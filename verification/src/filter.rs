//! Filters that tell a compaction which keys to drop outright.

use crate::key::{FullKey, FullKeyView};
use std::collections::HashSet;
use vstd::prelude::*;

verus! {

broadcast use vstd::std_specs::hash::group_hash_axioms;

/// A rule that says of each key whether the compaction drops it.
pub trait CompactionFilter {
    /// Whether the filter drops `key`.
    spec fn rejects(&self, key: FullKeyView) -> bool;

    /// Whether the compaction drops `key`. The answer is that of `rejects`,
    /// and asking does not change what the filter drops.
    fn should_delete(&mut self, key: &FullKey) -> (r: bool)
        ensures
            r == old(self).rejects(key@),
            forall|k: FullKeyView| #[trigger] final(self).rejects(k) == old(self).rejects(k),
    ;
}

/// The filter that drops nothing.
#[derive(Debug, Clone, Copy, PartialEq, Eq, Structural)]
pub struct DummyCompactionFilter {}

impl CompactionFilter for DummyCompactionFilter {
    open spec fn rejects(&self, key: FullKeyView) -> bool {
        false
    }

    fn should_delete(&mut self, key: &FullKey) -> (r: bool) {
        false
    }
}

/// The filter that drops the keys of the tables that no longer exist.
#[derive(Debug, PartialEq, Eq)]
pub struct StateCleanUpCompactionFilter {
    existing_table_ids: HashSet<u32>,
}

/// The set of the table ids `table_ids`.
pub fn table_id_set(table_ids: &[u32]) -> (set: HashSet<u32>)
    ensures
        set@ == table_ids@.to_set(),
{
    let mut set: HashSet<u32> = HashSet::new();
    let mut i: usize = 0;
    proof {
        assert(table_ids@.take(0).to_set() =~= Set::<u32>::empty());
    }
    while i < table_ids.len()
        invariant
            i <= table_ids.len(),
            set@ == table_ids@.take(i as int).to_set(),
        decreases table_ids.len() - i,
    {
        proof {
            crate::seqs::lemma_take_step(table_ids@, i as int);
            table_ids@.take(i as int).lemma_push_to_set_commute(table_ids@[i as int]);
        }
        set.insert(table_ids[i]);
        i = i + 1;
    }
    proof {
        crate::seqs::lemma_take_all(table_ids@);
    }
    set
}

impl StateCleanUpCompactionFilter {
    /// The ids of the tables that exist.
    pub closed spec fn existing(&self) -> Set<u32> {
        self.existing_table_ids@
    }

    /// The filter that keeps exactly the keys of the tables `table_id_set`.
    pub fn new(table_id_set: HashSet<u32>) -> (f: StateCleanUpCompactionFilter)
        ensures
            f.existing() == table_id_set@,
    {
        StateCleanUpCompactionFilter { existing_table_ids: table_id_set }
    }

    /// The filter that keeps exactly the keys of the tables `table_ids`.
    pub fn from_table_ids(table_ids: &[u32]) -> (f: StateCleanUpCompactionFilter)
        ensures
            f.existing() == table_ids@.to_set(),
    {
        let set = table_id_set(table_ids);
        StateCleanUpCompactionFilter { existing_table_ids: set }
    }
}

impl CompactionFilter for StateCleanUpCompactionFilter {
    open spec fn rejects(&self, key: FullKeyView) -> bool {
        !self.existing().contains(key.user_key.table_id)
    }

    fn should_delete(&mut self, key: &FullKey) -> (r: bool) {
        !self.existing_table_ids.contains(&key.user_key.table_id)
    }
}

} // verus!
