//! Tables as the compaction reads them, and the store that holds them.

use crate::delete_range::{MonotonicDeleteEvent, MonotonicDeleteEventView, events_view};
use crate::error::{HummockError, HummockResult};
use crate::key::{FullKey, FullKeyView};
use crate::task::SstableInfo;
use vstd::prelude::*;

verus! {

pub enum HummockValueView {
    Put(Seq<u8>),
    Delete,
}

/// What is written under a key: a value, or the mark that the key is deleted.
#[derive(Debug, PartialEq, Eq)]
pub enum HummockValue {
    Put(Vec<u8>),
    Delete,
}

impl View for HummockValue {
    type V = HummockValueView;

    open spec fn view(&self) -> HummockValueView {
        match self {
            HummockValue::Put(v) => HummockValueView::Put(v@),
            HummockValue::Delete => HummockValueView::Delete,
        }
    }
}

impl HummockValue {
    pub fn is_delete(&self) -> (r: bool)
        ensures
            r == (self@ is Delete),
    {
        match self {
            HummockValue::Put(_) => false,
            HummockValue::Delete => true,
        }
    }

    /// A copy of this value.
    pub fn duplicate(&self) -> (v: HummockValue)
        ensures
            v@ == self@,
    {
        match self {
            HummockValue::Put(v) => HummockValue::Put(crate::seqs::copy_slice(v.as_slice())),
            HummockValue::Delete => HummockValue::Delete,
        }
    }
}

pub struct EntryView {
    pub key: FullKeyView,
    pub value: HummockValueView,
}

/// One version of one key.
#[derive(Debug, PartialEq, Eq)]
pub struct Entry {
    pub key: FullKey,
    pub value: HummockValue,
}

impl View for Entry {
    type V = EntryView;

    open spec fn view(&self) -> EntryView {
        EntryView { key: self.key@, value: self.value@ }
    }
}

impl Entry {
    pub fn new(key: FullKey, value: HummockValue) -> (e: Entry)
        ensures
            e@ == (EntryView { key: key@, value: value@ }),
    {
        Entry { key, value }
    }

    /// A copy of this entry.
    pub fn duplicate(&self) -> (e: Entry)
        ensures
            e@ == self@,
    {
        Entry { key: self.key.duplicate(), value: self.value.duplicate() }
    }
}

/// The views of a list of entries.
pub open spec fn entries_view(e: Seq<Entry>) -> Seq<EntryView> {
    e.map_values(|x: Entry| x@)
}

pub struct SstableView {
    pub id: u64,
    pub entries: Seq<EntryView>,
    pub monotonic_tombstone_events: Seq<MonotonicDeleteEventView>,
}

/// A table that was read: its entries in key order and the events of its
/// range tombstones.
#[derive(Debug, PartialEq, Eq)]
pub struct Sstable {
    pub id: u64,
    pub entries: Vec<Entry>,
    pub monotonic_tombstone_events: Vec<MonotonicDeleteEvent>,
}

impl View for Sstable {
    type V = SstableView;

    open spec fn view(&self) -> SstableView {
        SstableView {
            id: self.id,
            entries: entries_view(self.entries@),
            monotonic_tombstone_events: events_view(self.monotonic_tombstone_events@),
        }
    }
}

/// The index of the first table with id `id` at or after `from`.
pub open spec fn find_table(tables: Seq<SstableView>, id: u64, from: int) -> Option<int>
    decreases tables.len() - from,
{
    if from < 0 || from >= tables.len() {
        None
    } else if tables[from].id == id {
        Some(from)
    } else {
        find_table(tables, id, from + 1)
    }
}

/// The tables that were read for a compaction.
#[derive(Debug, PartialEq, Eq)]
pub struct SstableStore {
    tables: Vec<Sstable>,
}

impl View for SstableStore {
    type V = Seq<SstableView>;

    closed spec fn view(&self) -> Seq<SstableView> {
        self.tables@.map_values(|t: Sstable| t@)
    }
}

/// The first table of the store with id `id`.
pub open spec fn lookup(store: Seq<SstableView>, id: u64) -> Option<SstableView> {
    match find_table(store, id, 0) {
        Some(i) => Some(store[i]),
        None => None,
    }
}

impl SstableStore {
    /// A store without tables.
    pub fn new() -> (s: SstableStore)
        ensures
            s@ == Seq::<SstableView>::empty(),
    {
        let s = SstableStore { tables: Vec::new() };
        proof {
            assert(s@ =~= Seq::<SstableView>::empty());
        }
        s
    }

    /// Adds a table after those already there.
    pub fn insert(&mut self, table: Sstable)
        ensures
            final(self)@ == old(self)@.push(table@),
    {
        self.tables.push(table);
        proof {
            assert(final(self)@ =~= old(self)@.push(table@));
        }
    }

    /// The table that `info` describes, or `SstableNotFound` with its id
    /// where the store does not hold it.
    pub fn sstable(&self, info: &SstableInfo) -> (r: HummockResult<&Sstable>)
        ensures
            match r {
                Ok(table) => lookup(self@, info.id) == Some(table@),
                Err(e) => lookup(self@, info.id) is None && e == HummockError::SstableNotFound(
                    info.id,
                ),
            },
    {
        let mut i: usize = 0;
        while i < self.tables.len()
            invariant
                i <= self.tables.len(),
                find_table(self@, info.id, 0) == find_table(self@, info.id, i as int),
            decreases self.tables.len() - i,
        {
            if self.tables[i].id == info.id {
                return Ok(&self.tables[i]);
            }
            i = i + 1;
        }
        Err(HummockError::SstableNotFound(info.id))
    }
}

} // verus!
