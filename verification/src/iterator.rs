//! The sorted runs that a compaction reads, and how they are chosen from the
//! input levels of a task.

use crate::error::{HummockError, HummockResult};
use crate::key::{full_key_le, full_key_lt};
use crate::key_range::KeyRange;
use crate::sstable::{Entry, EntryView, SstableStore, SstableView, lookup};
use crate::task::{
    InputLevelView, KeyRangeView, LevelType, SstableInfo, SstableInfoView, infos_view,
};
use vstd::prelude::*;

verus! {

/// The test that keeps the tables whose key range intersects `range`.
pub open spec fn intersects(range: KeyRangeView) -> spec_fn(SstableInfoView) -> bool {
    |t: SstableInfoView| range.overlaps(t.key_range)
}

/// The tables among `infos` whose key range intersects `range`, in their order.
pub open spec fn selected(infos: Seq<SstableInfoView>, range: KeyRangeView) -> Seq<
    SstableInfoView,
> {
    infos.filter(intersects(range))
}

/// Whether each table ends before the next one begins.
pub open spec fn can_concat_spec(infos: Seq<SstableInfoView>) -> bool {
    forall|i: int|
        1 <= i < infos.len() ==> !(#[trigger] infos[i]).key_range.start_bound_inf() && !infos[i
            - 1].key_range.reaches(infos[i].key_range.left)
}

/// The runs that one level gives for `range`: a level of disjoint, ordered
/// tables gives one run of the tables that intersect the range; any other
/// level gives one run for each table that intersects it. A level without
/// tables gives nothing.
pub open spec fn level_runs(level: InputLevelView, range: KeyRangeView) -> Seq<
    Seq<SstableInfoView>,
> {
    if level.table_infos.len() == 0 {
        Seq::empty()
    } else if level.level_type == LevelType::Nonoverlapping {
        seq![selected(level.table_infos, range)]
    } else {
        selected(level.table_infos, range).map_values(|t: SstableInfoView| seq![t])
    }
}

/// The runs that the levels give for `range`, level after level.
pub open spec fn task_runs(levels: Seq<InputLevelView>, range: KeyRangeView) -> Seq<
    Seq<SstableInfoView>,
>
    decreases levels.len(),
{
    if levels.len() == 0 {
        Seq::empty()
    } else {
        task_runs(levels.drop_last(), range) + level_runs(levels.last(), range)
    }
}

/// Whether a level is marked as disjoint and ordered, and is not.
pub open spec fn bad_level(level: InputLevelView) -> bool {
    level.table_infos.len() > 0 && level.level_type == LevelType::Nonoverlapping
        && !can_concat_spec(level.table_infos)
}

/// One sorted run: tables that follow one another without sharing keys,
/// read within a key range.
#[derive(Debug, PartialEq, Eq)]
pub struct ConcatSstableIterator {
    /// The ids of the state tables that exist, as the task names them.
    pub existing_table_ids: Vec<u32>,
    pub tables: Vec<SstableInfo>,
    pub key_range: KeyRange,
}

impl ConcatSstableIterator {
    pub fn new(existing_table_ids: Vec<u32>, tables: Vec<SstableInfo>, key_range: KeyRange) -> (it:
        ConcatSstableIterator)
        ensures
            it.existing_table_ids == existing_table_ids,
            it.tables == tables,
            it.key_range == key_range,
    {
        ConcatSstableIterator { existing_table_ids, tables, key_range }
    }
}

/// Several sorted runs that are read as one sorted stream. Where two runs
/// hold the same key, the run that stands first comes first.
#[derive(Debug, PartialEq, Eq)]
pub struct UnorderedMergeIteratorInner {
    pub runs: Vec<ConcatSstableIterator>,
}

impl UnorderedMergeIteratorInner {
    /// The tables of each run, by their views.
    pub open spec fn tables(&self) -> Seq<Seq<SstableInfoView>> {
        self.runs@.map_values(|r: ConcatSstableIterator| infos_view(r.tables@))
    }

    pub fn for_compactor(runs: Vec<ConcatSstableIterator>) -> (it: UnorderedMergeIteratorInner)
        ensures
            it.runs == runs,
    {
        UnorderedMergeIteratorInner { runs }
    }
}

/// Whether each table ends before the next one begins.
pub fn can_concat(infos: &Vec<SstableInfo>) -> (r: bool)
    ensures
        r == can_concat_spec(infos_view(infos@)),
{
    let mut i: usize = 1;
    while i < infos.len()
        invariant
            1 <= i,
            forall|j: int|
                1 <= j < i && j < infos.len() ==> !(#[trigger] infos_view(
                    infos@,
                )[j]).key_range.start_bound_inf() && !infos_view(infos@)[j - 1].key_range.reaches(
                    infos_view(infos@)[j].key_range.left,
                ),
        decreases infos.len() - i,
    {
        let before = KeyRange::from_raw(&infos[i - 1].key_range);
        let next_left = infos[i].key_range.get_left();
        if next_left.len() == 0 || before.reaches(next_left) {
            proof {
                let v = infos_view(infos@);
                assert(v[i as int].key_range.start_bound_inf() || v[i - 1].key_range.reaches(
                    v[i as int].key_range.left,
                ));
            }
            return false;
        }
        i = i + 1;
    }
    true
}

/// The tables among `infos` whose key range intersects `range`, in their order.
pub fn select_tables(infos: &Vec<SstableInfo>, range: &KeyRange) -> (r: Vec<SstableInfo>)
    ensures
        infos_view(r@) == selected(infos_view(infos@), range@),
{
    let ghost all = infos_view(infos@);
    let ghost keep = intersects(range@);
    let mut r: Vec<SstableInfo> = Vec::new();
    let mut i: usize = 0;
    proof {
        assert(all.take(0).filter(keep) =~= Seq::empty()) by {
            reveal(Seq::filter);
        }
        assert(infos_view(r@) =~= Seq::empty());
    }
    while i < infos.len()
        invariant
            i <= infos.len(),
            all == infos_view(infos@),
            keep == intersects(range@),
            infos_view(r@) == all.take(i as int).filter(keep),
        decreases infos.len() - i,
    {
        let table_range = KeyRange::from_raw(&infos[i].key_range);
        proof {
            crate::seqs::lemma_take_step(all, i as int);
            all.take(i as int).lemma_filter_push(all[i as int], keep);
        }
        if range.full_key_overlap(&table_range) {
            let ghost before = infos_view(r@);
            r.push(infos[i].duplicate());
            proof {
                assert(infos_view(r@) =~= before.push(all[i as int]));
            }
        }
        i = i + 1;
    }
    proof {
        crate::seqs::lemma_take_all(all);
    }
    r
}


/// The views of a list of borrowed entries.
pub open spec fn refs_view(e: Seq<&Entry>) -> Seq<EntryView> {
    e.map_values(|x: &Entry| x@)
}

/// The entries of the tables `tables`, table after table, as the store holds them.
pub open spec fn run_entries(store: Seq<SstableView>, tables: Seq<SstableInfoView>) -> Seq<
    EntryView,
>
    decreases tables.len(),
{
    if tables.len() == 0 {
        Seq::empty()
    } else {
        let before = run_entries(store, tables.drop_last());
        match lookup(store, tables.last().id) {
            Some(table) => before + table.entries,
            None => before,
        }
    }
}

/// The merge of two runs: at each step the lesser of the two first keys
/// leaves, and that of `a` where they are equal.
pub open spec fn merge_two(a: Seq<EntryView>, b: Seq<EntryView>) -> Seq<EntryView>
    decreases a.len() + b.len(),
{
    if a.len() == 0 {
        b
    } else if b.len() == 0 {
        a
    } else if full_key_lt(b[0].key, a[0].key) {
        seq![b[0]] + merge_two(a, b.skip(1))
    } else {
        seq![a[0]] + merge_two(a.skip(1), b)
    }
}

/// The merge of several runs: where runs hold the same key, the run that
/// stands first comes first.
pub open spec fn merge_runs(runs: Seq<Seq<EntryView>>) -> Seq<EntryView>
    decreases runs.len(),
{
    if runs.len() == 0 {
        Seq::empty()
    } else {
        merge_two(merge_runs(runs.drop_last()), runs.last())
    }
}

/// The entries of each run, as the store holds them.
pub open spec fn runs_entries(store: Seq<SstableView>, runs: Seq<Seq<SstableInfoView>>) -> Seq<
    Seq<EntryView>,
> {
    runs.map_values(|tables: Seq<SstableInfoView>| run_entries(store, tables))
}

/// Whether the store does not hold table `t` of run `r`, and holds every
/// table of the runs before `r` and every table of `r` before `t`.
pub open spec fn first_missing_in_runs(
    store: Seq<SstableView>,
    runs: Seq<Seq<SstableInfoView>>,
    r: int,
    t: int,
) -> bool {
    &&& 0 <= r < runs.len()
    &&& 0 <= t < runs[r].len()
    &&& lookup(store, runs[r][t].id) is None
    &&& forall|k: int| 0 <= k < t ==> lookup(store, (#[trigger] runs[r][k]).id) is Some
    &&& forall|q: int, k: int|
        0 <= q < r && 0 <= k < runs[q].len() ==> lookup(store, (#[trigger] runs[q][k]).id) is Some
}

/// The sequence is in key order.
pub open spec fn sorted_by_key(e: Seq<EntryView>) -> bool {
    forall|i: int, j: int|
        0 <= i < j < e.len() ==> full_key_le((#[trigger] e[i]).key, (#[trigger] e[j]).key)
}

/// The sequence is in key order and no two of its entries have one key.
pub open spec fn strictly_sorted_by_key(e: Seq<EntryView>) -> bool {
    forall|i: int, j: int|
        0 <= i < j < e.len() ==> full_key_lt((#[trigger] e[i]).key, (#[trigger] e[j]).key)
}

/// Every entry of the merge of two runs comes from one of them, and every
/// entry of either run is in the merge, as often as in the two together.
pub proof fn lemma_merge_two_is_permutation(a: Seq<EntryView>, b: Seq<EntryView>)
    ensures
        merge_two(a, b).to_multiset() == a.to_multiset().add(b.to_multiset()),
        merge_two(a, b).len() == a.len() + b.len(),
    decreases a.len() + b.len(),
{
    broadcast use vstd::seq_lib::group_to_multiset_ensures;

    if a.len() == 0 {
        assert(a.to_multiset() =~= vstd::multiset::Multiset::empty());
        assert(merge_two(a, b).to_multiset() =~= a.to_multiset().add(b.to_multiset()));
    } else if b.len() == 0 {
        assert(b.to_multiset() =~= vstd::multiset::Multiset::empty());
        assert(merge_two(a, b).to_multiset() =~= a.to_multiset().add(b.to_multiset()));
    } else if full_key_lt(b[0].key, a[0].key) {
        lemma_merge_two_is_permutation(a, b.skip(1));
        let rest = merge_two(a, b.skip(1));
        vstd::seq_lib::lemma_multiset_commutative(seq![b[0]], rest);
        vstd::seq_lib::lemma_multiset_commutative(seq![b[0]], b.skip(1));
        assert(seq![b[0]] + b.skip(1) =~= b);
        assert(merge_two(a, b).to_multiset() =~= a.to_multiset().add(b.to_multiset()));
    } else {
        lemma_merge_two_is_permutation(a.skip(1), b);
        let rest = merge_two(a.skip(1), b);
        vstd::seq_lib::lemma_multiset_commutative(seq![a[0]], rest);
        vstd::seq_lib::lemma_multiset_commutative(seq![a[0]], a.skip(1));
        assert(seq![a[0]] + a.skip(1) =~= a);
        assert(merge_two(a, b).to_multiset() =~= a.to_multiset().add(b.to_multiset()));
    }
}

/// The merge of two runs in key order is in key order.
pub proof fn lemma_merge_two_sorted(a: Seq<EntryView>, b: Seq<EntryView>)
    requires
        sorted_by_key(a),
        sorted_by_key(b),
    ensures
        sorted_by_key(merge_two(a, b)),
        merge_two(a, b).len() > 0 ==> (a.len() > 0 && merge_two(a, b)[0] == a[0]) || (b.len() > 0
            && merge_two(a, b)[0] == b[0]),
    decreases a.len() + b.len(),
{
    if a.len() == 0 || b.len() == 0 {
    } else if full_key_lt(b[0].key, a[0].key) {
        let rest = merge_two(a, b.skip(1));
        assert(sorted_by_key(b.skip(1))) by {
            assert forall|i: int, j: int| 0 <= i < j < b.skip(1).len() implies full_key_le(
                (#[trigger] b.skip(1)[i]).key,
                (#[trigger] b.skip(1)[j]).key,
            ) by {
                assert(b.skip(1)[i] == b[i + 1]);
                assert(b.skip(1)[j] == b[j + 1]);
            }
        }
        lemma_merge_two_sorted(a, b.skip(1));
        lemma_merge_two_is_permutation(a, b.skip(1));
        let m = merge_two(a, b);
        assert(m =~= seq![b[0]] + rest);
        assert forall|i: int| 0 <= i < a.len() implies full_key_le(b[0].key, (#[trigger] a[i]).key) by {
            crate::key::lemma_full_key_order(b[0].key, a[0].key, a[i].key);
            crate::key::lemma_full_key_order(a[0].key, a[0].key, a[0].key);
        }
        assert forall|i: int| 0 <= i < b.skip(1).len() implies full_key_le(
            b[0].key,
            (#[trigger] b.skip(1)[i]).key,
        ) by {
            assert(b.skip(1)[i] == b[i + 1]);
        }
        lemma_head_before_rest(b[0], rest, a, b.skip(1));
        assert forall|i: int, j: int| 0 <= i < j < m.len() implies full_key_le(
            (#[trigger] m[i]).key,
            (#[trigger] m[j]).key,
        ) by {
            assert(m[j] == rest[j - 1]);
            if i > 0 {
                assert(m[i] == rest[i - 1]);
            }
        }
    } else {
        let rest = merge_two(a.skip(1), b);
        assert(sorted_by_key(a.skip(1))) by {
            assert forall|i: int, j: int| 0 <= i < j < a.skip(1).len() implies full_key_le(
                (#[trigger] a.skip(1)[i]).key,
                (#[trigger] a.skip(1)[j]).key,
            ) by {
                assert(a.skip(1)[i] == a[i + 1]);
                assert(a.skip(1)[j] == a[j + 1]);
            }
        }
        lemma_merge_two_sorted(a.skip(1), b);
        lemma_merge_two_is_permutation(a.skip(1), b);
        let m = merge_two(a, b);
        assert(m =~= seq![a[0]] + rest);
        assert forall|i: int| 0 <= i < b.len() implies full_key_le(a[0].key, (#[trigger] b[i]).key) by {
            crate::key::lemma_full_key_order(a[0].key, b[0].key, b[i].key);
            crate::key::lemma_full_key_order(b[0].key, b[0].key, b[0].key);
        }
        assert forall|i: int| 0 <= i < a.skip(1).len() implies full_key_le(
            a[0].key,
            (#[trigger] a.skip(1)[i]).key,
        ) by {
            assert(a.skip(1)[i] == a[i + 1]);
        }
        lemma_head_before_rest(a[0], rest, a.skip(1), b);
        assert forall|i: int, j: int| 0 <= i < j < m.len() implies full_key_le(
            (#[trigger] m[i]).key,
            (#[trigger] m[j]).key,
        ) by {
            assert(m[j] == rest[j - 1]);
            if i > 0 {
                assert(m[i] == rest[i - 1]);
            }
        }
    }
}

/// An entry that is not after any entry of two runs is not after any entry
/// of a sequence made of their entries.
proof fn lemma_head_before_rest(
    head: EntryView,
    rest: Seq<EntryView>,
    a: Seq<EntryView>,
    b: Seq<EntryView>,
)
    requires
        rest.to_multiset() == a.to_multiset().add(b.to_multiset()),
        forall|i: int| 0 <= i < a.len() ==> full_key_le(head.key, (#[trigger] a[i]).key),
        forall|i: int| 0 <= i < b.len() ==> full_key_le(head.key, (#[trigger] b[i]).key),
    ensures
        forall|i: int| 0 <= i < rest.len() ==> full_key_le(head.key, (#[trigger] rest[i]).key),
{
    broadcast use vstd::seq_lib::group_to_multiset_ensures;

    assert forall|i: int| 0 <= i < rest.len() implies full_key_le(
        head.key,
        (#[trigger] rest[i]).key,
    ) by {
        let e = rest[i];
        assert(rest.contains(e));
        assert(rest.to_multiset().count(e) > 0);
        if a.to_multiset().count(e) > 0 {
            assert(a.contains(e));
            let k = choose|k: int| 0 <= k < a.len() && a[k] == e;
            assert(full_key_le(head.key, a[k].key));
        } else {
            assert(b.to_multiset().count(e) > 0);
            assert(b.contains(e));
            let k = choose|k: int| 0 <= k < b.len() && b[k] == e;
            assert(full_key_le(head.key, b[k].key));
        }
    }
}


/// The merge of runs in key order is in key order, and holds the entries of
/// the runs, each as often as the runs together.
pub proof fn lemma_merge_runs_sorted(runs: Seq<Seq<EntryView>>)
    requires
        forall|r: int| 0 <= r < runs.len() ==> sorted_by_key(#[trigger] runs[r]),
    ensures
        sorted_by_key(merge_runs(runs)),
        merge_runs(runs).to_multiset() == runs.flatten().to_multiset(),
    decreases runs.len(),
{
    broadcast use vstd::seq_lib::group_to_multiset_ensures;

    if runs.len() == 0 {
        assert(runs.flatten() =~= Seq::<EntryView>::empty());
    } else {
        let before = runs.drop_last();
        assert forall|r: int| 0 <= r < before.len() implies sorted_by_key(#[trigger] before[r]) by {
            assert(before[r] == runs[r]);
        }
        lemma_merge_runs_sorted(before);
        lemma_merge_two_sorted(merge_runs(before), runs.last());
        lemma_merge_two_is_permutation(merge_runs(before), runs.last());
        before.lemma_flatten_push(runs.last());
        assert(before.push(runs.last()) =~= runs);
        vstd::seq_lib::lemma_multiset_commutative(before.flatten(), runs.last());
    }
}

/// The entries of the tables `tables`, table after table, borrowed from the
/// store; where the store does not hold one of them, the index of the first
/// such table.
pub fn collect_run<'a>(store: &'a SstableStore, tables: &Vec<SstableInfo>) -> (r: Result<
    Vec<&'a Entry>,
    usize,
>)
    ensures
        match r {
            Ok(entries) => refs_view(entries@) == run_entries(store@, infos_view(tables@))
                && forall|k: int|
                0 <= k < tables@.len() ==> lookup(store@, (#[trigger] infos_view(tables@)[k]).id) is Some,
            Err(t) => t < tables@.len() && lookup(store@, infos_view(tables@)[t as int].id) is None
                && forall|k: int|
                0 <= k < t ==> lookup(store@, (#[trigger] infos_view(tables@)[k]).id) is Some,
        },
{
    let ghost infos = infos_view(tables@);
    let mut entries: Vec<&'a Entry> = Vec::new();
    let mut t: usize = 0;
    proof {
        assert(refs_view(entries@) =~= run_entries(store@, infos.take(0)));
    }
    while t < tables.len()
        invariant
            t <= tables.len(),
            infos == infos_view(tables@),
            refs_view(entries@) == run_entries(store@, infos.take(t as int)),
            forall|k: int| 0 <= k < t ==> lookup(store@, (#[trigger] infos[k]).id) is Some,
        decreases tables.len() - t,
    {
        proof {
            crate::seqs::lemma_take_step(infos, t as int);
            assert(infos[t as int] == tables@[t as int]@);
        }
        let table = match store.sstable(&tables[t]) {
            Ok(table) => table,
            Err(_) => {
                return Err(t);
            },
        };
        let ghost base = refs_view(entries@);
        let ghost more = table@.entries;
        let mut i: usize = 0;
        proof {
            assert(base + more.take(0) =~= base);
        }
        while i < table.entries.len()
            invariant
                i <= table.entries.len(),
                more == table@.entries,
                refs_view(entries@) == base + more.take(i as int),
            decreases table.entries.len() - i,
        {
            let ghost had = refs_view(entries@);
            entries.push(&table.entries[i]);
            proof {
                crate::seqs::lemma_take_step(more, i as int);
                assert(refs_view(entries@) =~= had.push(more[i as int]));
                assert(had.push(more[i as int]) =~= base + more.take(i + 1));
            }
            i = i + 1;
        }
        proof {
            crate::seqs::lemma_take_all(more);
        }
        t = t + 1;
    }
    proof {
        crate::seqs::lemma_take_all(infos);
    }
    Ok(entries)
}

/// Merges two runs: at each step the lesser of the two first keys leaves,
/// and that of `a` where they are equal.
pub fn merge_entries<'a>(a: &Vec<&'a Entry>, b: &Vec<&'a Entry>) -> (m: Vec<&'a Entry>)
    ensures
        refs_view(m@) == merge_two(refs_view(a@), refs_view(b@)),
{
    let ghost av = refs_view(a@);
    let ghost bv = refs_view(b@);
    let mut m: Vec<&'a Entry> = Vec::new();
    let mut i: usize = 0;
    let mut j: usize = 0;
    proof {
        assert(av.skip(0) =~= av);
        assert(bv.skip(0) =~= bv);
        assert(refs_view(m@) + merge_two(av, bv) =~= merge_two(av, bv));
    }
    while i < a.len() || j < b.len()
        invariant
            i <= a.len(),
            j <= b.len(),
            av == refs_view(a@),
            bv == refs_view(b@),
            merge_two(av, bv) == refs_view(m@) + merge_two(av.skip(i as int), bv.skip(j as int)),
        decreases (a.len() - i) + (b.len() - j),
    {
        let ghost had = refs_view(m@);
        let ghost ra = av.skip(i as int);
        let ghost rb = bv.skip(j as int);
        let take_b = if i >= a.len() {
            true
        } else if j >= b.len() {
            false
        } else {
            b[j].key.less(&a[i].key)
        };
        if take_b {
            m.push(b[j]);
            proof {
                assert(rb[0] == bv[j as int]);
                assert(rb.skip(1) =~= bv.skip(j + 1));
                assert(refs_view(m@) =~= had.push(rb[0]));
                if i >= a.len() {
                    assert(merge_two(ra, rb) == rb);
                    assert(merge_two(ra, rb.skip(1)) == rb.skip(1));
                    assert(rb =~= seq![rb[0]] + rb.skip(1));
                }
                assert(had + (seq![rb[0]] + merge_two(ra, rb.skip(1))) =~= had.push(rb[0])
                    + merge_two(ra, rb.skip(1)));
            }
            j = j + 1;
        } else {
            m.push(a[i]);
            proof {
                assert(ra[0] == av[i as int]);
                assert(ra.skip(1) =~= av.skip(i + 1));
                assert(refs_view(m@) =~= had.push(ra[0]));
                if j >= b.len() {
                    assert(merge_two(ra, rb) == ra);
                    assert(ra =~= seq![ra[0]] + ra.skip(1));
                    lemma_merge_with_nothing(ra.skip(1));
                    assert(rb =~= Seq::<EntryView>::empty());
                }
                assert(had + (seq![ra[0]] + merge_two(ra.skip(1), rb)) =~= had.push(ra[0])
                    + merge_two(ra.skip(1), rb));
            }
            i = i + 1;
        }
    }
    proof {
        assert(merge_two(av.skip(i as int), bv.skip(j as int)) =~= Seq::<EntryView>::empty());
        assert(refs_view(m@) + Seq::<EntryView>::empty() =~= refs_view(m@));
    }
    m
}

/// Merging a run with an empty run gives the run.
pub proof fn lemma_merge_with_nothing(a: Seq<EntryView>)
    ensures
        merge_two(a, Seq::empty()) == a,
        merge_two(Seq::empty(), a) == a,
{
}

impl UnorderedMergeIteratorInner {
    /// The entries of all runs as one stream, borrowed from the store: the
    /// merge of the runs. Where the store does not hold a table, the error
    /// names the first such table, by run and by place in the run.
    pub fn entries<'a>(&self, store: &'a SstableStore) -> (r: HummockResult<Vec<&'a Entry>>)
        ensures
            match r {
                Ok(entries) => {
                    &&& refs_view(entries@) == merge_runs(runs_entries(store@, self.tables()))
                    &&& forall|q: int, k: int|
                        0 <= q < self.tables().len() && 0 <= k < self.tables()[q].len() ==> lookup(
                            store@,
                            (#[trigger] self.tables()[q][k]).id,
                        ) is Some
                },
                Err(e) => exists|q: int, t: int| #[trigger]
                    first_missing_in_runs(store@, self.tables(), q, t) && e
                        == HummockError::SstableNotFound(self.tables()[q][t].id),
            },
    {
        let ghost runs = self.tables();
        let ghost all = runs_entries(store@, runs);
        let mut merged: Vec<&'a Entry> = Vec::new();
        let mut q: usize = 0;
        proof {
            assert(refs_view(merged@) =~= merge_runs(all.take(0)));
        }
        while q < self.runs.len()
            invariant
                q <= self.runs.len(),
                runs == self.tables(),
                all == runs_entries(store@, runs),
                refs_view(merged@) == merge_runs(all.take(q as int)),
                forall|p: int, k: int|
                    0 <= p < q && 0 <= k < runs[p].len() ==> lookup(
                        store@,
                        (#[trigger] runs[p][k]).id,
                    ) is Some,
            decreases self.runs.len() - q,
        {
            proof {
                crate::seqs::lemma_take_step(all, q as int);
                assert(runs[q as int] == infos_view(self.runs@[q as int].tables@));
            }
            let run = match collect_run(store, &self.runs[q].tables) {
                Ok(run) => run,
                Err(t) => {
                    proof {
                        assert(first_missing_in_runs(store@, runs, q as int, t as int));
                    }
                    return Err(HummockError::SstableNotFound(self.runs[q].tables[t].id));
                },
            };
            merged = merge_entries(&merged, &run);
            q = q + 1;
        }
        proof {
            crate::seqs::lemma_take_all(all);
        }
        Ok(merged)
    }
}


/// A task with one level of disjoint, ordered tables reads exactly the
/// entries of the tables that intersect the range, table after table.
pub proof fn lemma_non_overlapping_level_is_concatenation(
    store: Seq<SstableView>,
    level: InputLevelView,
    range: KeyRangeView,
)
    requires
        level.level_type == LevelType::Nonoverlapping,
        level.table_infos.len() > 0,
    ensures
        task_runs(seq![level], range) == seq![selected(level.table_infos, range)],
        merge_runs(runs_entries(store, task_runs(seq![level], range))) == run_entries(
            store,
            selected(level.table_infos, range),
        ),
{
    let levels = seq![level];
    assert(levels.drop_last() =~= Seq::<InputLevelView>::empty());
    assert(task_runs(levels.drop_last(), range) =~= Seq::<Seq<SstableInfoView>>::empty());
    assert(task_runs(levels, range) =~= seq![selected(level.table_infos, range)]);
    let runs = runs_entries(store, task_runs(levels, range));
    let only = run_entries(store, selected(level.table_infos, range));
    assert(runs =~= seq![only]);
    assert(runs.drop_last() =~= Seq::<Seq<EntryView>>::empty());
    assert(merge_runs(runs.drop_last()) =~= Seq::<EntryView>::empty());
    lemma_merge_with_nothing(only);
}

/// A table is among the selected ones exactly where it is among the tables
/// and its key range intersects the range.
pub proof fn lemma_selected_are_those_that_intersect(
    infos: Seq<SstableInfoView>,
    range: KeyRangeView,
    table: SstableInfoView,
)
    ensures
        selected(infos, range).contains(table) == (infos.contains(table) && range.overlaps(
            table.key_range,
        )),
{
    if selected(infos, range).contains(table) {
        let i = choose|i: int|
            0 <= i < selected(infos, range).len() && selected(infos, range)[i] == table;
        infos.lemma_filter_pred(intersects(range), i);
        infos.lemma_filter_contains_rev(intersects(range), table);
    }
    if infos.contains(table) && range.overlaps(table.key_range) {
        let k = choose|k: int| 0 <= k < infos.len() && infos[k] == table;
        infos.lemma_filter_contains(intersects(range), k);
    }
}

} // verus!
