//! The run of one split of a compaction task.

use crate::compactor::{
    CachePolicy, CompactionStatistics, Compactor, CompactorContext, CompressionAlgorithm,
    OutputTable, SstableBuilderOptions, TaskConfig, TaskConfigView, TaskProgress, bound_wf,
    compaction_of, compression_of, estimate_task_memory_capacity, input_uncompressed_size, least,
    carries_filter_keys, missing_table, sealed_after, share, tables_view,
    DEFAULT_RESTART_INTERVAL,
};
use crate::delete_range::{
    CompactionDeleteRanges, CompactionDeleteRangesBuilder, DeleteRangeTombstone,
    DeleteRangeTombstoneView, create_tombstones_to_represent_monotonic_deletes, represents,
    tombstones_of_events, tombstones_view,
};
use crate::error::{HummockError, HummockResult};
use crate::filter::CompactionFilter;
use crate::filter_key_extractor::FilterKeyExtractorImpl;
use crate::iterator::{
    ConcatSstableIterator, UnorderedMergeIteratorInner, bad_level, can_concat,
    first_missing_in_runs, level_runs, select_tables, task_runs,
};
use crate::key::{FullKey, FullKeyView};
use crate::key_range::KeyRange;
use crate::sstable::{EntryView, SstableStore, SstableView, lookup};
use crate::task::{
    CompactTask, InputLevelView, KeyRangeView, LevelType, SstableInfoView, infos_view,
};
use bytes::Bytes;
use std::sync::Arc;
use vstd::prelude::*;

verus! {

/// The run of split `split_index` of `compact_task`.
#[derive(Debug, PartialEq, Eq)]
pub struct CompactorRunner {
    pub compact_task: CompactTask,
    pub compactor: Compactor,
    pub sstable_store: Arc<SstableStore>,
    pub key_range: KeyRange,
    pub split_index: usize,
}

/// Whether `l` is the first level that is marked as disjoint and ordered, and is not.
pub open spec fn first_bad_level(levels: Seq<InputLevelView>, l: int) -> bool {
    0 <= l < levels.len() && bad_level(levels[l]) && forall|k: int|
        0 <= k < l ==> !bad_level(#[trigger] levels[k])
}

impl CompactorRunner {
    /// The run of split `split_index` of `task`.
    ///
    /// Its key range is that of the split, the right bound out. Tables are
    /// written without compression where the task asks for 0, with the fast
    /// compression for 1 and with the one of high ratio for any other number,
    /// and are closed at the estimated size of the task.
    pub fn new(split_index: usize, context: Arc<CompactorContext>, task: CompactTask) -> (r: Self)
        requires
            split_index < task.splits@.len(),
        ensures
            r.split_index == split_index,
            r.compact_task@ == task@,
            r.sstable_store == context.sstable_store,
            r.key_range@ == (KeyRangeView {
                left: task@.splits[split_index as int].left,
                right: task@.splits[split_index as int].right,
                right_exclusive: true,
            }),
            r.compactor.context == context,
            r.compactor.options == (SstableBuilderOptions {
                capacity: least(
                    task.target_file_size as int,
                    context.storage_opts.sstable_size_mb * 1048576,
                    input_uncompressed_size(task@.input_ssts),
                ) as u64,
                block_capacity: (context.storage_opts.block_size_kb * 1024) as u64,
                restart_interval: DEFAULT_RESTART_INTERVAL,
                compression_algorithm: compression_of(task.compression_algorithm),
            }),
            r.compactor.task_config@ == (TaskConfigView {
                key_range: r.key_range@,
                cache_policy: CachePolicy::NotFill,
                gc_delete_keys: task.gc_delete_keys,
                watermark: task.watermark,
                stats_target_table_ids: Some(task.existing_table_ids@.to_set()),
                split_by_table: task.split_by_state_table,
            }),
    {
        let mut options = SstableBuilderOptions::from_storage_opts(&context.storage_opts);
        options.compression_algorithm =
        if task.compression_algorithm == 0 {
            CompressionAlgorithm::Uncompressed
        } else if task.compression_algorithm == 1 {
            CompressionAlgorithm::Lz4
        } else {
            CompressionAlgorithm::Zstd
        };
        options.capacity = estimate_task_memory_capacity(&context, &task);

        let key_range = KeyRange {
            left: Bytes::copy_from_slice(task.splits[split_index].get_left()),
            right: Bytes::copy_from_slice(task.splits[split_index].get_right()),
            right_exclusive: true,
        };

        let compactor = Compactor::new(
            share(&context),
            options,
            TaskConfig {
                key_range: key_range.duplicate(),
                cache_policy: CachePolicy::NotFill,
                gc_delete_keys: task.gc_delete_keys,
                watermark: task.watermark,
                stats_target_table_ids: Some(
                    crate::filter::table_id_set(task.existing_table_ids.as_slice()),
                ),
                split_by_table: task.split_by_state_table,
            },
        );

        Self {
            compactor,
            sstable_store: share(&context.sstable_store),
            compact_task: task,
            key_range,
            split_index,
        }
    }

    /// The sorted runs that this split reads, one merge over all of them.
    ///
    /// A level of disjoint, ordered tables is read as one run of the tables
    /// that intersect the key range of the split; of any other level each
    /// table that intersects it is a run of its own. The runs stand level
    /// after level, and within a level table after table. A level that is
    /// marked as disjoint and ordered and is not is refused; the error names
    /// the first such level.
    pub fn build_sst_iter(&self) -> (r: HummockResult<UnorderedMergeIteratorInner>)
        ensures
            match r {
                Ok(it) => {
                    &&& forall|l: int|
                        0 <= l < self.compact_task@.input_ssts.len() ==> !bad_level(
                            #[trigger] self.compact_task@.input_ssts[l],
                        )
                    &&& it.tables() == task_runs(self.compact_task@.input_ssts, self.key_range@)
                    &&& forall|i: int|
                        0 <= i < it.runs@.len() ==> (#[trigger] it.runs@[i]).key_range@
                            == self.compactor.task_config.key_range@
                            && it.runs@[i].existing_table_ids@
                            == self.compact_task.existing_table_ids@
                },
                Err(e) => exists|l: int| #[trigger]
                    first_bad_level(self.compact_task@.input_ssts, l) && e
                        == HummockError::NonConcatLevel(self.compact_task@.input_ssts[l].level_idx),
            },
    {
        let ghost levels = self.compact_task@.input_ssts;
        let ghost range = self.key_range@;
        let mut table_iters: Vec<ConcatSstableIterator> = Vec::new();
        let mut l: usize = 0;
        proof {
            assert(run_tables(table_iters@) =~= task_runs(levels.take(0), range));
        }
        while l < self.compact_task.input_ssts.len()
            invariant
                l <= self.compact_task.input_ssts.len(),
                levels == self.compact_task@.input_ssts,
                range == self.key_range@,
                forall|k: int| 0 <= k < l ==> !bad_level(#[trigger] levels[k]),
                run_tables(table_iters@) == task_runs(levels.take(l as int), range),
                forall|i: int|
                    0 <= i < table_iters@.len() ==> (#[trigger] table_iters@[i]).key_range@
                        == self.compactor.task_config.key_range@
                        && table_iters@[i].existing_table_ids@
                        == self.compact_task.existing_table_ids@,
            decreases self.compact_task.input_ssts.len() - l,
        {
            let level = &self.compact_task.input_ssts[l];
            let ghost before = run_tables(table_iters@);
            proof {
                crate::seqs::lemma_take_step(levels, l as int);
                assert(levels[l as int] == level@);
            }
            if level.table_infos.len() == 0 {
                proof {
                    assert(before + level_runs(level@, range) =~= before);
                }
            } else if level.level_type == LevelType::Nonoverlapping {
                if !can_concat(&level.table_infos) {
                    proof {
                        assert(first_bad_level(levels, l as int));
                    }
                    return Err(HummockError::NonConcatLevel(level.level_idx));
                }
                let tables = select_tables(&level.table_infos, &self.key_range);
                table_iters.push(
                    ConcatSstableIterator::new(
                        crate::seqs::copy_slice(self.compact_task.existing_table_ids.as_slice()),
                        tables,
                        self.compactor.task_config.key_range.duplicate(),
                    ),
                );
                proof {
                    assert(run_tables(table_iters@) =~= before + level_runs(level@, range));
                }
            } else {
                let tables = select_tables(&level.table_infos, &self.key_range);
                let ghost chosen = infos_view(tables@);
                proof {
                    assert(before + chosen.take(0).map_values(|t: SstableInfoView| seq![t])
                        =~= before);
                }
                for table in it: tables
                    invariant
                        infos_view(it.seq()) == chosen,
                        run_tables(table_iters@) == before + chosen.take(it.index()).map_values(
                            |t: SstableInfoView| seq![t],
                        ),
                        forall|i: int|
                            0 <= i < table_iters@.len() ==> (#[trigger] table_iters@[i]).key_range@
                                == self.compactor.task_config.key_range@
                                && table_iters@[i].existing_table_ids@
                                == self.compact_task.existing_table_ids@,
                {
                    let ghost had = run_tables(table_iters@);
                    let ghost one = table@;
                    proof {
                        crate::seqs::lemma_take_step(chosen, it.index());
                        assert(chosen[it.index()] == one);
                    }
                    let single = vec![table];
                    proof {
                        assert(infos_view(single@) =~= seq![one]);
                    }
                    table_iters.push(
                        ConcatSstableIterator::new(
                            crate::seqs::copy_slice(
                                self.compact_task.existing_table_ids.as_slice(),
                            ),
                            single,
                            self.compactor.task_config.key_range.duplicate(),
                        ),
                    );
                    proof {
                        assert(run_tables(table_iters@) =~= had.push(seq![one]));
                        assert(chosen.take(it.index() + 1).map_values(
                            |t: SstableInfoView| seq![t],
                        ) =~= chosen.take(it.index()).map_values(
                            |t: SstableInfoView| seq![t],
                        ).push(seq![one]));
                        assert(had.push(seq![one]) =~= before + chosen.take(
                            it.index() + 1,
                        ).map_values(|t: SstableInfoView| seq![t]));
                    }
                }
                proof {
                    crate::seqs::lemma_take_all(chosen);
                }
            }
            l = l + 1;
        }
        proof {
            crate::seqs::lemma_take_all(levels);
        }
        let merged = UnorderedMergeIteratorInner::for_compactor(table_iters);
        proof {
            assert(merged.tables() =~= run_tables(merged.runs@));
        }
        Ok(merged)
    }
}

/// The tables of each run, by their views.
pub open spec fn run_tables(runs: Seq<ConcatSstableIterator>) -> Seq<Seq<SstableInfoView>> {
    runs.map_values(|r: ConcatSstableIterator| infos_view(r.tables@))
}


/// The tables of the levels, level after level.
pub open spec fn task_tables(levels: Seq<InputLevelView>) -> Seq<SstableInfoView>
    decreases levels.len(),
{
    if levels.len() == 0 {
        Seq::empty()
    } else {
        task_tables(levels.drop_last()) + levels.last().table_infos
    }
}

/// Whether `i` is the first of `infos` that the store does not hold.
pub open spec fn first_missing(store: Seq<SstableView>, infos: Seq<SstableInfoView>, i: int) -> bool {
    0 <= i < infos.len() && lookup(store, infos[i].id) is None && forall|k: int|
        0 <= k < i ==> lookup(store, (#[trigger] infos[k]).id) is Some
}

/// The test that keeps the tombstones whose start, at their sequence, the
/// filter does not drop.
pub open spec fn survives<F: CompactionFilter>(filter: F) -> spec_fn(
    DeleteRangeTombstoneView,
) -> bool {
    |t: DeleteRangeTombstoneView|
        !filter.rejects(FullKeyView { user_key: t.start_user_key, epoch: t.sequence })
}

/// The tombstones of the tables `infos` that the filter keeps, table after table.
pub open spec fn collected<F: CompactionFilter>(
    store: Seq<SstableView>,
    filter: F,
    infos: Seq<SstableInfoView>,
) -> Seq<DeleteRangeTombstoneView>
    decreases infos.len(),
{
    if infos.len() == 0 {
        Seq::empty()
    } else {
        let before = collected(store, filter, infos.drop_last());
        match lookup(store, infos.last().id) {
            Some(table) => before + tombstones_of_events(
                table.monotonic_tombstone_events,
                table.monotonic_tombstone_events.len() as int,
            ).filter(survives(filter)),
            None => before,
        }
    }
}

/// Those of `list` whose start, at their sequence, the filter does not drop.
fn retain_tombstones<F: CompactionFilter>(list: Vec<DeleteRangeTombstone>, filter: &mut F) -> (r:
    Vec<DeleteRangeTombstone>)
    ensures
        tombstones_view(r@) == tombstones_view(list@).filter(survives(*old(filter))),
        forall|k: FullKeyView| #[trigger] final(filter).rejects(k) == old(filter).rejects(k),
{
    let ghost all = tombstones_view(list@);
    let ghost keep = survives(*old(filter));
    let mut r: Vec<DeleteRangeTombstone> = Vec::new();
    proof {
        assert(all.take(0).filter(keep) =~= Seq::empty()) by {
            reveal(Seq::filter);
        }
        assert(tombstones_view(r@) =~= Seq::empty());
    }
    for tombstone in it: list
        invariant
            tombstones_view(it.seq()) == all,
            keep == survives(*old(filter)),
            forall|k: FullKeyView| #[trigger] filter.rejects(k) == old(filter).rejects(k),
            tombstones_view(r@) == all.take(it.index()).filter(keep),
    {
        proof {
            crate::seqs::lemma_take_step(all, it.index());
            all.take(it.index()).lemma_filter_push(all[it.index()], keep);
            assert(all[it.index()] == tombstone@);
        }
        let start = FullKey::from_user_key(tombstone.start_user_key.duplicate(), tombstone.sequence);
        if !filter.should_delete(&start) {
            let ghost before = tombstones_view(r@);
            r.push(tombstone);
            proof {
                assert(tombstones_view(r@) =~= before.push(all[it.index()]));
            }
        }
    }
    proof {
        crate::seqs::lemma_take_all(all);
    }
    r
}

impl CompactorRunner {
    /// The aggregator of the range tombstones of every table that the task
    /// reads, without those that the filter drops.
    ///
    /// A tombstone is dropped where the filter drops its start key at its
    /// sequence. The aggregator carries the task's `gc_delete_keys`. Where the
    /// store does not hold a table of the task, the error names the first
    /// such table.
    pub fn build_delete_range_iter<F: CompactionFilter>(
        compact_task: &CompactTask,
        sstable_store: &Arc<SstableStore>,
        filter: &mut F,
    ) -> (r: HummockResult<Arc<CompactionDeleteRanges>>)
        ensures
            forall|k: FullKeyView| #[trigger] final(filter).rejects(k) == old(filter).rejects(k),
            match r {
                Ok(aggregator) => {
                    &&& forall|i: int|
                        0 <= i < task_tables(compact_task@.input_ssts).len() ==> lookup(
                            sstable_store@,
                            (#[trigger] task_tables(compact_task@.input_ssts)[i]).id,
                        ) is Some
                    &&& aggregator.tombstones() == collected(
                        sstable_store@,
                        *old(filter),
                        task_tables(compact_task@.input_ssts),
                    )
                    &&& aggregator.gc_delete_keys() == compact_task.gc_delete_keys
                    &&& represents(aggregator.events(), aggregator.tombstones())
                },
                Err(e) => exists|i: int| #[trigger]
                    first_missing(sstable_store@, task_tables(compact_task@.input_ssts), i) && e
                        == HummockError::SstableNotFound(
                        task_tables(compact_task@.input_ssts)[i].id,
                    ),
            },
    {
        let ghost levels = compact_task@.input_ssts;
        let ghost store = sstable_store@;
        let ghost f0 = *old(filter);
        let mut builder = CompactionDeleteRangesBuilder::default();
        let mut l: usize = 0;
        while l < compact_task.input_ssts.len()
            invariant
                l <= compact_task.input_ssts.len(),
                levels == compact_task@.input_ssts,
                store == sstable_store@,
                f0 == *old(filter),
                forall|k: FullKeyView| #[trigger] filter.rejects(k) == f0.rejects(k),
                forall|i: int|
                    0 <= i < task_tables(levels.take(l as int)).len() ==> lookup(
                        store,
                        (#[trigger] task_tables(levels.take(l as int))[i]).id,
                    ) is Some,
                builder@ == collected(store, f0, task_tables(levels.take(l as int))),
            decreases compact_task.input_ssts.len() - l,
        {
            let level = &compact_task.input_ssts[l];
            let ghost base = task_tables(levels.take(l as int));
            let ghost infos = level@.table_infos;
            let mut t: usize = 0;
            proof {
                crate::seqs::lemma_take_step(levels, l as int);
                assert(base + infos.take(0) =~= base);
                lemma_task_tables_prefix(levels, l as int + 1);
            }
            while t < level.table_infos.len()
                invariant
                    t <= level.table_infos.len(),
                    0 <= l < levels.len(),
                    levels == compact_task@.input_ssts,
                    infos == level@.table_infos,
                    infos == levels[l as int].table_infos,
                    base == task_tables(levels.take(l as int)),
                    task_tables(levels.take(l + 1)) == base + infos,
                    base.len() + infos.len() <= task_tables(levels).len(),
                    task_tables(levels.take(l + 1)) == task_tables(levels).take(
                        (base.len() + infos.len()) as int,
                    ),
                    store == sstable_store@,
                    f0 == *old(filter),
                    forall|k: FullKeyView| #[trigger] filter.rejects(k) == f0.rejects(k),
                    forall|i: int|
                        0 <= i < (base + infos.take(t as int)).len() ==> lookup(
                            store,
                            (#[trigger] (base + infos.take(t as int))[i]).id,
                        ) is Some,
                    builder@ == collected(store, f0, base + infos.take(t as int)),
                decreases level.table_infos.len() - t,
            {
                let info = &level.table_infos[t];
                let ghost seen = base + infos.take(t as int);
                proof {
                    crate::seqs::lemma_take_step(infos, t as int);
                    assert(base + infos.take(t + 1) =~= seen.push(infos[t as int]));
                    assert(seen.push(infos[t as int]).drop_last() =~= seen);
                    assert(infos[t as int] == info@);
                }
                let table = match sstable_store.sstable(info) {
                    Ok(table) => table,
                    Err(e) => {
                        proof {
                            let all = task_tables(levels);
                            let level_end = base + infos;
                            let at = base.len() + t;
                            assert(level_end == all.take((base.len() + infos.len()) as int));
                            assert(level_end[at] == info@);
                            assert(all[at] == level_end[at]);
                            assert forall|k: int| 0 <= k < at implies lookup(
                                store,
                                (#[trigger] all[k]).id,
                            ) is Some by {
                                assert(all[k] == level_end[k]);
                                assert(level_end[k] == seen[k]);
                            }
                            assert(first_missing(store, all, at));
                        }
                        return Err(e);
                    },
                };
                let range_tombstone_list = create_tombstones_to_represent_monotonic_deletes(
                    table.monotonic_tombstone_events.as_slice(),
                );
                proof {
                    assert(survives(*filter) == survives(f0)) by {
                        assert(survives(*filter) =~= survives(f0));
                    }
                }
                let kept = retain_tombstones(range_tombstone_list, filter);
                builder.add_tombstone(kept);
                proof {
                    assert forall|i: int| 0 <= i < seen.len() + 1 implies lookup(
                        store,
                        (#[trigger] seen.push(infos[t as int])[i]).id,
                    ) is Some by {
                        if i < seen.len() {
                            assert(seen.push(infos[t as int])[i] == seen[i]);
                        }
                    }
                }
                t = t + 1;
            }
            proof {
                crate::seqs::lemma_take_all(infos);
            }
            l = l + 1;
        }
        proof {
            crate::seqs::lemma_take_all(levels);
        }
        let aggregator = builder.build_for_compaction(compact_task.gc_delete_keys);
        Ok(Arc::new(aggregator))
    }
}

/// The tables of the first `n` levels are the first of the tables of all levels.
proof fn lemma_task_tables_prefix(levels: Seq<InputLevelView>, n: int)
    requires
        0 <= n <= levels.len(),
    ensures
        task_tables(levels.take(n)).len() <= task_tables(levels).len(),
        task_tables(levels.take(n)) == task_tables(levels).take(
            task_tables(levels.take(n)).len() as int,
        ),
    decreases levels.len() - n,
{
    if n == levels.len() {
        crate::seqs::lemma_take_all(levels);
        crate::seqs::lemma_take_all(task_tables(levels));
    } else {
        lemma_task_tables_prefix(levels, n + 1);
        crate::seqs::lemma_take_step(levels, n);
        let a = task_tables(levels.take(n));
        let b = task_tables(levels.take(n + 1));
        assert(b == a + levels[n].table_infos);
        assert(a =~= b.take(a.len() as int));
        assert(b.take(a.len() as int) =~= task_tables(levels).take(a.len() as int));
    }
}


/// What a run gives, with the tables by their views.
pub open spec fn run_view(r: HummockResult<(usize, Vec<OutputTable>, CompactionStatistics)>) -> Result<
    (usize, Seq<Seq<EntryView>>, CompactionStatistics),
    HummockError,
> {
    match r {
        Ok((split_index, tables, stats)) => Ok((split_index, tables_view(tables@), stats)),
        Err(e) => Err(e),
    }
}

impl CompactorRunner {
    /// Whether `r` is what the run of this split gives with the filter
    /// `filter` and the range tombstones `ts`.
    ///
    /// The run is refused for the first level that is marked as disjoint and
    /// ordered and is not; else for a bound of its key range that is no key;
    /// else for the first table of its runs that the store lacks. Otherwise
    /// it gives its split index, the tables that the compaction of its runs
    /// writes, and the counts.
    pub open spec fn run_outcome<F: CompactionFilter>(
        &self,
        filter: F,
        ts: Seq<DeleteRangeTombstoneView>,
        drop_range_deleted: bool,
        r: Result<(usize, Seq<Seq<EntryView>>, CompactionStatistics), HummockError>,
    ) -> bool {
        let levels = self.compact_task@.input_ssts;
        let runs = task_runs(levels, self.key_range@);
        let store = self.sstable_store@;
        let config = self.compactor.task_config@;
        if exists|l: int| first_bad_level(levels, l) {
            exists|l: int| #[trigger]
                first_bad_level(levels, l) && r == Err::<
                    (usize, Seq<Seq<EntryView>>, CompactionStatistics),
                    HummockError,
                >(HummockError::NonConcatLevel(levels[l].level_idx))
        } else if !(bound_wf(config.key_range.left) && bound_wf(config.key_range.right)) {
            r == Err::<(usize, Seq<Seq<EntryView>>, CompactionStatistics), HummockError>(
                HummockError::InvalidKeyRange,
            )
        } else if missing_table(store, runs) {
            exists|q: int, t: int| #[trigger]
                first_missing_in_runs(store, runs, q, t) && r == Err::<
                    (usize, Seq<Seq<EntryView>>, CompactionStatistics),
                    HummockError,
                >(HummockError::SstableNotFound(runs[q][t].id))
        } else {
            let done = compaction_of(
                store,
                runs,
                config,
                self.compactor.options.capacity,
                filter,
                ts,
                drop_range_deleted,
            );
            r == Ok::<(usize, Seq<Seq<EntryView>>, CompactionStatistics), HummockError>(
                (self.split_index, done.0, done.1),
            )
        }
    }

    /// Runs the compaction of this split: reads the runs that
    /// `build_sst_iter` chooses and compacts them with `compaction_filter`
    /// and the range tombstones of `del_agg`. Returns the split index with
    /// the tables written and the counts, and counts every closed table in
    /// `task_progress`. Every table carries, entry by entry, the keys that
    /// `filter_key_extractor` takes from its entries.
    pub fn run<F: CompactionFilter>(
        &self,
        compaction_filter: F,
        filter_key_extractor: Arc<FilterKeyExtractorImpl>,
        del_agg: Arc<CompactionDeleteRanges>,
        task_progress: &mut TaskProgress,
    ) -> (r: HummockResult<(usize, Vec<OutputTable>, CompactionStatistics)>)
        ensures
            r matches Ok((_, tables, _)) ==> carries_filter_keys(*filter_key_extractor, tables@),
            self.run_outcome(
                compaction_filter,
                del_agg.tombstones(),
                del_agg.gc_delete_keys(),
                run_view(r),
            ),
            final(task_progress).num_ssts_uploaded == old(task_progress).num_ssts_uploaded,
            match r {
                Ok((_, tables, _)) => final(task_progress).num_ssts_sealed == sealed_after(
                    old(task_progress).num_ssts_sealed,
                    tables@.len() as int,
                ),
                Err(_) => *final(task_progress) == *old(task_progress),
            },
    {
        let ghost levels = self.compact_task@.input_ssts;
        let iter = match self.build_sst_iter() {
            Ok(iter) => iter,
            Err(e) => {
                return Err(e);
            },
        };
        proof {
            assert(!(exists|l: int| first_bad_level(levels, l)));
        }
        let ghost runs = iter.tables();
        match self.compactor.compact_key_range(
            iter,
            &self.sstable_store,
            compaction_filter,
            del_agg,
            filter_key_extractor,
            task_progress,
        ) {
            Ok((ssts, compaction_stat)) => Ok((self.split_index, ssts, compaction_stat)),
            Err(e) => {
                proof {
                    if e is SstableNotFound {
                        let (q, t) = choose|q: int, t: int| #[trigger]
                            first_missing_in_runs(self.sstable_store@, runs, q, t)
                                && e->SstableNotFound_0 == runs[q][t].id;
                        assert(first_missing_in_runs(self.sstable_store@, runs, q, t));
                        assert(missing_table(self.sstable_store@, runs));
                    }
                }
                Err(e)
            },
        }
    }
}

/// The same split, run twice on the same tables with the same filter and the
/// same range tombstones, gives the same result: the same tables with the
/// same entries and the same counts, or the same error.
pub proof fn lemma_run_is_deterministic<F: CompactionFilter>(
    runner: CompactorRunner,
    filter: F,
    ts: Seq<DeleteRangeTombstoneView>,
    drop_range_deleted: bool,
    first: Result<(usize, Seq<Seq<EntryView>>, CompactionStatistics), HummockError>,
    second: Result<(usize, Seq<Seq<EntryView>>, CompactionStatistics), HummockError>,
)
    requires
        runner.run_outcome(filter, ts, drop_range_deleted, first),
        runner.run_outcome(filter, ts, drop_range_deleted, second),
    ensures
        first == second,
{
    let levels = runner.compact_task@.input_ssts;
    let runs = task_runs(levels, runner.key_range@);
    let store = runner.sstable_store@;
    let config = runner.compactor.task_config@;
    if exists|l: int| first_bad_level(levels, l) {
        let a = choose|l: int| #[trigger]
            first_bad_level(levels, l) && first == Err::<
                (usize, Seq<Seq<EntryView>>, CompactionStatistics),
                HummockError,
            >(HummockError::NonConcatLevel(levels[l].level_idx));
        let b = choose|l: int| #[trigger]
            first_bad_level(levels, l) && second == Err::<
                (usize, Seq<Seq<EntryView>>, CompactionStatistics),
                HummockError,
            >(HummockError::NonConcatLevel(levels[l].level_idx));
        assert(a == b);
    } else if !(bound_wf(config.key_range.left) && bound_wf(config.key_range.right)) {
    } else if missing_table(store, runs) {
        let (q1, t1) = choose|q: int, t: int| #[trigger]
            first_missing_in_runs(store, runs, q, t) && first == Err::<
                (usize, Seq<Seq<EntryView>>, CompactionStatistics),
                HummockError,
            >(HummockError::SstableNotFound(runs[q][t].id));
        let (q2, t2) = choose|q: int, t: int| #[trigger]
            first_missing_in_runs(store, runs, q, t) && second == Err::<
                (usize, Seq<Seq<EntryView>>, CompactionStatistics),
                HummockError,
            >(HummockError::SstableNotFound(runs[q][t].id));
        assert(q1 == q2 && t1 == t2);
    }
}

} // verus!
