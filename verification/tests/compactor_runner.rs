use hummock::compactor::{
    split_into_tables, CachePolicy, CompactionStatistics, CompactorContext, CompressionAlgorithm,
    OutputTable, SstableBuilderOptions, StorageOpts, TaskProgress,
};
use hummock::delete_range::{create_monotonic_events, DeleteRangeTombstone, MonotonicDeleteEvent};
use hummock::error::HummockError;
use hummock::filter::{CompactionFilter, DummyCompactionFilter, StateCleanUpCompactionFilter};
use hummock::filter_key_extractor::FilterKeyExtractorImpl;
use hummock::key::{FullKey, FullKeyView, UserKey};
use hummock::runner::CompactorRunner;
use hummock::sstable::{Entry, HummockValue, Sstable, SstableStore};
use hummock::task::{CompactTask, InputLevel, LevelType, RawKeyRange, SstableInfo};
use std::collections::HashSet;
use std::sync::Arc;

fn put(table_id: u32, key: &[u8], epoch: u64, value: &[u8]) -> Entry {
    Entry::new(FullKey::new(table_id, key.to_vec(), epoch), HummockValue::Put(value.to_vec()))
}

fn delete(table_id: u32, key: &[u8], epoch: u64) -> Entry {
    Entry::new(FullKey::new(table_id, key.to_vec(), epoch), HummockValue::Delete)
}

fn encoded(table_id: u32, key: &[u8], epoch: u64) -> Vec<u8> {
    FullKey::new(table_id, key.to_vec(), epoch).encode()
}

/// A table and its descriptor; the key range goes from the first key to the last, both in.
fn table(id: u64, entries: Vec<Entry>, events: Vec<MonotonicDeleteEvent>) -> (Sstable, SstableInfo) {
    let (left, right) = match (entries.first(), entries.last()) {
        (Some(first), Some(last)) => (first.key.encode(), last.key.encode()),
        _ => (encoded(0, b"", u64::MAX), encoded(u32::MAX, b"", 0)),
    };
    let info = SstableInfo {
        id,
        key_range: RawKeyRange::new(left, right, false),
        file_size: 1000,
        uncompressed_file_size: 1000,
    };
    (Sstable { id, entries, monotonic_tombstone_events: events }, info)
}

fn context(store: SstableStore) -> Arc<CompactorContext> {
    Arc::new(CompactorContext {
        storage_opts: Arc::new(StorageOpts { sstable_size_mb: 1, block_size_kb: 64 }),
        sstable_store: Arc::new(store),
    })
}

fn whole_range() -> RawKeyRange {
    RawKeyRange::new(vec![], vec![], false)
}

fn task(levels: Vec<InputLevel>, splits: Vec<RawKeyRange>) -> CompactTask {
    CompactTask {
        task_id: 1,
        compaction_group_id: 2,
        input_ssts: levels,
        splits,
        watermark: 0,
        target_file_size: 1 << 30,
        existing_table_ids: vec![1, 2],
        ..Default::default()
    }
}

fn entries_of(tables: &[OutputTable]) -> Vec<Vec<Entry>> {
    tables.iter().map(|t| t.entries.iter().map(|e| e.duplicate()).collect()).collect()
}

fn run_with_dummy(
    runner: &CompactorRunner,
    task: &CompactTask,
    store: &Arc<SstableStore>,
) -> Result<(usize, Vec<OutputTable>, CompactionStatistics), HummockError> {
    let mut filter = DummyCompactionFilter {};
    let del_agg = CompactorRunner::build_delete_range_iter(task, store, &mut filter)?;
    let mut progress = TaskProgress { num_ssts_sealed: 0, num_ssts_uploaded: 0 };
    runner.run(filter, Arc::new(FilterKeyExtractorImpl::FullKey), del_agg, &mut progress)
}

#[test]
fn test_delete_range_aggregator_with_filter() {
    let mut sstable_store = SstableStore::new();
    let range_tombstones = vec![
        DeleteRangeTombstone::new(1, b"abc".to_vec(), b"cde".to_vec(), 1),
        DeleteRangeTombstone::new(2, b"abc".to_vec(), b"def".to_vec(), 1),
    ];
    let (sstable, sstable_info) = table(1, vec![], create_monotonic_events(&range_tombstones));
    sstable_store.insert(sstable);
    let sstable_store = Arc::new(sstable_store);
    let compact_task = CompactTask {
        input_ssts: vec![InputLevel {
            level_idx: 0,
            level_type: LevelType::Overlapping,
            table_infos: vec![sstable_info],
        }],
        existing_table_ids: vec![2],
        ..Default::default()
    };
    let mut state_clean_up_filter = StateCleanUpCompactionFilter::new(HashSet::from_iter(
        compact_task.existing_table_ids.clone(),
    ));
    let collector = CompactorRunner::build_delete_range_iter(
        &compact_task,
        &sstable_store,
        &mut state_clean_up_filter,
    )
    .unwrap();
    let ret = collector
        .get_tombstone_between(&UserKey::new(0, vec![]), &UserKey::new(0, vec![]));
    assert_eq!(ret, create_monotonic_events(&vec![range_tombstones[1].duplicate()]));
    assert_eq!(
        ret,
        vec![
            MonotonicDeleteEvent::new(UserKey::new(2, b"abc".to_vec()), 1),
            MonotonicDeleteEvent::new(UserKey::new(2, b"def".to_vec()), u64::MAX),
        ]
    );
}

#[test]
fn test_delete_range_iter_keeps_all_without_filter() {
    let mut sstable_store = SstableStore::new();
    let first = vec![DeleteRangeTombstone::new(1, b"abc".to_vec(), b"cde".to_vec(), 1)];
    let second = vec![DeleteRangeTombstone::new(2, b"abc".to_vec(), b"def".to_vec(), 3)];
    let (t1, i1) = table(1, vec![], create_monotonic_events(&first));
    let (t2, i2) = table(2, vec![], create_monotonic_events(&second));
    sstable_store.insert(t1);
    sstable_store.insert(t2);
    let sstable_store = Arc::new(sstable_store);
    let compact_task = task(
        vec![
            InputLevel { level_idx: 0, level_type: LevelType::Overlapping, table_infos: vec![i1] },
            InputLevel { level_idx: 1, level_type: LevelType::Nonoverlapping, table_infos: vec![] },
            InputLevel { level_idx: 2, level_type: LevelType::Nonoverlapping, table_infos: vec![i2] },
        ],
        vec![whole_range()],
    );
    let mut filter = DummyCompactionFilter {};
    let collector =
        CompactorRunner::build_delete_range_iter(&compact_task, &sstable_store, &mut filter).unwrap();
    assert!(!collector.may_drop());
    assert_eq!(collector.earliest_delete_which_can_see_key(&UserKey::new(1, b"b".to_vec()), 0), 1);
    assert_eq!(collector.earliest_delete_which_can_see_key(&UserKey::new(2, b"b".to_vec()), 0), 3);
    assert_eq!(
        collector.earliest_delete_which_can_see_key(&UserKey::new(2, b"b".to_vec()), 4),
        u64::MAX
    );
    assert_eq!(
        collector.get_tombstone_between(&UserKey::new(0, vec![]), &UserKey::new(0, vec![])),
        vec![
            MonotonicDeleteEvent::new(UserKey::new(1, b"abc".to_vec()), 1),
            MonotonicDeleteEvent::new(UserKey::new(1, b"cde".to_vec()), u64::MAX),
            MonotonicDeleteEvent::new(UserKey::new(2, b"abc".to_vec()), 3),
            MonotonicDeleteEvent::new(UserKey::new(2, b"def".to_vec()), u64::MAX),
        ]
    );
}

#[test]
fn test_delete_range_iter_missing_table() {
    let (t1, i1) = table(1, vec![], vec![]);
    let (_, i2) = table(2, vec![], vec![]);
    let (_, i3) = table(3, vec![], vec![]);
    let mut sstable_store = SstableStore::new();
    sstable_store.insert(t1);
    let sstable_store = Arc::new(sstable_store);
    let compact_task = task(
        vec![InputLevel {
            level_idx: 0,
            level_type: LevelType::Overlapping,
            table_infos: vec![i1, i2, i3],
        }],
        vec![whole_range()],
    );
    let mut filter = DummyCompactionFilter {};
    let r = CompactorRunner::build_delete_range_iter(&compact_task, &sstable_store, &mut filter);
    assert_eq!(r.err(), Some(HummockError::SstableNotFound(2)));
}

/// Four disjoint tables on table id 1: `a b`, `c d`, `e f`, `g h`.
fn four_tables() -> (SstableStore, Vec<SstableInfo>, Vec<Vec<Entry>>) {
    let contents = |a: &[u8], b: &[u8]| vec![put(1, a, 7, a), put(1, a, 3, b"old"), put(1, b, 5, b)];
    let mut store = SstableStore::new();
    let mut infos = vec![];
    let mut all = vec![];
    for (id, (a, b)) in [(b"a", b"b"), (b"c", b"d"), (b"e", b"f"), (b"g", b"h")].iter().enumerate() {
        let (t, i) = table(id as u64 + 1, contents(&a[..], &b[..]), vec![]);
        store.insert(t);
        infos.push(i);
        all.push(contents(&a[..], &b[..]));
    }
    (store, infos, all)
}

#[test]
fn test_non_overlapping_level_concatenates_tables_of_the_split() {
    let (store, infos, contents) = four_tables();
    let ctx = context(store);
    let split = RawKeyRange::new(encoded(1, b"c", u64::MAX), encoded(1, b"g", u64::MAX), false);
    let compact_task = task(
        vec![InputLevel { level_idx: 1, level_type: LevelType::Nonoverlapping, table_infos: infos }],
        vec![whole_range(), split],
    );
    let reference = task(
        vec![InputLevel {
            level_idx: 1,
            level_type: LevelType::Nonoverlapping,
            table_infos: four_tables().1,
        }],
        vec![],
    );
    let runner = CompactorRunner::new(1, ctx.clone(), compact_task);
    assert_eq!(runner.split_index, 1);
    assert!(runner.key_range.right_exclusive);

    let iter = runner.build_sst_iter().unwrap();
    assert_eq!(iter.runs.len(), 1);
    let ids: Vec<u64> = iter.runs[0].tables.iter().map(|t| t.id).collect();
    assert_eq!(ids, vec![2, 3]);
    assert_eq!(iter.runs[0].key_range, runner.key_range);
    assert_eq!(iter.runs[0].existing_table_ids, vec![1, 2]);

    let (index, tables, stats) = run_with_dummy(&runner, &reference, &ctx.sstable_store).unwrap();
    assert_eq!(index, 1);
    let mut expected = vec![];
    expected.extend(contents[1].iter().map(|e| e.duplicate()));
    expected.extend(contents[2].iter().map(|e| e.duplicate()));
    assert_eq!(entries_of(&tables), vec![expected]);
    assert_eq!(stats, CompactionStatistics { iter_total_key_counts: 6, iter_drop_key_counts: 0 });
}

#[test]
fn test_whole_range_reads_every_table() {
    let (store, infos, contents) = four_tables();
    let ctx = context(store);
    let compact_task = task(
        vec![InputLevel { level_idx: 1, level_type: LevelType::Nonoverlapping, table_infos: infos }],
        vec![whole_range()],
    );
    let reference = task(
        vec![InputLevel {
            level_idx: 1,
            level_type: LevelType::Nonoverlapping,
            table_infos: four_tables().1,
        }],
        vec![],
    );
    let runner = CompactorRunner::new(0, ctx.clone(), compact_task);
    let iter = runner.build_sst_iter().unwrap();
    assert_eq!(iter.runs.len(), 1);
    assert_eq!(iter.runs[0].tables.len(), 4);
    let (_, tables, stats) = run_with_dummy(&runner, &reference, &ctx.sstable_store).unwrap();
    let expected: Vec<Entry> = contents.iter().flatten().map(|e| e.duplicate()).collect();
    assert_eq!(entries_of(&tables), vec![expected]);
    assert_eq!(stats.iter_total_key_counts, 12);
}

#[test]
fn test_overlapping_level_gives_one_run_per_table() {
    let (store, infos, _) = four_tables();
    let ctx = context(store);
    let split = RawKeyRange::new(encoded(1, b"c", u64::MAX), encoded(1, b"g", u64::MAX), false);
    let compact_task = task(
        vec![
            InputLevel { level_idx: 0, level_type: LevelType::Overlapping, table_infos: infos },
            InputLevel { level_idx: 1, level_type: LevelType::Nonoverlapping, table_infos: vec![] },
            InputLevel {
                level_idx: 2,
                level_type: LevelType::Nonoverlapping,
                table_infos: four_tables().1,
            },
        ],
        vec![split],
    );
    let runner = CompactorRunner::new(0, ctx, compact_task);
    let iter = runner.build_sst_iter().unwrap();
    let ids: Vec<Vec<u64>> =
        iter.runs.iter().map(|r| r.tables.iter().map(|t| t.id).collect()).collect();
    assert_eq!(ids, vec![vec![2], vec![3], vec![2, 3]]);
}

#[test]
fn test_level_that_cannot_be_concatenated_is_refused() {
    let (store, mut infos, _) = four_tables();
    infos.swap(1, 2);
    let ctx = context(store);
    let compact_task = task(
        vec![
            InputLevel {
                level_idx: 3,
                level_type: LevelType::Overlapping,
                table_infos: four_tables().1,
            },
            InputLevel { level_idx: 4, level_type: LevelType::Nonoverlapping, table_infos: infos },
        ],
        vec![whole_range()],
    );
    let runner = CompactorRunner::new(0, ctx.clone(), compact_task);
    assert_eq!(runner.build_sst_iter().err(), Some(HummockError::NonConcatLevel(4)));
    let mut progress = TaskProgress { num_ssts_sealed: 3, num_ssts_uploaded: 1 };
    let mut filter = DummyCompactionFilter {};
    let del_agg =
        CompactorRunner::build_delete_range_iter(&task(vec![], vec![]), &ctx.sstable_store, &mut filter)
            .unwrap();
    let r = runner.run(filter, Arc::new(FilterKeyExtractorImpl::Dummy), del_agg, &mut progress);
    assert_eq!(r.err(), Some(HummockError::NonConcatLevel(4)));
    assert_eq!(progress, TaskProgress { num_ssts_sealed: 3, num_ssts_uploaded: 1 });
}

#[test]
fn test_run_refuses_bound_that_is_no_key() {
    let (store, infos, _) = four_tables();
    let ctx = context(store);
    let compact_task = task(
        vec![InputLevel { level_idx: 1, level_type: LevelType::Nonoverlapping, table_infos: infos }],
        vec![RawKeyRange::new(b"short".to_vec(), vec![], false)],
    );
    let runner = CompactorRunner::new(0, ctx.clone(), compact_task);
    let r = run_with_dummy(&runner, &task(vec![], vec![]), &ctx.sstable_store);
    assert_eq!(r.err(), Some(HummockError::InvalidKeyRange));
}

#[test]
fn test_run_refuses_missing_table() {
    let (_, infos, _) = four_tables();
    let (t1, _) = table(1, vec![put(1, b"a", 1, b"v")], vec![]);
    let mut store = SstableStore::new();
    store.insert(t1);
    let ctx = context(store);
    let compact_task = task(
        vec![InputLevel { level_idx: 1, level_type: LevelType::Nonoverlapping, table_infos: infos }],
        vec![whole_range()],
    );
    let runner = CompactorRunner::new(0, ctx.clone(), compact_task);
    let r = run_with_dummy(&runner, &task(vec![], vec![]), &ctx.sstable_store);
    assert_eq!(r.err(), Some(HummockError::SstableNotFound(2)));
}

/// One key with versions at epochs 10 and 5, and a range tombstone over it at epoch 8.
fn shadowed(gc_delete_keys: bool, watermark: u64) -> (Vec<Vec<Entry>>, CompactionStatistics) {
    let tombstones = vec![DeleteRangeTombstone::new(1, b"a".to_vec(), b"z".to_vec(), 8)];
    let (t, i) = table(
        1,
        vec![put(1, b"key", 10, b"new"), put(1, b"key", 5, b"old")],
        create_monotonic_events(&tombstones),
    );
    let mut store = SstableStore::new();
    store.insert(t);
    let ctx = context(store);
    let make = || {
        let mut t = task(
            vec![InputLevel {
                level_idx: 0,
                level_type: LevelType::Overlapping,
                table_infos: vec![i.duplicate()],
            }],
            vec![whole_range()],
        );
        t.gc_delete_keys = gc_delete_keys;
        t.watermark = watermark;
        t
    };
    let runner = CompactorRunner::new(0, ctx.clone(), make());
    let (_, tables, stats) = run_with_dummy(&runner, &make(), &ctx.sstable_store).unwrap();
    (entries_of(&tables), stats)
}

#[test]
fn test_watermark_and_tombstone_drop_old_version() {
    let (tables, stats) = shadowed(true, 10);
    assert_eq!(tables, vec![vec![put(1, b"key", 10, b"new")]]);
    assert_eq!(stats, CompactionStatistics { iter_total_key_counts: 2, iter_drop_key_counts: 1 });
    let (tables, _) = shadowed(true, 100);
    assert_eq!(tables, vec![vec![put(1, b"key", 10, b"new")]]);
    // The newest version stays at every watermark, the greatest included.
    let (tables, stats) = shadowed(true, u64::MAX);
    assert_eq!(tables, vec![vec![put(1, b"key", 10, b"new")]]);
    assert_eq!(stats, CompactionStatistics { iter_total_key_counts: 2, iter_drop_key_counts: 1 });
}

#[test]
fn test_tombstone_alone_drops_old_version() {
    // At watermark 9 the version of epoch 10 shadows nothing; the tombstone of epoch 8 does.
    let (tables, stats) = shadowed(true, 9);
    assert_eq!(tables, vec![vec![put(1, b"key", 10, b"new")]]);
    assert_eq!(stats.iter_drop_key_counts, 1);
    // At watermark 7 the tombstone is not yet safe to apply.
    let (tables, stats) = shadowed(true, 7);
    assert_eq!(tables, vec![vec![put(1, b"key", 10, b"new"), put(1, b"key", 5, b"old")]]);
    assert_eq!(stats.iter_drop_key_counts, 0);
}

#[test]
fn test_without_gc_both_versions_stay() {
    let (tables, stats) = shadowed(false, 10);
    assert_eq!(tables, vec![vec![put(1, b"key", 10, b"new"), put(1, b"key", 5, b"old")]]);
    assert_eq!(stats, CompactionStatistics { iter_total_key_counts: 2, iter_drop_key_counts: 0 });
}

#[test]
fn test_deletion_marks_are_dropped_at_the_watermark() {
    let (t, i) = table(
        1,
        vec![delete(1, b"a", 9), put(1, b"a", 4, b"x"), delete(1, b"b", 12), put(1, b"b", 2, b"y")],
        vec![],
    );
    let mut store = SstableStore::new();
    store.insert(t);
    let ctx = context(store);
    let make = || {
        let mut t = task(
            vec![InputLevel {
                level_idx: 0,
                level_type: LevelType::Overlapping,
                table_infos: vec![i.duplicate()],
            }],
            vec![whole_range()],
        );
        t.gc_delete_keys = true;
        t.watermark = 10;
        t
    };
    let runner = CompactorRunner::new(0, ctx.clone(), make());
    let (_, tables, stats) = run_with_dummy(&runner, &make(), &ctx.sstable_store).unwrap();
    assert_eq!(entries_of(&tables), vec![vec![delete(1, b"b", 12), put(1, b"b", 2, b"y")]]);
    assert_eq!(stats, CompactionStatistics { iter_total_key_counts: 4, iter_drop_key_counts: 2 });
}

#[test]
fn test_same_split_twice_gives_same_tables() {
    let first = shadowed(true, 9);
    let second = shadowed(true, 9);
    assert_eq!(first, second);
    let (store, infos, _) = four_tables();
    let ctx = context(store);
    let make = || {
        task(
            vec![InputLevel {
                level_idx: 1,
                level_type: LevelType::Nonoverlapping,
                table_infos: infos.iter().map(|i| i.duplicate()).collect(),
            }],
            vec![whole_range()],
        )
    };
    let runner = CompactorRunner::new(0, ctx.clone(), make());
    let a = run_with_dummy(&runner, &make(), &ctx.sstable_store).unwrap();
    let b = run_with_dummy(&runner, &make(), &ctx.sstable_store).unwrap();
    assert_eq!(a, b);
}

#[test]
fn test_merge_puts_newer_level_first_on_equal_keys() {
    let (t1, i1) = table(1, vec![put(1, b"k", 5, b"level0"), put(1, b"m", 5, b"m0")], vec![]);
    let (t2, i2) = table(2, vec![put(1, b"a", 5, b"a1"), put(1, b"k", 5, b"level1")], vec![]);
    let mut store = SstableStore::new();
    store.insert(t1);
    store.insert(t2);
    let ctx = context(store);
    let make = || {
        task(
            vec![
                InputLevel {
                    level_idx: 0,
                    level_type: LevelType::Overlapping,
                    table_infos: vec![i1.duplicate()],
                },
                InputLevel {
                    level_idx: 1,
                    level_type: LevelType::Nonoverlapping,
                    table_infos: vec![i2.duplicate()],
                },
            ],
            vec![whole_range()],
        )
    };
    let runner = CompactorRunner::new(0, ctx.clone(), make());
    let (_, tables, _) = run_with_dummy(&runner, &make(), &ctx.sstable_store).unwrap();
    assert_eq!(
        entries_of(&tables),
        vec![vec![
            put(1, b"a", 5, b"a1"),
            put(1, b"k", 5, b"level0"),
            put(1, b"k", 5, b"level1"),
            put(1, b"m", 5, b"m0"),
        ]]
    );
}

#[test]
fn test_state_clean_up_filter_drops_keys_of_dropped_tables() {
    let (t, i) = table(
        1,
        vec![put(1, b"a", 5, b"x"), put(2, b"a", 5, b"y"), put(3, b"a", 5, b"z")],
        vec![],
    );
    let mut store = SstableStore::new();
    store.insert(t);
    let ctx = context(store);
    let make = || {
        let mut t = task(
            vec![InputLevel {
                level_idx: 0,
                level_type: LevelType::Overlapping,
                table_infos: vec![i.duplicate()],
            }],
            vec![whole_range()],
        );
        t.existing_table_ids = vec![1, 3];
        t
    };
    let runner = CompactorRunner::new(0, ctx.clone(), make());
    let mut filter = StateCleanUpCompactionFilter::from_table_ids(&make().existing_table_ids);
    let del_agg =
        CompactorRunner::build_delete_range_iter(&make(), &ctx.sstable_store, &mut filter).unwrap();
    let mut progress = TaskProgress { num_ssts_sealed: 0, num_ssts_uploaded: 0 };
    let (_, tables, stats) = runner
        .run(filter, Arc::new(FilterKeyExtractorImpl::FullKey), del_agg, &mut progress)
        .unwrap();
    assert_eq!(entries_of(&tables), vec![vec![put(1, b"a", 5, b"x"), put(3, b"a", 5, b"z")]]);
    assert_eq!(stats, CompactionStatistics { iter_total_key_counts: 3, iter_drop_key_counts: 1 });
    assert_eq!(progress, TaskProgress { num_ssts_sealed: 1, num_ssts_uploaded: 0 });
}

#[test]
fn test_tables_are_closed_at_capacity_and_at_table_change() {
    // Every entry takes 12 + 1 + 2 = 15 bytes.
    let entries = || {
        vec![
            put(1, b"a", 5, b"v1"),
            put(1, b"a", 4, b"v0"),
            put(1, b"b", 5, b"v2"),
            put(1, b"c", 5, b"v3"),
            put(2, b"a", 5, b"v4"),
            put(2, b"b", 5, b"v5"),
        ]
    };
    let (t, i) = table(1, entries(), vec![]);
    let mut store = SstableStore::new();
    store.insert(t);
    let ctx = context(store);
    let make = |target: u64, by_table: bool| {
        let mut t = task(
            vec![InputLevel {
                level_idx: 0,
                level_type: LevelType::Overlapping,
                table_infos: vec![i.duplicate()],
            }],
            vec![whole_range()],
        );
        t.target_file_size = target;
        t.split_by_state_table = by_table;
        t
    };
    let e = entries();
    let pick = |idx: &[usize]| idx.iter().map(|i| e[*i].duplicate()).collect::<Vec<Entry>>();

    // Capacity 40: a table is closed before a new user key once it holds 40 bytes or more.
    let runner = CompactorRunner::new(0, ctx.clone(), make(40, false));
    assert_eq!(runner.compactor.options.capacity, 40);
    let mut progress = TaskProgress { num_ssts_sealed: 5, num_ssts_uploaded: 2 };
    let (_, tables, _) = runner
        .run(
            DummyCompactionFilter {},
            Arc::new(FilterKeyExtractorImpl::FullKey),
            CompactorRunner::build_delete_range_iter(
                &make(40, false),
                &ctx.sstable_store,
                &mut DummyCompactionFilter {},
            )
            .unwrap(),
            &mut progress,
        )
        .unwrap();
    assert_eq!(entries_of(&tables), vec![pick(&[0, 1, 2]), pick(&[3, 4, 5])]);
    assert_eq!(progress, TaskProgress { num_ssts_sealed: 7, num_ssts_uploaded: 2 });

    // Split by state table: a table is closed where the table id changes.
    let runner = CompactorRunner::new(0, ctx.clone(), make(1000, true));
    let (_, tables, _) = run_with_dummy(&runner, &make(1000, true), &ctx.sstable_store).unwrap();
    assert_eq!(entries_of(&tables), vec![pick(&[0, 1, 2, 3]), pick(&[4, 5])]);

    // Capacity 0: every user key gets a table of its own.
    let runner = CompactorRunner::new(0, ctx.clone(), make(0, false));
    let (_, tables, _) = run_with_dummy(&runner, &make(0, false), &ctx.sstable_store).unwrap();
    assert_eq!(
        entries_of(&tables),
        vec![pick(&[0, 1]), pick(&[2]), pick(&[3]), pick(&[4]), pick(&[5])]
    );
}

#[test]
fn test_split_reads_from_left_bound_up_to_right_bound() {
    let entries = || {
        vec![
            put(1, b"a", 5, b"v"),
            put(1, b"b", 9, b"v"),
            put(1, b"b", 5, b"v"),
            put(1, b"c", 5, b"v"),
            put(1, b"c", 1, b"v"),
            put(1, b"d", 5, b"v"),
        ]
    };
    let (t, i) = table(1, entries(), vec![]);
    let mut store = SstableStore::new();
    store.insert(t);
    let ctx = context(store);
    // From the version of `b` at epoch 5 up to the first version of `d`.
    let split = || RawKeyRange::new(encoded(1, b"b", 5), encoded(1, b"d", u64::MAX), false);
    let make = || {
        task(
            vec![InputLevel {
                level_idx: 0,
                level_type: LevelType::Overlapping,
                table_infos: vec![i.duplicate()],
            }],
            vec![split()],
        )
    };
    let runner = CompactorRunner::new(0, ctx.clone(), make());
    let (_, tables, stats) = run_with_dummy(&runner, &make(), &ctx.sstable_store).unwrap();
    let e = entries();
    assert_eq!(
        entries_of(&tables),
        vec![vec![e[2].duplicate(), e[3].duplicate(), e[4].duplicate()]]
    );
    assert_eq!(stats.iter_total_key_counts, 3);
}

#[test]
fn test_new_derives_options() {
    let (store, infos, _) = four_tables();
    let ctx = context(store);
    let make = |compression: u32, target: u64| {
        let mut t = task(
            vec![InputLevel {
                level_idx: 1,
                level_type: LevelType::Nonoverlapping,
                table_infos: infos.iter().map(|i| i.duplicate()).collect(),
            }],
            vec![RawKeyRange::new(b"left-bound-x".to_vec(), b"right-bound-y".to_vec(), false)],
        );
        t.compression_algorithm = compression;
        t.target_file_size = target;
        t.watermark = 77;
        t.gc_delete_keys = true;
        t.split_by_state_table = true;
        t.existing_table_ids = vec![4, 5];
        t
    };
    let runner = CompactorRunner::new(0, ctx.clone(), make(0, 300));
    assert_eq!(
        runner.compactor.options,
        SstableBuilderOptions {
            capacity: 300,
            block_capacity: 64 * 1024,
            restart_interval: 16,
            compression_algorithm: CompressionAlgorithm::Uncompressed,
        }
    );
    assert_eq!(&runner.key_range.left[..], b"left-bound-x");
    assert_eq!(&runner.key_range.right[..], b"right-bound-y");
    assert!(runner.key_range.right_exclusive);
    assert_eq!(runner.compactor.task_config.key_range, runner.key_range);
    assert_eq!(runner.compactor.task_config.cache_policy, CachePolicy::NotFill);
    assert_eq!(runner.compactor.task_config.watermark, 77);
    assert!(runner.compactor.task_config.gc_delete_keys);
    assert!(runner.compactor.task_config.split_by_table);
    assert_eq!(
        runner.compactor.task_config.stats_target_table_ids,
        Some(HashSet::from_iter(vec![4, 5]))
    );
    assert_eq!(runner.compact_task, make(0, 300));
    assert!(Arc::ptr_eq(&runner.sstable_store, &ctx.sstable_store));
    assert!(Arc::ptr_eq(&runner.compactor.context, &ctx));

    // The input holds 4000 bytes, a table at most 1 MiB.
    let runner = CompactorRunner::new(0, ctx.clone(), make(1, 5_000_000));
    assert_eq!(runner.compactor.options.capacity, 4000);
    assert_eq!(runner.compactor.options.compression_algorithm, CompressionAlgorithm::Lz4);
    let runner = CompactorRunner::new(0, ctx.clone(), make(2, 5_000_000));
    assert_eq!(runner.compactor.options.compression_algorithm, CompressionAlgorithm::Zstd);
    let runner = CompactorRunner::new(0, ctx, make(9, 5_000_000));
    assert_eq!(runner.compactor.options.compression_algorithm, CompressionAlgorithm::Zstd);
}

#[test]
fn test_capacity_is_at_most_the_largest_table_size() {
    let (t, mut i) = table(1, vec![put(1, b"a", 1, b"v")], vec![]);
    i.uncompressed_file_size = u64::MAX;
    let (_, mut j) = table(2, vec![put(1, b"b", 1, b"v")], vec![]);
    j.uncompressed_file_size = 5;
    let mut store = SstableStore::new();
    store.insert(t);
    let ctx = context(store);
    let mut compact_task = task(
        vec![InputLevel { level_idx: 0, level_type: LevelType::Overlapping, table_infos: vec![i, j] }],
        vec![whole_range()],
    );
    compact_task.target_file_size = u64::MAX;
    let runner = CompactorRunner::new(0, ctx, compact_task);
    assert_eq!(runner.compactor.options.capacity, 1 << 20);
}

#[test]
fn test_task_progress_stays_when_full() {
    let mut progress = TaskProgress { num_ssts_sealed: u32::MAX - 1, num_ssts_uploaded: 4 };
    progress.inc_ssts_sealed();
    assert_eq!(progress, TaskProgress { num_ssts_sealed: u32::MAX, num_ssts_uploaded: 4 });
    progress.inc_ssts_sealed();
    assert_eq!(progress, TaskProgress { num_ssts_sealed: u32::MAX, num_ssts_uploaded: 4 });
}

#[test]
fn test_options_from_storage_opts() {
    let options = SstableBuilderOptions::from_storage_opts(&StorageOpts {
        sstable_size_mb: 256,
        block_size_kb: 64,
    });
    assert_eq!(
        options,
        SstableBuilderOptions {
            capacity: 256 << 20,
            block_capacity: 64 << 10,
            restart_interval: 16,
            compression_algorithm: CompressionAlgorithm::Uncompressed,
        }
    );
    let largest = SstableBuilderOptions::from_storage_opts(&StorageOpts {
        sstable_size_mb: u32::MAX,
        block_size_kb: u32::MAX,
    });
    assert_eq!(largest.capacity, (u32::MAX as u64) << 20);
    assert_eq!(largest.block_capacity, (u32::MAX as u64) << 10);
}

#[test]
fn test_sstable_store_gives_first_table_of_an_id() {
    let mut store = SstableStore::new();
    let (first, info) = table(5, vec![put(1, b"a", 1, b"first")], vec![]);
    let (_, _) = table(5, vec![], vec![]);
    store.insert(Sstable { id: 4, entries: vec![], monotonic_tombstone_events: vec![] });
    store.insert(first);
    store.insert(Sstable { id: 5, entries: vec![], monotonic_tombstone_events: vec![] });
    assert_eq!(store.sstable(&info).unwrap().entries, vec![put(1, b"a", 1, b"first")]);
    let (_, missing) = table(6, vec![], vec![]);
    assert_eq!(store.sstable(&missing).err(), Some(HummockError::SstableNotFound(6)));
}

#[test]
fn test_greatest_watermark_drops_nothing_without_a_reason() {
    // No tombstone, one version of each key: nothing is shadowed and nothing is deleted.
    let (t, i) = table(1, vec![put(1, b"a", 3, b"x"), put(1, b"b", 9, b"y")], vec![]);
    let mut store = SstableStore::new();
    store.insert(t);
    let ctx = context(store);
    let make = || {
        let mut t = task(
            vec![InputLevel {
                level_idx: 0,
                level_type: LevelType::Overlapping,
                table_infos: vec![i.duplicate()],
            }],
            vec![whole_range()],
        );
        t.gc_delete_keys = true;
        t.watermark = u64::MAX;
        t
    };
    let runner = CompactorRunner::new(0, ctx.clone(), make());
    let (_, tables, stats) = run_with_dummy(&runner, &make(), &ctx.sstable_store).unwrap();
    assert_eq!(entries_of(&tables), vec![vec![put(1, b"a", 3, b"x"), put(1, b"b", 9, b"y")]]);
    assert_eq!(stats, CompactionStatistics { iter_total_key_counts: 2, iter_drop_key_counts: 0 });
}

/// A filter that drops one key and no other.
struct DropOne {
    key: FullKey,
}

impl CompactionFilter for DropOne {
    /// Stands for the rule in proofs; never called.
    fn rejects(&self, _: FullKeyView) -> bool {
        unreachable!()
    }

    fn should_delete(&mut self, key: &FullKey) -> bool {
        *key == self.key
    }
}

#[test]
fn test_split_by_table_after_a_dropped_version() {
    // `a` is of table 1; the two versions of `k` are of table 2, and the newer one is dropped.
    let (t, i) = table(
        1,
        vec![put(1, b"a", 5, b"x"), put(2, b"k", 9, b"y"), put(2, b"k", 4, b"z")],
        vec![],
    );
    let mut store = SstableStore::new();
    store.insert(t);
    let ctx = context(store);
    let make = || {
        let mut t = task(
            vec![InputLevel {
                level_idx: 0,
                level_type: LevelType::Overlapping,
                table_infos: vec![i.duplicate()],
            }],
            vec![whole_range()],
        );
        t.split_by_state_table = true;
        t
    };
    let runner = CompactorRunner::new(0, ctx.clone(), make());
    let del_agg = CompactorRunner::build_delete_range_iter(
        &make(),
        &ctx.sstable_store,
        &mut DummyCompactionFilter {},
    )
    .unwrap();
    let mut progress = TaskProgress { num_ssts_sealed: 0, num_ssts_uploaded: 0 };
    let (_, tables, stats) = runner
        .run(
            DropOne { key: FullKey::new(2, b"k".to_vec(), 9) },
            Arc::new(FilterKeyExtractorImpl::FullKey),
            del_agg,
            &mut progress,
        )
        .unwrap();
    assert_eq!(
        entries_of(&tables),
        vec![vec![put(1, b"a", 5, b"x")], vec![put(2, b"k", 4, b"z")]]
    );
    assert_eq!(stats, CompactionStatistics { iter_total_key_counts: 3, iter_drop_key_counts: 1 });
    assert_eq!(progress.num_ssts_sealed, 2);
}

#[test]
fn test_split_into_tables_keeps_one_table_id_per_table() {
    let kept = vec![
        put(1, b"a", 5, b"x"),
        put(2, b"a", 4, b"z"),
        put(2, b"a", 3, b"z"),
        put(2, b"b", 3, b"z"),
        put(3, b"a", 3, b"z"),
    ];
    let mut progress = TaskProgress { num_ssts_sealed: 0, num_ssts_uploaded: 0 };
    let tables =
        split_into_tables(kept, 1000, true, &FilterKeyExtractorImpl::FullKey, &mut progress);
    assert_eq!(
        entries_of(&tables),
        vec![
            vec![put(1, b"a", 5, b"x")],
            vec![put(2, b"a", 4, b"z"), put(2, b"a", 3, b"z"), put(2, b"b", 3, b"z")],
            vec![put(3, b"a", 3, b"z")],
        ]
    );
    assert_eq!(progress.num_ssts_sealed, 3);
}

#[test]
fn test_bound_within_a_user_key_parts_its_versions() {
    let entries = || vec![put(1, b"j", 5, b"v"), put(1, b"k", 10, b"new"), put(1, b"k", 5, b"old")];
    let (t, i) = table(1, entries(), vec![]);
    let mut store = SstableStore::new();
    store.insert(t);
    let ctx = context(store);
    let make = || {
        task(
            vec![InputLevel {
                level_idx: 0,
                level_type: LevelType::Overlapping,
                table_infos: vec![i.duplicate()],
            }],
            vec![
                RawKeyRange::new(vec![], encoded(1, b"k", 7), false),
                RawKeyRange::new(encoded(1, b"k", 7), vec![], false),
            ],
        )
    };
    let first = CompactorRunner::new(0, ctx.clone(), make());
    let (_, tables, stats) = run_with_dummy(&first, &make(), &ctx.sstable_store).unwrap();
    assert_eq!(
        entries_of(&tables),
        vec![vec![put(1, b"j", 5, b"v"), put(1, b"k", 10, b"new")]]
    );
    assert_eq!(stats.iter_total_key_counts, 2);
    let second = CompactorRunner::new(1, ctx.clone(), make());
    let (_, tables, stats) = run_with_dummy(&second, &make(), &ctx.sstable_store).unwrap();
    assert_eq!(entries_of(&tables), vec![vec![put(1, b"k", 5, b"old")]]);
    assert_eq!(stats.iter_total_key_counts, 1);
}

#[test]
fn test_tables_carry_the_filter_keys_of_their_entries() {
    let (t, i) = table(1, vec![put(1, b"abcdef", 5, b"x"), put(1, b"xy", 5, b"y")], vec![]);
    let mut store = SstableStore::new();
    store.insert(t);
    let ctx = context(store);
    let make = || {
        task(
            vec![InputLevel {
                level_idx: 0,
                level_type: LevelType::Overlapping,
                table_infos: vec![i.duplicate()],
            }],
            vec![whole_range()],
        )
    };
    let runner = CompactorRunner::new(0, ctx.clone(), make());
    let keys_with = |extractor: FilterKeyExtractorImpl| {
        let del_agg = CompactorRunner::build_delete_range_iter(
            &make(),
            &ctx.sstable_store,
            &mut DummyCompactionFilter {},
        )
        .unwrap();
        let mut progress = TaskProgress { num_ssts_sealed: 0, num_ssts_uploaded: 0 };
        let (_, tables, _) = runner
            .run(DummyCompactionFilter {}, Arc::new(extractor), del_agg, &mut progress)
            .unwrap();
        assert_eq!(tables.len(), 1);
        tables[0].filter_keys.clone()
    };
    assert_eq!(
        keys_with(FilterKeyExtractorImpl::FullKey),
        vec![b"abcdef".to_vec(), b"xy".to_vec()]
    );
    assert_eq!(keys_with(FilterKeyExtractorImpl::Dummy), vec![Vec::<u8>::new(), vec![]]);
    assert_eq!(
        keys_with(FilterKeyExtractorImpl::FixedLength(3)),
        vec![b"abc".to_vec(), b"xy".to_vec()]
    );
    let key = FullKey::new(7, b"abcdef".to_vec(), 1);
    assert_eq!(FilterKeyExtractorImpl::FixedLength(0).extract(&key), Vec::<u8>::new());
    assert_eq!(FilterKeyExtractorImpl::FixedLength(6).extract(&key), b"abcdef".to_vec());
}
