//! The compactor of one key range: its options and what it carries along.

use crate::delete_range::{CompactionDeleteRanges, DeleteRangeTombstoneView, range_deleted};
use crate::error::{HummockError, HummockResult};
use crate::filter::CompactionFilter;
use crate::filter_key_extractor::FilterKeyExtractorImpl;
use crate::iterator::{
    UnorderedMergeIteratorInner, first_missing_in_runs, merge_runs, refs_view, runs_entries,
    sorted_by_key, strictly_sorted_by_key,
};
use crate::key::{
    FullKey, FullKeyView, UserKey, UserKeyView, decode_spec, full_key_le, full_key_lt, MAX_EPOCH,
};
use crate::key_range::KeyRange;
use crate::sstable::{
    Entry, EntryView, HummockValue, HummockValueView, SstableStore, SstableView, entries_view,
};
use crate::task::{CompactTask, InputLevelView, KeyRangeView, SstableInfoView};
use std::collections::HashSet;
use std::sync::Arc;
use vstd::prelude::*;

verus! {

/// `Arc::clone` gives a second handle on the same value.
#[verifier::external_body]
pub(crate) fn share<T>(a: &Arc<T>) -> (r: Arc<T>)
    ensures
        r == *a,
{
    Arc::clone(a)
}

/// The options of the storage engine that the compaction reads.
#[derive(Debug, Clone, Copy, PartialEq, Eq, Structural)]
pub struct StorageOpts {
    /// The largest size of a table, in MiB.
    pub sstable_size_mb: u32,
    /// The size of a block, in KiB.
    pub block_size_kb: u32,
}

/// How the blocks of a table are compressed.
#[derive(Debug, Clone, Copy, PartialEq, Eq, Structural)]
pub enum CompressionAlgorithm {
    Uncompressed,
    Lz4,
    Zstd,
}

/// The compression that a task asks for by number: 0 none, 1 the fast one,
/// any other number the one with the high ratio.
pub open spec fn compression_of(code: u32) -> CompressionAlgorithm {
    if code == 0 {
        CompressionAlgorithm::Uncompressed
    } else if code == 1 {
        CompressionAlgorithm::Lz4
    } else {
        CompressionAlgorithm::Zstd
    }
}

pub const DEFAULT_RESTART_INTERVAL: u64 = 16;

/// How a table is built.
#[derive(Debug, Clone, Copy, PartialEq, Eq, Structural)]
pub struct SstableBuilderOptions {
    /// The size at which a table is closed, in bytes.
    pub capacity: u64,
    /// The size at which a block is closed, in bytes.
    pub block_capacity: u64,
    pub restart_interval: u64,
    pub compression_algorithm: CompressionAlgorithm,
}

impl SstableBuilderOptions {
    /// The options that the storage options give: sizes in bytes, no compression.
    pub fn from_storage_opts(opts: &StorageOpts) -> (o: SstableBuilderOptions)
        ensures
            o == (SstableBuilderOptions {
                capacity: (opts.sstable_size_mb * 1048576) as u64,
                block_capacity: (opts.block_size_kb * 1024) as u64,
                restart_interval: DEFAULT_RESTART_INTERVAL,
                compression_algorithm: CompressionAlgorithm::Uncompressed,
            }),
    {
        let mb: u64 = opts.sstable_size_mb as u64;
        let kb: u64 = opts.block_size_kb as u64;
        SstableBuilderOptions {
            capacity: mb * 1048576,
            block_capacity: kb * 1024,
            restart_interval: DEFAULT_RESTART_INTERVAL,
            compression_algorithm: CompressionAlgorithm::Uncompressed,
        }
    }
}

/// What every compaction of a process shares.
#[derive(Debug, PartialEq, Eq)]
pub struct CompactorContext {
    pub storage_opts: Arc<StorageOpts>,
    pub sstable_store: Arc<SstableStore>,
}

/// Whether the blocks that a compaction reads are kept in the cache.
#[derive(Debug, Clone, Copy, PartialEq, Eq, Structural)]
pub enum CachePolicy {
    Disable,
    Fill,
    NotFill,
}

pub struct TaskConfigView {
    pub key_range: KeyRangeView,
    pub cache_policy: CachePolicy,
    pub gc_delete_keys: bool,
    pub watermark: u64,
    pub stats_target_table_ids: Option<Set<u32>>,
    pub split_by_table: bool,
}

/// What one compaction run takes from its task.
#[derive(Debug, PartialEq, Eq)]
pub struct TaskConfig {
    pub key_range: KeyRange,
    pub cache_policy: CachePolicy,
    pub gc_delete_keys: bool,
    pub watermark: u64,
    pub stats_target_table_ids: Option<HashSet<u32>>,
    pub split_by_table: bool,
}

impl View for TaskConfig {
    type V = TaskConfigView;

    open spec fn view(&self) -> TaskConfigView {
        TaskConfigView {
            key_range: self.key_range@,
            cache_policy: self.cache_policy,
            gc_delete_keys: self.gc_delete_keys,
            watermark: self.watermark,
            stats_target_table_ids: match self.stats_target_table_ids {
                Some(ids) => Some(ids@),
                None => None,
            },
            split_by_table: self.split_by_table,
        }
    }
}

/// The sum of the uncompressed sizes of `infos`.
pub open spec fn uncompressed_size(infos: Seq<SstableInfoView>) -> int
    decreases infos.len(),
{
    if infos.len() == 0 {
        0
    } else {
        uncompressed_size(infos.drop_last()) + infos.last().uncompressed_file_size
    }
}

/// The sum of the uncompressed sizes of the tables of `levels`.
pub open spec fn input_uncompressed_size(levels: Seq<InputLevelView>) -> int
    decreases levels.len(),
{
    if levels.len() == 0 {
        0
    } else {
        input_uncompressed_size(levels.drop_last()) + uncompressed_size(levels.last().table_infos)
    }
}

/// The least of three numbers.
pub open spec fn least(a: int, b: int, c: int) -> int {
    if a <= b && a <= c {
        a
    } else if b <= c {
        b
    } else {
        c
    }
}

proof fn lemma_uncompressed_size_nonnegative(infos: Seq<SstableInfoView>)
    ensures
        uncompressed_size(infos) >= 0,
    decreases infos.len(),
{
    if infos.len() > 0 {
        lemma_uncompressed_size_nonnegative(infos.drop_last());
    }
}

proof fn lemma_input_size_nonnegative(levels: Seq<InputLevelView>)
    ensures
        input_uncompressed_size(levels) >= 0,
    decreases levels.len(),
{
    if levels.len() > 0 {
        lemma_input_size_nonnegative(levels.drop_last());
        lemma_uncompressed_size_nonnegative(levels.last().table_infos);
    }
}

/// `total` and as much of `more` as a `u64` holds.
fn add_capped(total: u64, more: u64) -> (r: u64)
    ensures
        r == if total + more > u64::MAX {
            u64::MAX as int
        } else {
            total + more
        },
{
    if more > u64::MAX - total {
        u64::MAX
    } else {
        total + more
    }
}

/// The size at which the tables that a task writes are closed: the size that
/// the task asks for, but no more than the largest size of a table and no
/// more than the task reads.
pub fn estimate_task_memory_capacity(context: &CompactorContext, task: &CompactTask) -> (capacity:
    u64)
    ensures
        capacity == least(
            task.target_file_size as int,
            context.storage_opts.sstable_size_mb * 1048576,
            input_uncompressed_size(task@.input_ssts),
        ),
{
    let mb: u64 = context.storage_opts.sstable_size_mb as u64;
    let max_target_file_size: u64 = mb * 1048576;
    let ghost levels = task@.input_ssts;
    let mut total: u64 = 0;
    let mut l: usize = 0;
    while l < task.input_ssts.len()
        invariant
            l <= task.input_ssts.len(),
            levels == task@.input_ssts,
            total == if input_uncompressed_size(levels.take(l as int)) > u64::MAX {
                u64::MAX as int
            } else {
                input_uncompressed_size(levels.take(l as int))
            },
        decreases task.input_ssts.len() - l,
    {
        let level = &task.input_ssts[l];
        let ghost infos = level@.table_infos;
        let ghost base = input_uncompressed_size(levels.take(l as int));
        let mut t: usize = 0;
        proof {
            lemma_input_size_nonnegative(levels.take(l as int));
        }
        while t < level.table_infos.len()
            invariant
                t <= level.table_infos.len(),
                infos == level@.table_infos,
                base >= 0,
                total == if base + uncompressed_size(infos.take(t as int)) > u64::MAX {
                    u64::MAX as int
                } else {
                    base + uncompressed_size(infos.take(t as int))
                },
            decreases level.table_infos.len() - t,
        {
            proof {
                crate::seqs::lemma_take_step(infos, t as int);
                lemma_uncompressed_size_nonnegative(infos.take(t as int));
            }
            total = add_capped(total, level.table_infos[t].uncompressed_file_size);
            t = t + 1;
        }
        proof {
            crate::seqs::lemma_take_all(infos);
            crate::seqs::lemma_take_step(levels, l as int);
        }
        l = l + 1;
    }
    proof {
        crate::seqs::lemma_take_all(levels);
    }
    let capacity = if task.target_file_size < max_target_file_size {
        task.target_file_size
    } else {
        max_target_file_size
    };
    if capacity < total {
        capacity
    } else {
        total
    }
}

/// The compactor of one key range of one task.
#[derive(Debug, PartialEq, Eq)]
pub struct Compactor {
    pub context: Arc<CompactorContext>,
    pub options: SstableBuilderOptions,
    pub task_config: TaskConfig,
}

impl Compactor {
    pub fn new(
        context: Arc<CompactorContext>,
        options: SstableBuilderOptions,
        task_config: TaskConfig,
    ) -> (c: Compactor)
        ensures
            c.context == context,
            c.options == options,
            c.task_config == task_config,
    {
        Compactor { context, options, task_config }
    }
}


/// What a compaction pass is told.
pub struct PassConfig {
    /// The first key that is read; none where the range has no left bound.
    pub left: Option<FullKeyView>,
    /// The key at which reading ends; none where the range has no right bound.
    pub right: Option<FullKeyView>,
    pub watermark: u64,
    /// Whether versions that no reader at the watermark can see are dropped.
    pub gc_delete_keys: bool,
    /// Whether versions that a range tombstone deletes are dropped.
    pub drop_range_deleted: bool,
}

impl PassConfig {
    /// Whether `key` lies in the range of the pass: not before the left
    /// bound and before the right bound.
    pub open spec fn holds(self, key: FullKeyView) -> bool {
        (self.left is Some ==> !full_key_lt(key, self.left->0)) && (self.right is Some
            ==> full_key_lt(key, self.right->0))
    }
}

/// Where a compaction pass stands.
pub struct PassState {
    /// Whether the end of the range was reached.
    pub stopped: bool,
    /// The user key of the last entry read within the range.
    pub last_user_key: Option<UserKeyView>,
    /// Whether a version of that user key at or before the watermark was read.
    pub watermark_can_see_last_key: bool,
}

/// What a compaction pass has done so far.
pub struct PassResult {
    pub state: PassState,
    /// The entries kept, in the order in which they were read.
    pub emitted: Seq<EntryView>,
    /// The number of entries read within the range.
    pub total: nat,
    /// The number of entries read within the range and dropped.
    pub dropped: nat,
}

/// Whether a pass drops a version of a user key, the filter aside: it is at
/// or before the watermark and a deletion mark; or it is before the watermark
/// and either a newer version at or before the watermark was read, or a
/// range tombstone that covers its key has its sequence between the epoch of
/// the version and the watermark. Nothing is dropped on these grounds unless
/// `gc_delete_keys` is set, and nothing for a range tombstone unless
/// `drop_range_deleted` is set.
pub open spec fn obsolete(
    cfg: PassConfig,
    ts: Seq<DeleteRangeTombstoneView>,
    can_see: bool,
    e: EntryView,
) -> bool {
    cfg.gc_delete_keys && ((e.key.epoch <= cfg.watermark && e.value is Delete) || (e.key.epoch
        < cfg.watermark && (can_see || (cfg.drop_range_deleted && range_deleted(
        ts,
        e.key.user_key,
        e.key.epoch,
        cfg.watermark,
    )))))
}

/// What reading one more entry makes of a pass. An entry before the left
/// bound is passed over; the first entry that is not before the right bound
/// ends the pass.
pub open spec fn pass_step<F: CompactionFilter>(
    cfg: PassConfig,
    filter: F,
    ts: Seq<DeleteRangeTombstoneView>,
    r: PassResult,
    e: EntryView,
) -> PassResult {
    let is_new = r.state.last_user_key != Some(e.key.user_key);
    if r.state.stopped {
        r
    } else if cfg.left is Some && full_key_lt(e.key, cfg.left->0) {
        r
    } else if cfg.right is Some && !full_key_lt(e.key, cfg.right->0) {
        PassResult { state: PassState { stopped: true, ..r.state }, ..r }
    } else {
        let can_see = !is_new && r.state.watermark_can_see_last_key;
        let drop = obsolete(cfg, ts, can_see, e) || filter.rejects(e.key);
        PassResult {
            state: PassState {
                stopped: false,
                last_user_key: Some(e.key.user_key),
                watermark_can_see_last_key: can_see || e.key.epoch <= cfg.watermark,
            },
            emitted: if drop {
                r.emitted
            } else {
                r.emitted.push(e)
            },
            total: r.total + 1,
            dropped: if drop {
                r.dropped + 1
            } else {
                r.dropped
            },
        }
    }
}

/// A pass over `entries`, read in their order.
pub open spec fn pass<F: CompactionFilter>(
    cfg: PassConfig,
    filter: F,
    ts: Seq<DeleteRangeTombstoneView>,
    entries: Seq<EntryView>,
) -> PassResult
    decreases entries.len(),
{
    if entries.len() == 0 {
        PassResult {
            state: PassState {
                stopped: false,
                last_user_key: None,
                watermark_can_see_last_key: false,
            },
            emitted: Seq::empty(),
            total: 0,
            dropped: 0,
        }
    } else {
        pass_step(cfg, filter, ts, pass(cfg, filter, ts, entries.drop_last()), entries.last())
    }
}

/// The counts of one compaction pass.
#[derive(Debug, Clone, Copy, PartialEq, Eq, Structural)]
pub struct CompactionStatistics {
    /// The number of entries read within the key range.
    pub iter_total_key_counts: u64,
    /// The number of entries read within the key range and dropped.
    pub iter_drop_key_counts: u64,
}

/// The counts of a pass never exceed the number of entries.
pub proof fn lemma_pass_counts<F: CompactionFilter>(
    cfg: PassConfig,
    filter: F,
    ts: Seq<DeleteRangeTombstoneView>,
    entries: Seq<EntryView>,
)
    ensures
        pass(cfg, filter, ts, entries).dropped <= pass(cfg, filter, ts, entries).total
            <= entries.len(),
        pass(cfg, filter, ts, entries).emitted.len() + pass(cfg, filter, ts, entries).dropped
            == pass(cfg, filter, ts, entries).total,
    decreases entries.len(),
{
    if entries.len() > 0 {
        lemma_pass_counts(cfg, filter, ts, entries.drop_last());
    }
}

/// Every entry that a pass keeps is one of the entries read, lies in the
/// range of the pass, and is not dropped by the filter.
pub proof fn lemma_pass_keeps_within_range<F: CompactionFilter>(
    cfg: PassConfig,
    filter: F,
    ts: Seq<DeleteRangeTombstoneView>,
    entries: Seq<EntryView>,
)
    ensures
        forall|i: int|
            0 <= i < pass(cfg, filter, ts, entries).emitted.len() ==> {
                let e = #[trigger] pass(cfg, filter, ts, entries).emitted[i];
                entries.contains(e) && cfg.holds(e.key) && !filter.rejects(e.key)
            },
    decreases entries.len(),
{
    if entries.len() > 0 {
        let before = pass(cfg, filter, ts, entries.drop_last());
        let now = pass(cfg, filter, ts, entries);
        lemma_pass_keeps_within_range(cfg, filter, ts, entries.drop_last());
        assert forall|i: int| 0 <= i < now.emitted.len() implies {
            let e = #[trigger] now.emitted[i];
            entries.contains(e) && cfg.holds(e.key) && !filter.rejects(e.key)
        } by {
            if i < before.emitted.len() {
                let e = before.emitted[i];
                assert(now.emitted[i] == e);
                assert(entries.drop_last().contains(e));
                let k = choose|k: int| 0 <= k < entries.drop_last().len() && entries.drop_last()[k] == e;
                assert(entries[k] == e);
            } else {
                assert(now.emitted[i] == entries.last());
                assert(entries[entries.len() - 1] == entries.last());
            }
        }
    }
}

/// Two passes whose ranges follow one another, the first ending where or
/// before the second begins, keep no key in common.
pub proof fn lemma_disjoint_splits_share_no_key<F: CompactionFilter, G: CompactionFilter>(
    first: PassConfig,
    second: PassConfig,
    first_filter: F,
    second_filter: G,
    first_ts: Seq<DeleteRangeTombstoneView>,
    second_ts: Seq<DeleteRangeTombstoneView>,
    first_entries: Seq<EntryView>,
    second_entries: Seq<EntryView>,
    i: int,
    j: int,
)
    requires
        first.right is Some,
        second.left is Some,
        !full_key_lt(second.left->0, first.right->0),
        0 <= i < pass(first, first_filter, first_ts, first_entries).emitted.len(),
        0 <= j < pass(second, second_filter, second_ts, second_entries).emitted.len(),
    ensures
        pass(first, first_filter, first_ts, first_entries).emitted[i].key != pass(
            second,
            second_filter,
            second_ts,
            second_entries,
        ).emitted[j].key,
{
    lemma_pass_keeps_within_range(first, first_filter, first_ts, first_entries);
    lemma_pass_keeps_within_range(second, second_filter, second_ts, second_entries);
    let a = pass(first, first_filter, first_ts, first_entries).emitted[i];
    let b = pass(second, second_filter, second_ts, second_entries).emitted[j];
    crate::key::lemma_full_key_order(a.key, first.right->0, second.left->0);
}

/// A pass keeps the order of what it reads: where the entries read are in
/// key order, so are the entries kept, and where no two entries read have
/// one key, no two entries kept have.
pub proof fn lemma_pass_keeps_order<F: CompactionFilter>(
    cfg: PassConfig,
    filter: F,
    ts: Seq<DeleteRangeTombstoneView>,
    entries: Seq<EntryView>,
)
    ensures
        sorted_by_key(entries) ==> sorted_by_key(pass(cfg, filter, ts, entries).emitted),
        strictly_sorted_by_key(entries) ==> strictly_sorted_by_key(
            pass(cfg, filter, ts, entries).emitted,
        ),
    decreases entries.len(),
{
    if entries.len() > 0 {
        let rest = entries.drop_last();
        let before = pass(cfg, filter, ts, rest);
        let now = pass(cfg, filter, ts, entries);
        lemma_pass_keeps_order(cfg, filter, ts, rest);
        lemma_pass_keeps_within_range(cfg, filter, ts, rest);
        if sorted_by_key(entries) {
            assert(sorted_by_key(rest)) by {
                assert forall|x: int, y: int| 0 <= x < y < rest.len() implies full_key_le(
                    (#[trigger] rest[x]).key,
                    (#[trigger] rest[y]).key,
                ) by {
                    assert(rest[x] == entries[x] && rest[y] == entries[y]);
                }
            }
            assert forall|x: int, y: int| 0 <= x < y < now.emitted.len() implies full_key_le(
                (#[trigger] now.emitted[x]).key,
                (#[trigger] now.emitted[y]).key,
            ) by {
                if y >= before.emitted.len() {
                    let e = before.emitted[x];
                    assert(now.emitted[x] == e);
                    assert(rest.contains(e));
                    let k = choose|k: int| 0 <= k < rest.len() && rest[k] == e;
                    assert(entries[k] == e);
                    assert(now.emitted[y] == entries[entries.len() - 1]);
                } else {
                    assert(now.emitted[x] == before.emitted[x]);
                    assert(now.emitted[y] == before.emitted[y]);
                }
            }
        }
        if strictly_sorted_by_key(entries) {
            assert(strictly_sorted_by_key(rest)) by {
                assert forall|x: int, y: int| 0 <= x < y < rest.len() implies full_key_lt(
                    (#[trigger] rest[x]).key,
                    (#[trigger] rest[y]).key,
                ) by {
                    assert(rest[x] == entries[x] && rest[y] == entries[y]);
                }
            }
            assert forall|x: int, y: int| 0 <= x < y < now.emitted.len() implies full_key_lt(
                (#[trigger] now.emitted[x]).key,
                (#[trigger] now.emitted[y]).key,
            ) by {
                if y >= before.emitted.len() {
                    let e = before.emitted[x];
                    assert(now.emitted[x] == e);
                    assert(rest.contains(e));
                    let k = choose|k: int| 0 <= k < rest.len() && rest[k] == e;
                    assert(entries[k] == e);
                    assert(now.emitted[y] == entries[entries.len() - 1]);
                } else {
                    assert(now.emitted[x] == before.emitted[x]);
                    assert(now.emitted[y] == before.emitted[y]);
                }
            }
        }
    }
}

/// Where nothing may be dropped at the watermark and the filter drops
/// nothing, a pass keeps every entry that it reads.
pub proof fn lemma_pass_keeps_all_without_gc<F: CompactionFilter>(
    cfg: PassConfig,
    filter: F,
    ts: Seq<DeleteRangeTombstoneView>,
    entries: Seq<EntryView>,
)
    requires
        !cfg.gc_delete_keys,
        forall|k: FullKeyView| !filter.rejects(k),
    ensures
        pass(cfg, filter, ts, entries).dropped == 0,
        pass(cfg, filter, ts, entries).emitted.len() == pass(cfg, filter, ts, entries).total,
    decreases entries.len(),
{
    if entries.len() > 0 {
        lemma_pass_keeps_all_without_gc(cfg, filter, ts, entries.drop_last());
    }
}

/// A version before the watermark is obsolete where a range tombstone that
/// covers its key has its sequence between the epoch of the version and the
/// watermark, and range tombstones may be applied.
pub proof fn lemma_range_deleted_is_obsolete(
    cfg: PassConfig,
    ts: Seq<DeleteRangeTombstoneView>,
    can_see: bool,
    e: EntryView,
    n: int,
)
    requires
        cfg.gc_delete_keys,
        cfg.drop_range_deleted,
        e.key.epoch < cfg.watermark,
        0 <= n < ts.len(),
        ts[n].covers(e.key.user_key),
        e.key.epoch <= ts[n].sequence <= cfg.watermark,
        ts[n].sequence != crate::key::MAX_EPOCH,
    ensures
        obsolete(cfg, ts, can_see, e),
{
    crate::delete_range::lemma_range_deleted_meaning(
        ts,
        e.key.user_key,
        e.key.epoch,
        cfg.watermark,
    );
}

/// A version that is no deletion mark and has no newer version at or before
/// the watermark is obsolete only where a range tombstone that covers its key
/// has its sequence between the epoch of the version and the watermark.
pub proof fn lemma_obsolete_needs_a_reason(
    cfg: PassConfig,
    ts: Seq<DeleteRangeTombstoneView>,
    e: EntryView,
)
    requires
        obsolete(cfg, ts, false, e),
        !(e.value is Delete),
    ensures
        cfg.gc_delete_keys,
        cfg.drop_range_deleted,
        e.key.epoch < cfg.watermark,
        exists|n: int|
            0 <= n < ts.len() && (#[trigger] ts[n]).covers(e.key.user_key) && e.key.epoch
                <= ts[n].sequence <= cfg.watermark,
{
    crate::delete_range::lemma_range_deleted_meaning(
        ts,
        e.key.user_key,
        e.key.epoch,
        cfg.watermark,
    );
}

/// The newest version of a user key is not obsolete unless it is a deletion
/// mark or a range tombstone deletes it, whatever the watermark.
pub proof fn lemma_newest_version_stays(
    cfg: PassConfig,
    ts: Seq<DeleteRangeTombstoneView>,
    e: EntryView,
)
    requires
        !(e.value is Delete),
        forall|n: int|
            0 <= n < ts.len() && (#[trigger] ts[n]).covers(e.key.user_key) ==> ts[n].sequence
                < e.key.epoch,
    ensures
        !obsolete(cfg, ts, false, e),
{
    crate::delete_range::lemma_range_deleted_meaning(
        ts,
        e.key.user_key,
        e.key.epoch,
        cfg.watermark,
    );
}

/// One pass over `entries`: the entries that are kept, in their order, and
/// the counts.
///
/// Entries before `left` are passed over, and reading ends at the first
/// entry that is not before `right`. Of what is read, a version is dropped
/// where it is obsolete at the watermark or where the filter drops its key.
pub fn compact_entries<F: CompactionFilter>(
    entries: &Vec<&Entry>,
    left: &Option<FullKey>,
    right: &Option<FullKey>,
    watermark: u64,
    gc_delete_keys: bool,
    filter: &mut F,
    del_agg: &CompactionDeleteRanges,
) -> (r: (Vec<Entry>, CompactionStatistics))
    ensures
        forall|k: FullKeyView| #[trigger] final(filter).rejects(k) == old(filter).rejects(k),
        ({
            let cfg = PassConfig {
                left: option_key_view(*left),
                right: option_key_view(*right),
                watermark,
                gc_delete_keys,
                drop_range_deleted: del_agg.gc_delete_keys(),
            };
            let p = pass(cfg, *old(filter), del_agg.tombstones(), refs_view(entries@));
            &&& entries_view(r.0@) == p.emitted
            &&& r.1.iter_total_key_counts == p.total
            &&& r.1.iter_drop_key_counts == p.dropped
        }),
{
    let ghost cfg = PassConfig {
        left: option_key_view(*left),
        right: option_key_view(*right),
        watermark,
        gc_delete_keys,
        drop_range_deleted: del_agg.gc_delete_keys(),
    };
    let ghost f0 = *old(filter);
    let ghost ts = del_agg.tombstones();
    let ghost all = refs_view(entries@);
    let mut kept: Vec<Entry> = Vec::new();
    let mut total: u64 = 0;
    let mut dropped: u64 = 0;
    let mut stopped = false;
    let mut last_user_key: Option<&UserKey> = None;
    let mut can_see_last_key = false;
    let drop_range_deleted = del_agg.may_drop();
    let mut i: usize = 0;
    proof {
        assert(entries_view(kept@) =~= Seq::<EntryView>::empty());
    }
    while i < entries.len()
        invariant
            i <= entries.len(),
            all == refs_view(entries@),
            ts == del_agg.tombstones(),
            f0 == *old(filter),
            drop_range_deleted == del_agg.gc_delete_keys(),
            cfg == (PassConfig {
                left: option_key_view(*left),
                right: option_key_view(*right),
                watermark,
                gc_delete_keys,
                drop_range_deleted: del_agg.gc_delete_keys(),
            }),
            forall|k: FullKeyView| #[trigger] filter.rejects(k) == f0.rejects(k),
            total <= i,
            dropped <= i,
            pass(cfg, f0, ts, all.take(i as int)) == (PassResult {
                state: PassState {
                    stopped,
                    last_user_key: match last_user_key {
                        Some(k) => Some(k@),
                        None => None,
                    },
                    watermark_can_see_last_key: can_see_last_key,
                },
                emitted: entries_view(kept@),
                total: total as nat,
                dropped: dropped as nat,
            }),
        decreases entries.len() - i,
    {
        let entry: &Entry = entries[i];
        proof {
            crate::seqs::lemma_take_step(all, i as int);
            assert(all[i as int] == entry@);
        }
        let before_left = match left {
            Some(l) => entry.key.less(l),
            None => false,
        };
        if stopped || before_left {
        } else if match right {
            Some(r) => !entry.key.less(r),
            None => false,
        } {
            stopped = true;
        } else {
            let is_new = match last_user_key {
                Some(k) => !k.same(&entry.key.user_key),
                None => true,
            };
            let can_see = !is_new && can_see_last_key;
            let epoch = entry.key.epoch;
            let mut drop = false;
            if gc_delete_keys {
                if epoch <= watermark && entry.value.is_delete() {
                    drop = true;
                } else if epoch < watermark {
                    if can_see {
                        drop = true;
                    } else if drop_range_deleted {
                        let earliest = del_agg.earliest_delete_which_can_see_key(
                            &entry.key.user_key,
                            epoch,
                        );
                        if earliest != MAX_EPOCH && earliest <= watermark {
                            drop = true;
                        }
                    }
                }
            }
            if !drop && filter.should_delete(&entry.key) {
                drop = true;
            }
            last_user_key = Some(&entry.key.user_key);
            can_see_last_key = can_see || epoch <= watermark;
            total = total + 1;
            if drop {
                dropped = dropped + 1;
            } else {
                let ghost had = entries_view(kept@);
                kept.push(entry.duplicate());
                proof {
                    assert(entries_view(kept@) =~= had.push(entry@));
                }
            }
        }
        i = i + 1;
    }
    proof {
        crate::seqs::lemma_take_all(all);
    }
    (kept, CompactionStatistics { iter_total_key_counts: total, iter_drop_key_counts: dropped })
}

/// The view of a key that may be absent.
pub open spec fn option_key_view(k: Option<FullKey>) -> Option<FullKeyView> {
    match k {
        Some(key) => Some(key@),
        None => None,
    }
}

/// The room that an entry takes in a table: its key with table id and epoch,
/// and its value.
pub open spec fn entry_size(e: EntryView) -> int {
    12 + e.key.user_key.table_key.len() + match e.value {
        HummockValueView::Put(v) => v.len() as int,
        HummockValueView::Delete => 0,
    }
}

/// As much of `x` as a `u64` holds.
pub open spec fn capped(x: int) -> int {
    if x > u64::MAX {
        u64::MAX as int
    } else {
        x
    }
}

/// Where the writing of tables stands.
pub struct SplitState {
    /// The tables that are closed.
    pub sealed: Seq<Seq<EntryView>>,
    /// The entries of the table that is open.
    pub current: Seq<EntryView>,
    /// The room that the entries of the open table take.
    pub size: int,
}

/// Whether the open table is closed before `e` is written: `e` is of
/// another user key than the entry before it, and either the open table has
/// reached `capacity` or, with `split_by_table`, `e` is of another state
/// table than the entry before it.
pub open spec fn closes(capacity: u64, split_by_table: bool, s: SplitState, e: EntryView) -> bool {
    s.current.len() > 0 && s.current.last().key.user_key != e.key.user_key && (s.size >= capacity
        || (split_by_table && s.current.last().key.user_key.table_id
        != e.key.user_key.table_id))
}

/// What one more kept entry makes of the writing.
pub open spec fn split_step(capacity: u64, split_by_table: bool, s: SplitState, e: EntryView) -> SplitState {
    if closes(capacity, split_by_table, s, e) {
        SplitState { sealed: s.sealed.push(s.current), current: seq![e], size: capped(entry_size(e)) }
    } else {
        SplitState {
            sealed: s.sealed,
            current: s.current.push(e),
            size: capped(s.size + entry_size(e)),
        }
    }
}

/// The writing of the entries `kept`, in their order.
pub open spec fn split_fold(capacity: u64, split_by_table: bool, kept: Seq<EntryView>) -> SplitState
    decreases kept.len(),
{
    if kept.len() == 0 {
        SplitState { sealed: Seq::empty(), current: Seq::empty(), size: 0 }
    } else {
        split_step(
            capacity,
            split_by_table,
            split_fold(capacity, split_by_table, kept.drop_last()),
            kept.last(),
        )
    }
}

/// The tables that the entries `kept` are written to.
pub open spec fn split_tables(capacity: u64, split_by_table: bool, kept: Seq<EntryView>) -> Seq<
    Seq<EntryView>,
> {
    let s = split_fold(capacity, split_by_table, kept);
    if s.current.len() > 0 {
        s.sealed.push(s.current)
    } else {
        s.sealed
    }
}

/// No table is empty, and the tables together hold the kept entries in their order.
pub proof fn lemma_split_keeps_entries(capacity: u64, split_by_table: bool, kept: Seq<EntryView>)
    ensures
        split_fold(capacity, split_by_table, kept).sealed.flatten() + split_fold(
            capacity,
            split_by_table,
            kept,
        ).current == kept,
        split_tables(capacity, split_by_table, kept).flatten() == kept,
        forall|t: int|
            0 <= t < split_tables(capacity, split_by_table, kept).len() ==> (
            #[trigger] split_tables(capacity, split_by_table, kept)[t]).len() > 0,
        forall|t: int|
            0 <= t < split_fold(capacity, split_by_table, kept).sealed.len() ==> (
            #[trigger] split_fold(capacity, split_by_table, kept).sealed[t]).len() > 0,
        0 <= split_fold(capacity, split_by_table, kept).size <= u64::MAX,
    decreases kept.len(),
{
    let s = split_fold(capacity, split_by_table, kept);
    if kept.len() == 0 {
        assert(s.sealed.flatten() =~= Seq::<EntryView>::empty());
        assert(s.sealed.flatten() + s.current =~= kept);
    } else {
        let before = split_fold(capacity, split_by_table, kept.drop_last());
        lemma_split_keeps_entries(capacity, split_by_table, kept.drop_last());
        let e = kept.last();
        assert(kept =~= kept.drop_last().push(e));
        if closes(capacity, split_by_table, before, e) {
            before.sealed.lemma_flatten_push(before.current);
            assert(s.sealed.flatten() + s.current =~= kept);
        } else {
            assert(s.sealed.flatten() + s.current =~= kept);
        }
    }
    if s.current.len() > 0 {
        s.sealed.lemma_flatten_push(s.current);
    } else {
        assert(s.sealed.flatten() + s.current =~= s.sealed.flatten());
    }
}

/// Whether all entries of `table` are of one state table.
pub open spec fn one_table_id(table: Seq<EntryView>) -> bool {
    forall|i: int, j: int|
        0 <= i < table.len() && 0 <= j < table.len() ==> (#[trigger] table[i]).key.user_key.table_id
            == (#[trigger] table[j]).key.user_key.table_id
}

/// With `split_by_table`, no table holds keys of two state tables.
pub proof fn lemma_split_by_table(capacity: u64, kept: Seq<EntryView>)
    ensures
        one_table_id(split_fold(capacity, true, kept).current),
        forall|t: int|
            0 <= t < split_fold(capacity, true, kept).sealed.len() ==> one_table_id(
                #[trigger] split_fold(capacity, true, kept).sealed[t],
            ),
        forall|t: int|
            0 <= t < split_tables(capacity, true, kept).len() ==> one_table_id(
                #[trigger] split_tables(capacity, true, kept)[t],
            ),
    decreases kept.len(),
{
    let s = split_fold(capacity, true, kept);
    if kept.len() > 0 {
        let before = split_fold(capacity, true, kept.drop_last());
        lemma_split_by_table(capacity, kept.drop_last());
        let e = kept.last();
        if closes(capacity, true, before, e) {
            assert forall|t: int| 0 <= t < s.sealed.len() implies one_table_id(
                #[trigger] s.sealed[t],
            ) by {
                if t < before.sealed.len() {
                    assert(s.sealed[t] == before.sealed[t]);
                }
            }
        } else {
            assert forall|i: int, j: int|
                0 <= i < s.current.len() && 0 <= j < s.current.len() implies (
            #[trigger] s.current[i]).key.user_key.table_id == (
            #[trigger] s.current[j]).key.user_key.table_id by {
                if before.current.len() > 0 {
                    let last = before.current[before.current.len() - 1];
                    assert(last == before.current.last());
                    assert(last.key.user_key.table_id == e.key.user_key.table_id);
                    if i < before.current.len() {
                        assert(s.current[i] == before.current[i]);
                    }
                    if j < before.current.len() {
                        assert(s.current[j] == before.current[j]);
                    }
                }
            }
        }
    }
    let tables = split_tables(capacity, true, kept);
    assert forall|t: int| 0 <= t < tables.len() implies one_table_id(#[trigger] tables[t]) by {
        if t < s.sealed.len() {
            assert(tables[t] == s.sealed[t]);
        }
    }
}

/// A table that a compaction has written: its entries in their order, and
/// for each entry the key that a filter over the table is built of.
#[derive(Debug, PartialEq, Eq)]
pub struct OutputTable {
    pub entries: Vec<Entry>,
    pub filter_keys: Vec<Vec<u8>>,
}

/// The entries of each table, by their views.
pub open spec fn tables_view(t: Seq<OutputTable>) -> Seq<Seq<EntryView>> {
    t.map_values(|x: OutputTable| entries_view(x.entries@))
}

/// The keys that the extractor takes from `entries`, entry by entry.
pub open spec fn filter_keys_of(extractor: FilterKeyExtractorImpl, entries: Seq<EntryView>) -> Seq<
    Seq<u8>,
> {
    entries.map_values(|e: EntryView| extractor.extracted(e.key))
}

/// Whether every table carries, for each of its entries, the key that the
/// extractor takes from it.
pub open spec fn carries_filter_keys(extractor: FilterKeyExtractorImpl, tables: Seq<OutputTable>) -> bool {
    forall|t: int|
        0 <= t < tables.len() ==> (#[trigger] tables[t]).filter_keys@.map_values(
            |k: Vec<u8>| k@,
        ) == filter_keys_of(extractor, entries_view(tables[t].entries@))
}

/// What a compaction run tells of its progress.
#[derive(Debug, Clone, Copy, PartialEq, Eq, Structural)]
pub struct TaskProgress {
    /// The number of tables that were closed.
    pub num_ssts_sealed: u32,
    /// The number of tables that were handed to the store.
    pub num_ssts_uploaded: u32,
}

impl TaskProgress {
    /// Counts one more closed table; the count stays where it is once full.
    pub fn inc_ssts_sealed(&mut self)
        ensures
            final(self).num_ssts_uploaded == old(self).num_ssts_uploaded,
            final(self).num_ssts_sealed == if old(self).num_ssts_sealed == u32::MAX {
                u32::MAX
            } else {
                (old(self).num_ssts_sealed + 1) as u32
            },
    {
        if self.num_ssts_sealed < u32::MAX {
            self.num_ssts_sealed = self.num_ssts_sealed + 1;
        }
    }
}

/// The count that `n` more closed tables make of `sealed`.
pub open spec fn sealed_after(sealed: u32, n: int) -> int {
    if sealed + n > u32::MAX {
        u32::MAX as int
    } else {
        sealed + n
    }
}

/// The room that `entry` takes in a table.
fn size_of_entry(entry: &Entry) -> (r: u64)
    ensures
        r == capped(entry_size(entry@)),
{
    let key_len = entry.key.user_key.table_key.len() as u64;
    let value_len = match &entry.value {
        HummockValue::Put(v) => v.len() as u64,
        HummockValue::Delete => 0,
    };
    add_capped(add_capped(12, key_len), value_len)
}

/// Writes the kept entries to tables, in their order, each with the key that
/// `extractor` takes from it, and counts every closed table in
/// `task_progress`.
pub fn split_into_tables(
    kept: Vec<Entry>,
    capacity: u64,
    split_by_table: bool,
    extractor: &FilterKeyExtractorImpl,
    task_progress: &mut TaskProgress,
) -> (tables: Vec<OutputTable>)
    ensures
        tables_view(tables@) == split_tables(capacity, split_by_table, entries_view(kept@)),
        carries_filter_keys(*extractor, tables@),
        final(task_progress).num_ssts_uploaded == old(task_progress).num_ssts_uploaded,
        final(task_progress).num_ssts_sealed == sealed_after(
            old(task_progress).num_ssts_sealed,
            tables@.len() as int,
        ),
{
    let ghost all = entries_view(kept@);
    let mut tables: Vec<OutputTable> = Vec::new();
    let mut current: Vec<Entry> = Vec::new();
    let mut current_keys: Vec<Vec<u8>> = Vec::new();
    let mut size: u64 = 0;
    proof {
        assert(tables_view(tables@) =~= Seq::<Seq<EntryView>>::empty());
        assert(entries_view(current@) =~= Seq::<EntryView>::empty());
        assert(current_keys@.map_values(|k: Vec<u8>| k@) =~= filter_keys_of(
            *extractor,
            entries_view(current@),
        ));
    }
    for entry in it: kept
        invariant
            entries_view(it.seq()) == all,
            split_fold(capacity, split_by_table, all.take(it.index())) == (SplitState {
                sealed: tables_view(tables@),
                current: entries_view(current@),
                size: size as int,
            }),
            carries_filter_keys(*extractor, tables@),
            current_keys@.map_values(|k: Vec<u8>| k@) == filter_keys_of(
                *extractor,
                entries_view(current@),
            ),
            task_progress.num_ssts_uploaded == old(task_progress).num_ssts_uploaded,
            task_progress.num_ssts_sealed == sealed_after(
                old(task_progress).num_ssts_sealed,
                tables@.len() as int,
            ),
    {
        proof {
            crate::seqs::lemma_take_step(all, it.index());
            assert(all[it.index()] == entry@);
            lemma_split_keeps_entries(capacity, split_by_table, all.take(it.index()));
        }
        let close = if current.len() == 0 {
            false
        } else {
            let last = &current[current.len() - 1];
            proof {
                assert(entries_view(current@).last() == last@);
            }
            !last.key.user_key.same(&entry.key.user_key) && (size >= capacity || (split_by_table
                && last.key.user_key.table_id != entry.key.user_key.table_id))
        };
        let entry_room = size_of_entry(&entry);
        let filter_key = extractor.extract(&entry.key);
        if close {
            let ghost had = tables_view(tables@);
            let ghost had_tables = tables@;
            let ghost closed = entries_view(current@);
            tables.push(OutputTable { entries: current, filter_keys: current_keys });
            task_progress.inc_ssts_sealed();
            current = Vec::new();
            current_keys = Vec::new();
            size = entry_room;
            proof {
                assert(tables_view(tables@) =~= had.push(closed));
                assert forall|t: int| 0 <= t < tables@.len() implies (
                #[trigger] tables@[t]).filter_keys@.map_values(|k: Vec<u8>| k@) == filter_keys_of(
                    *extractor,
                    entries_view(tables@[t].entries@),
                ) by {
                    if t < had_tables.len() {
                        assert(tables@[t] == had_tables[t]);
                    }
                }
            }
        } else {
            size = add_capped(size, entry_room);
        }
        let ghost open = entries_view(current@);
        let ghost open_keys = current_keys@.map_values(|k: Vec<u8>| k@);
        let ghost one = entry@;
        current.push(entry);
        current_keys.push(filter_key);
        proof {
            assert(entries_view(current@) =~= open.push(one));
            if close {
                assert(open.push(one) =~= seq![one]);
                assert(open_keys =~= Seq::<Seq<u8>>::empty());
            }
            assert(current_keys@.map_values(|k: Vec<u8>| k@) =~= open_keys.push(
                extractor.extracted(one.key),
            ));
            assert(filter_keys_of(*extractor, open.push(one)) =~= filter_keys_of(
                *extractor,
                open,
            ).push(extractor.extracted(one.key)));
            assert(capped(capped(entry_size(one))) == capped(entry_size(one)));
        }
    }
    proof {
        crate::seqs::lemma_take_all(all);
    }
    if current.len() > 0 {
        let ghost had = tables_view(tables@);
        let ghost had_tables = tables@;
        let ghost closed = entries_view(current@);
        tables.push(OutputTable { entries: current, filter_keys: current_keys });
        task_progress.inc_ssts_sealed();
        proof {
            assert(tables_view(tables@) =~= had.push(closed));
            assert forall|t: int| 0 <= t < tables@.len() implies (
            #[trigger] tables@[t]).filter_keys@.map_values(|k: Vec<u8>| k@) == filter_keys_of(
                *extractor,
                entries_view(tables@[t].entries@),
            ) by {
                if t < had_tables.len() {
                    assert(tables@[t] == had_tables[t]);
                }
            }
        }
    }
    tables
}

/// Whether `b` can bound a key range: it is empty, or long enough for a
/// table id and an epoch.
pub open spec fn bound_wf(b: Seq<u8>) -> bool {
    b.len() == 0 || b.len() >= 12
}

/// The key that bounds a range; none where the bound is empty.
pub open spec fn bound_key(b: Seq<u8>) -> Option<FullKeyView> {
    if b.len() == 0 {
        None
    } else {
        decode_spec(b)
    }
}

/// The key that bounds a range, or the error for a bound that is none.
pub fn decode_bound(b: &[u8]) -> (r: HummockResult<Option<FullKey>>)
    ensures
        match r {
            Ok(k) => bound_wf(b@) && option_key_view(k) == bound_key(b@),
            Err(e) => !bound_wf(b@) && e == HummockError::InvalidKeyRange,
        },
{
    if b.len() == 0 {
        Ok(None)
    } else {
        match FullKey::decode(b) {
            Some(k) => Ok(Some(k)),
            None => Err(HummockError::InvalidKeyRange),
        }
    }
}

/// Whether the store lacks a table of the runs.
pub open spec fn missing_table(store: Seq<SstableView>, runs: Seq<Seq<SstableInfoView>>) -> bool {
    exists|q: int, t: int| first_missing_in_runs(store, runs, q, t)
}

/// What a compaction of the runs gives: the tables written and the counts.
pub open spec fn compaction_of<F: CompactionFilter>(
    store: Seq<SstableView>,
    runs: Seq<Seq<SstableInfoView>>,
    config: TaskConfigView,
    capacity: u64,
    filter: F,
    ts: Seq<DeleteRangeTombstoneView>,
    drop_range_deleted: bool,
) -> (Seq<Seq<EntryView>>, CompactionStatistics) {
    let cfg = PassConfig {
        left: bound_key(config.key_range.left),
        right: bound_key(config.key_range.right),
        watermark: config.watermark,
        gc_delete_keys: config.gc_delete_keys,
        drop_range_deleted,
    };
    let p = pass(cfg, filter, ts, merge_runs(runs_entries(store, runs)));
    (
        split_tables(capacity, config.split_by_table, p.emitted),
        CompactionStatistics {
            iter_total_key_counts: p.total as u64,
            iter_drop_key_counts: p.dropped as u64,
        },
    )
}

/// Every entry of a sequence of sequences is in the sequence of all their entries.
proof fn lemma_flatten_holds<T>(ss: Seq<Seq<T>>, t: int, i: int)
    requires
        0 <= t < ss.len(),
        0 <= i < ss[t].len(),
    ensures
        ss.flatten().contains(ss[t][i]),
    decreases ss.len(),
{
    let last = ss.last();
    let rest = ss.drop_last();
    assert(rest.push(last) =~= ss);
    rest.lemma_flatten_push(last);
    if t == ss.len() - 1 {
        assert(ss.flatten()[rest.flatten().len() + i] == ss[t][i]);
    } else {
        lemma_flatten_holds(rest, t, i);
        let k = choose|k: int| 0 <= k < rest.flatten().len() && rest.flatten()[k] == rest[t][i];
        assert(ss.flatten()[k] == ss[t][i]);
    }
}

/// What a compaction writes lies in its key range and is not dropped by
/// the filter; every table holds an entry; and where the task asks for a
/// split by state table, no table holds keys of two state tables.
pub proof fn lemma_compaction_output<F: CompactionFilter>(
    store: Seq<SstableView>,
    runs: Seq<Seq<SstableInfoView>>,
    config: TaskConfigView,
    capacity: u64,
    filter: F,
    ts: Seq<DeleteRangeTombstoneView>,
    drop_range_deleted: bool,
)
    ensures
        ({
            let tables = compaction_of(
                store,
                runs,
                config,
                capacity,
                filter,
                ts,
                drop_range_deleted,
            ).0;
            let left = bound_key(config.key_range.left);
            let right = bound_key(config.key_range.right);
            &&& forall|t: int, i: int|
                0 <= t < tables.len() && 0 <= i < tables[t].len() ==> {
                    let key = (#[trigger] tables[t][i]).key;
                    &&& left is Some ==> !full_key_lt(key, left->0)
                    &&& right is Some ==> full_key_lt(key, right->0)
                    &&& !filter.rejects(key)
                }
            &&& forall|t: int| 0 <= t < tables.len() ==> (#[trigger] tables[t]).len() > 0
            &&& config.split_by_table ==> forall|t: int|
                0 <= t < tables.len() ==> one_table_id(#[trigger] tables[t])
        }),
{
    let cfg = PassConfig {
        left: bound_key(config.key_range.left),
        right: bound_key(config.key_range.right),
        watermark: config.watermark,
        gc_delete_keys: config.gc_delete_keys,
        drop_range_deleted,
    };
    let entries = merge_runs(runs_entries(store, runs));
    let p = pass(cfg, filter, ts, entries);
    let tables = split_tables(capacity, config.split_by_table, p.emitted);
    lemma_pass_keeps_within_range(cfg, filter, ts, entries);
    lemma_split_keeps_entries(capacity, config.split_by_table, p.emitted);
    if config.split_by_table {
        lemma_split_by_table(capacity, p.emitted);
    }
    assert forall|t: int, i: int| 0 <= t < tables.len() && 0 <= i < tables[t].len() implies {
        let key = (#[trigger] tables[t][i]).key;
        &&& cfg.left is Some ==> !full_key_lt(key, cfg.left->0)
        &&& cfg.right is Some ==> full_key_lt(key, cfg.right->0)
        &&& !filter.rejects(key)
    } by {
        lemma_flatten_holds(tables, t, i);
        let k = choose|k: int| 0 <= k < p.emitted.len() && p.emitted[k] == tables[t][i];
        assert(cfg.holds(p.emitted[k].key));
    }
}

impl Compactor {
    /// Compacts the runs of `iter` within the key range of this compactor:
    /// merges them, drops what is obsolete at the watermark and what the
    /// filter drops, and writes the rest to tables that are closed at the
    /// capacity, and at every change of state table where the task asks for
    /// it. Every table carries the keys that `filter_key_extractor` takes
    /// from its entries, and every closed table is counted in `task_progress`.
    ///
    /// What is written lies from the left bound of the key range, the bound
    /// in, up to its right bound, the bound out. A bound of the key range that
    /// is no key is refused before any table is read; a table that the store
    /// lacks is refused with the id of the first such table.
    pub fn compact_key_range<F: CompactionFilter>(
        &self,
        iter: UnorderedMergeIteratorInner,
        sstable_store: &SstableStore,
        compaction_filter: F,
        del_agg: Arc<CompactionDeleteRanges>,
        filter_key_extractor: Arc<FilterKeyExtractorImpl>,
        task_progress: &mut TaskProgress,
    ) -> (r: HummockResult<(Vec<OutputTable>, CompactionStatistics)>)
        ensures
            final(task_progress).num_ssts_uploaded == old(task_progress).num_ssts_uploaded,
            match r {
                Ok((tables, stats)) => {
                    &&& carries_filter_keys(*filter_key_extractor, tables@)
                    &&& bound_wf(self.task_config@.key_range.left)
                    &&& bound_wf(self.task_config@.key_range.right)
                    &&& !missing_table(sstable_store@, iter.tables())
                    &&& (tables_view(tables@), stats) == compaction_of(
                        sstable_store@,
                        iter.tables(),
                        self.task_config@,
                        self.options.capacity,
                        compaction_filter,
                        del_agg.tombstones(),
                        del_agg.gc_delete_keys(),
                    )
                    &&& final(task_progress).num_ssts_sealed == sealed_after(
                        old(task_progress).num_ssts_sealed,
                        tables@.len() as int,
                    )
                },
                Err(HummockError::InvalidKeyRange) => {
                    &&& !(bound_wf(self.task_config@.key_range.left) && bound_wf(
                        self.task_config@.key_range.right,
                    ))
                    &&& *final(task_progress) == *old(task_progress)
                },
                Err(HummockError::SstableNotFound(id)) => {
                    &&& bound_wf(self.task_config@.key_range.left)
                    &&& bound_wf(self.task_config@.key_range.right)
                    &&& exists|q: int, t: int| #[trigger]
                        first_missing_in_runs(sstable_store@, iter.tables(), q, t) && id
                            == iter.tables()[q][t].id
                    &&& *final(task_progress) == *old(task_progress)
                },
                Err(HummockError::NonConcatLevel(_)) => false,
            },
    {
        let mut compaction_filter = compaction_filter;
        let left = match decode_bound(self.task_config.key_range.left.as_ref()) {
            Ok(k) => k,
            Err(e) => {
                return Err(e);
            },
        };
        let right = match decode_bound(self.task_config.key_range.right.as_ref()) {
            Ok(k) => k,
            Err(e) => {
                return Err(e);
            },
        };
        let entries = match iter.entries(sstable_store) {
            Ok(entries) => entries,
            Err(e) => {
                proof {
                    let (q, t) = choose|q: int, t: int| #[trigger]
                        first_missing_in_runs(sstable_store@, iter.tables(), q, t) && e
                            == HummockError::SstableNotFound(iter.tables()[q][t].id);
                    assert(first_missing_in_runs(sstable_store@, iter.tables(), q, t));
                }
                return Err(e);
            },
        };
        proof {
            assert(!missing_table(sstable_store@, iter.tables())) by {
                if missing_table(sstable_store@, iter.tables()) {
                    let (q, t) = choose|q: int, t: int|
                        first_missing_in_runs(sstable_store@, iter.tables(), q, t);
                    assert(lookup_found(sstable_store@, iter.tables()[q][t]));
                }
            }
            lemma_pass_counts(
                PassConfig {
                    left: option_key_view(left),
                    right: option_key_view(right),
                    watermark: self.task_config.watermark,
                    gc_delete_keys: self.task_config.gc_delete_keys,
                    drop_range_deleted: del_agg.gc_delete_keys(),
                },
                compaction_filter,
                del_agg.tombstones(),
                refs_view(entries@),
            );
        }
        let (kept, stats) = compact_entries(
            &entries,
            &left,
            &right,
            self.task_config.watermark,
            self.task_config.gc_delete_keys,
            &mut compaction_filter,
            &del_agg,
        );
        let tables = split_into_tables(
            kept,
            self.options.capacity,
            self.task_config.split_by_table,
            &filter_key_extractor,
            task_progress,
        );
        Ok((tables, stats))
    }
}

/// Whether the store holds the table that `info` describes.
pub open spec fn lookup_found(store: Seq<SstableView>, info: SstableInfoView) -> bool {
    crate::sstable::lookup(store, info.id) is Some
}

} // verus!
