//! Descriptors of tables and of compaction tasks.

use crate::seqs::copy_slice;
use vstd::prelude::*;

verus! {

pub type HummockSstableId = u64;

pub type HummockCompactionTaskId = u64;

pub type CompactionGroupId = u64;

/// What a key range is: two bounds, the right one in or out.
/// An empty bound stands for "no bound on this side".
pub struct KeyRangeView {
    pub left: Seq<u8>,
    pub right: Seq<u8>,
    pub right_exclusive: bool,
}

/// A key range as table and task descriptors carry it.
#[derive(Debug, PartialEq, Eq)]
pub struct RawKeyRange {
    pub left: Vec<u8>,
    pub right: Vec<u8>,
    pub right_exclusive: bool,
}

impl View for RawKeyRange {
    type V = KeyRangeView;

    open spec fn view(&self) -> KeyRangeView {
        KeyRangeView {
            left: self.left@,
            right: self.right@,
            right_exclusive: self.right_exclusive,
        }
    }
}

impl RawKeyRange {
    pub fn new(left: Vec<u8>, right: Vec<u8>, right_exclusive: bool) -> (r: RawKeyRange)
        ensures
            r@ == (KeyRangeView { left: left@, right: right@, right_exclusive }),
    {
        RawKeyRange { left, right, right_exclusive }
    }

    /// A copy of this range.
    pub fn duplicate(&self) -> (r: RawKeyRange)
        ensures
            r@ == self@,
    {
        RawKeyRange {
            left: copy_slice(self.left.as_slice()),
            right: copy_slice(self.right.as_slice()),
            right_exclusive: self.right_exclusive,
        }
    }

    pub fn get_left(&self) -> (r: &[u8])
        ensures
            r@ == self@.left,
    {
        self.left.as_slice()
    }

    pub fn get_right(&self) -> (r: &[u8])
        ensures
            r@ == self@.right,
    {
        self.right.as_slice()
    }
}

/// What is known of a table without reading it.
pub struct SstableInfoView {
    pub id: u64,
    pub key_range: KeyRangeView,
    pub file_size: u64,
    pub uncompressed_file_size: u64,
}

/// Descriptor of one immutable sorted table.
#[derive(Debug, PartialEq, Eq)]
pub struct SstableInfo {
    pub id: u64,
    pub key_range: RawKeyRange,
    pub file_size: u64,
    pub uncompressed_file_size: u64,
}

impl SstableInfo {
    /// A copy of this descriptor.
    pub fn duplicate(&self) -> (r: SstableInfo)
        ensures
            r@ == self@,
    {
        SstableInfo {
            id: self.id,
            key_range: self.key_range.duplicate(),
            file_size: self.file_size,
            uncompressed_file_size: self.uncompressed_file_size,
        }
    }
}

impl View for SstableInfo {
    type V = SstableInfoView;

    open spec fn view(&self) -> SstableInfoView {
        SstableInfoView {
            id: self.id,
            key_range: self.key_range@,
            file_size: self.file_size,
            uncompressed_file_size: self.uncompressed_file_size,
        }
    }
}

/// The views of a list of table descriptors.
pub open spec fn infos_view(infos: Seq<SstableInfo>) -> Seq<SstableInfoView> {
    infos.map_values(|t: SstableInfo| t@)
}

/// Whether the tables of a level may share keys.
#[derive(Debug, Clone, Copy, PartialEq, Eq, Structural)]
pub enum LevelType {
    Overlapping,
    Nonoverlapping,
}

pub struct InputLevelView {
    pub level_idx: u32,
    pub level_type: LevelType,
    pub table_infos: Seq<SstableInfoView>,
}

/// The tables that one level gives to a task.
#[derive(Debug, PartialEq, Eq)]
pub struct InputLevel {
    pub level_idx: u32,
    pub level_type: LevelType,
    pub table_infos: Vec<SstableInfo>,
}

impl View for InputLevel {
    type V = InputLevelView;

    open spec fn view(&self) -> InputLevelView {
        InputLevelView {
            level_idx: self.level_idx,
            level_type: self.level_type,
            table_infos: infos_view(self.table_infos@),
        }
    }
}

pub struct CompactTaskView {
    pub task_id: u64,
    pub compaction_group_id: u64,
    pub input_ssts: Seq<InputLevelView>,
    pub splits: Seq<KeyRangeView>,
    pub watermark: u64,
    pub target_file_size: u64,
    pub compression_algorithm: u32,
    pub gc_delete_keys: bool,
    pub existing_table_ids: Seq<u32>,
    pub split_by_state_table: bool,
}

/// One compaction job.
#[derive(Debug, PartialEq, Eq)]
pub struct CompactTask {
    pub task_id: u64,
    pub compaction_group_id: u64,
    /// The input tables, level by level, the newest level first.
    pub input_ssts: Vec<InputLevel>,
    /// The key ranges that may be compacted independently.
    pub splits: Vec<RawKeyRange>,
    /// Versions older than this epoch and shadowed may be dropped.
    pub watermark: u64,
    pub target_file_size: u64,
    pub compression_algorithm: u32,
    pub gc_delete_keys: bool,
    /// The ids of the state tables that still exist.
    pub existing_table_ids: Vec<u32>,
    pub split_by_state_table: bool,
}

impl View for CompactTask {
    type V = CompactTaskView;

    open spec fn view(&self) -> CompactTaskView {
        CompactTaskView {
            task_id: self.task_id,
            compaction_group_id: self.compaction_group_id,
            input_ssts: self.input_ssts@.map_values(|l: InputLevel| l@),
            splits: self.splits@.map_values(|r: RawKeyRange| r@),
            watermark: self.watermark,
            target_file_size: self.target_file_size,
            compression_algorithm: self.compression_algorithm,
            gc_delete_keys: self.gc_delete_keys,
            existing_table_ids: self.existing_table_ids@,
            split_by_state_table: self.split_by_state_table,
        }
    }
}

impl Default for CompactTask {
    fn default() -> (t: CompactTask)
        ensures
            t@ == (CompactTaskView {
                task_id: 0,
                compaction_group_id: 0,
                input_ssts: Seq::empty(),
                splits: Seq::empty(),
                watermark: 0,
                target_file_size: 0,
                compression_algorithm: 0,
                gc_delete_keys: false,
                existing_table_ids: Seq::empty(),
                split_by_state_table: false,
            }),
    {
        let t = CompactTask {
            task_id: 0,
            compaction_group_id: 0,
            input_ssts: Vec::new(),
            splits: Vec::new(),
            watermark: 0,
            target_file_size: 0,
            compression_algorithm: 0,
            gc_delete_keys: false,
            existing_table_ids: Vec::new(),
            split_by_state_table: false,
        };
        proof {
            assert(t@.input_ssts =~= Seq::empty());
            assert(t@.splits =~= Seq::empty());
        }
        t
    }
}

} // verus!
