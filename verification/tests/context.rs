use hummock::cluster::{ClusterManager, WorkerNode, WorkerType};
use hummock::compaction::{
    CompactStatus, CompactTaskAssignment, HummockPinnedSnapshot, HummockPinnedVersion, LevelHandler,
};
use hummock::manager::{
    apply_transaction, invalid_contexts, referenced_contexts, stage_release, Compaction, Error,
    HummockManager, Versioning,
};
use hummock::store::{MetaStore, MetaStoreError, Operation, Transaction};
use hummock::task::CompactTask;
use std::collections::{BTreeMap, BTreeSet};

/// A store in memory that keeps an image of every map and can be told to fail.
struct MemStore {
    fail: bool,
    commits: usize,
    statuses: BTreeMap<u64, String>,
    assignments: BTreeSet<u64>,
    pinned_versions: BTreeSet<u32>,
    pinned_snapshots: BTreeSet<u32>,
}

impl MetaStore for MemStore {
    fn txn(&mut self, trx: &Transaction) -> Result<(), MetaStoreError> {
        if self.fail {
            return Err(MetaStoreError::TransactionAbort);
        }
        for op in trx.operations() {
            match op {
                Operation::PutCompactStatus(group, status) => {
                    self.statuses.insert(*group, format!("{:?}", status));
                }
                Operation::DeleteCompactTaskAssignment(task) => {
                    self.assignments.remove(task);
                }
                Operation::DeletePinnedVersion(context) => {
                    self.pinned_versions.remove(context);
                }
                Operation::DeletePinnedSnapshot(context) => {
                    self.pinned_snapshots.remove(context);
                }
            }
        }
        self.commits += 1;
        Ok(())
    }
}

fn task(task_id: u64, group: u64) -> CompactTask {
    CompactTask { task_id, compaction_group_id: group, ..Default::default() }
}

fn worker(id: u32) -> WorkerNode {
    WorkerNode { id, worker_type: WorkerType::ComputeNode }
}

/// Contexts 1 and 2 each carry out a task in group 10, context 2 another in
/// group 20; both have pinned a version and a snapshot. Only worker 1 is alive.
fn manager(fail: bool) -> HummockManager<MemStore> {
    let mut status10 = CompactStatus::new(10, 2);
    status10.add_pending_task(0, 100, 1, vec![1, 2]);
    status10.add_pending_task(1, 100, 1, vec![3]);
    status10.add_pending_task(0, 200, 1, vec![4]);
    let mut status20 = CompactStatus::new(20, 2);
    status20.add_pending_task(0, 300, 1, vec![5]);

    let mut store = MemStore {
        fail,
        commits: 0,
        statuses: BTreeMap::new(),
        assignments: BTreeSet::new(),
        pinned_versions: BTreeSet::new(),
        pinned_snapshots: BTreeSet::new(),
    };
    store.statuses.insert(10, format!("{:?}", status10));
    store.statuses.insert(20, format!("{:?}", status20));

    let mut compaction_statuses = BTreeMap::new();
    compaction_statuses.insert(10, status10);
    compaction_statuses.insert(20, status20);
    let mut compact_task_assignment = BTreeMap::new();
    for (task_id, group, context_id) in [(100u64, 10u64, 1u32), (200, 10, 2), (300, 20, 2)] {
        compact_task_assignment
            .insert(task_id, CompactTaskAssignment { compact_task: task(task_id, group), context_id });
        store.assignments.insert(task_id);
    }
    let mut pinned_versions = BTreeMap::new();
    let mut pinned_snapshots = BTreeMap::new();
    for context_id in [1u32, 2] {
        pinned_versions.insert(context_id, HummockPinnedVersion { context_id, min_pinned_id: 7 });
        pinned_snapshots
            .insert(context_id, HummockPinnedSnapshot { context_id, minimal_pinned_snapshot: 9 });
        store.pinned_versions.insert(context_id);
        store.pinned_snapshots.insert(context_id);
    }
    HummockManager::new(
        store,
        ClusterManager::new(vec![worker(1)]),
        Compaction { compaction_statuses, compact_task_assignment },
        Versioning { pinned_versions, pinned_snapshots },
    )
}

fn image(m: &HummockManager<MemStore>) -> String {
    format!("{:?} {:?}", m.compaction, m.versioning)
}

/// The store's image of every map agrees with the maps in memory.
fn check_state_consistency(m: &HummockManager<MemStore>) {
    let statuses: BTreeMap<u64, String> =
        m.compaction.compaction_statuses.iter().map(|(g, s)| (*g, format!("{:?}", s))).collect();
    assert_eq!(statuses, m.meta_store.statuses);
    let assignments: BTreeSet<u64> = m.compaction.compact_task_assignment.keys().copied().collect();
    assert_eq!(assignments, m.meta_store.assignments);
    let versions: BTreeSet<u32> = m.versioning.pinned_versions.keys().copied().collect();
    assert_eq!(versions, m.meta_store.pinned_versions);
    let snapshots: BTreeSet<u32> = m.versioning.pinned_snapshots.keys().copied().collect();
    assert_eq!(snapshots, m.meta_store.pinned_snapshots);
}

#[test]
fn test_release_contexts_leaves_no_reference() {
    let mut m = manager(false);
    assert_eq!(m.release_contexts(&[2]), Ok(()));
    check_state_consistency(&m);

    let keys: Vec<u64> = m.compaction.compact_task_assignment.keys().copied().collect();
    assert_eq!(keys, vec![100]);
    assert!(m.compaction.compact_task_assignment.values().all(|a| a.context_id != 2));
    assert!(!m.versioning.pinned_versions.contains_key(&2));
    assert!(!m.versioning.pinned_snapshots.contains_key(&2));

    let status10 = &m.compaction.compaction_statuses[&10];
    assert!(!status10.is_pending_task(200));
    assert!(!status10.is_pending_compact(0, 4));
    let status20 = &m.compaction.compaction_statuses[&20];
    assert!(!status20.is_pending_task(300));
    assert!(!status20.is_pending_compact(0, 5));
}

#[test]
fn test_release_contexts_keeps_other_contexts() {
    let mut m = manager(false);
    assert_eq!(m.release_contexts(&[2]), Ok(()));
    let status10 = &m.compaction.compaction_statuses[&10];
    assert!(status10.is_pending_task(100));
    assert!(status10.is_pending_compact(0, 1));
    assert!(status10.is_pending_compact(0, 2));
    assert!(status10.is_pending_compact(1, 3));
    assert_eq!(m.compaction.compact_task_assignment[&100].context_id, 1);
    assert_eq!(
        m.versioning.pinned_versions[&1],
        HummockPinnedVersion { context_id: 1, min_pinned_id: 7 }
    );
    assert_eq!(
        m.versioning.pinned_snapshots[&1],
        HummockPinnedSnapshot { context_id: 1, minimal_pinned_snapshot: 9 }
    );
}

#[test]
fn test_release_contexts_transaction() {
    let mut m = manager(false);
    assert_eq!(m.release_contexts(&[2, 1, 2]), Ok(()));
    assert_eq!(m.meta_store.commits, 1);
    check_state_consistency(&m);
    assert!(m.compaction.compact_task_assignment.is_empty());
    assert!(m.versioning.pinned_versions.is_empty());
    assert!(m.versioning.pinned_snapshots.is_empty());
    assert_eq!(m.compaction.compaction_statuses.len(), 2);
    for task_id in [100, 200, 300] {
        assert!(m.compaction.compaction_statuses.values().all(|s| !s.is_pending_task(task_id)));
    }
}

#[test]
fn test_release_contexts_twice_is_once() {
    let mut once = manager(false);
    assert_eq!(once.release_contexts(&[2]), Ok(()));
    let mut twice = manager(false);
    assert_eq!(twice.release_contexts(&[2]), Ok(()));
    assert_eq!(twice.release_contexts(&[2]), Ok(()));
    assert_eq!(image(&once), image(&twice));
    check_state_consistency(&twice);
}

#[test]
fn test_release_absent_context_is_noop() {
    let mut m = manager(false);
    let before = image(&m);
    assert_eq!(m.release_contexts(&[42]), Ok(()));
    assert_eq!(image(&m), before);
    assert_eq!(m.release_contexts(&[]), Ok(()));
    assert_eq!(image(&m), before);
}

#[test]
fn test_release_unknown_group_fails_and_changes_nothing() {
    let mut m = manager(false);
    m.compaction.compaction_statuses.remove(&20);
    m.meta_store.statuses.remove(&20);
    let before = image(&m);
    assert_eq!(m.release_contexts(&[2]), Err(Error::InvalidCompactionGroup(20)));
    assert_eq!(image(&m), before);
    assert_eq!(m.meta_store.commits, 0);
    check_state_consistency(&m);
    // Context 1 has no task in the missing group.
    assert_eq!(m.release_contexts(&[1]), Ok(()));
}

#[test]
fn test_release_names_group_of_first_assignment_in_the_way() {
    let mut m = manager(false);
    m.compaction.compaction_statuses.clear();
    // Of one context, the assignment of least key decides.
    assert_eq!(m.release_contexts(&[2]), Err(Error::InvalidCompactionGroup(10)));
    // Of several contexts, the first in the list decides.
    m.compaction.compact_task_assignment.remove(&200);
    assert_eq!(m.release_contexts(&[1, 2]), Err(Error::InvalidCompactionGroup(10)));
    assert_eq!(m.release_contexts(&[2, 1]), Err(Error::InvalidCompactionGroup(20)));
    assert_eq!(m.release_contexts(&[7, 2, 1, 2]), Err(Error::InvalidCompactionGroup(20)));
    assert_eq!(stage_release(&m.compaction, &m.versioning, &[2, 1]).err(),
        Some(Error::InvalidCompactionGroup(20)));
}

#[test]
fn test_release_keeps_tasks_of_kept_assignments() {
    let mut m = manager(false);
    assert_eq!(m.release_contexts(&[2]), Ok(()));
    // Context 1 keeps task 100, and the status of its group still holds it.
    assert!(m.compaction.compact_task_assignment.contains_key(&100));
    assert!(m.compaction.compaction_statuses[&10].is_pending_task(100));
}

#[test]
fn test_release_store_failure_changes_nothing() {
    let mut m = manager(true);
    let before = image(&m);
    assert_eq!(
        m.release_contexts(&[1, 2]),
        Err(Error::MetaStore(MetaStoreError::TransactionAbort))
    );
    assert_eq!(image(&m), before);
    check_state_consistency(&m);
}

#[test]
fn test_check_context() {
    let m = manager(false);
    assert!(m.check_context(1));
    assert!(!m.check_context(2));
    assert!(!m.check_context(0));
}

#[test]
fn test_release_invalid_contexts() {
    let mut m = manager(false);
    assert_eq!(m.release_invalid_contexts(), Ok(vec![2]));
    check_state_consistency(&m);
    let keys: Vec<u64> = m.compaction.compact_task_assignment.keys().copied().collect();
    assert_eq!(keys, vec![100]);
    assert_eq!(m.compaction.compact_task_assignment[&100].context_id, 1);
    assert!(m.compaction.compaction_statuses[&10].is_pending_task(100));
    assert_eq!(m.versioning.pinned_versions.keys().copied().collect::<Vec<u32>>(), vec![1]);
    assert_eq!(m.versioning.pinned_snapshots.keys().copied().collect::<Vec<u32>>(), vec![1]);
    // Nothing invalid is left.
    assert_eq!(m.release_invalid_contexts(), Ok(vec![]));
}

#[test]
fn test_release_invalid_contexts_in_ascending_order() {
    let mut m = manager(false);
    m.versioning.pinned_versions.insert(9, HummockPinnedVersion { context_id: 9, min_pinned_id: 1 });
    m.versioning
        .pinned_snapshots
        .insert(5, HummockPinnedSnapshot { context_id: 5, minimal_pinned_snapshot: 1 });
    m.meta_store.pinned_versions.insert(9);
    m.meta_store.pinned_snapshots.insert(5);
    assert_eq!(m.release_invalid_contexts(), Ok(vec![2, 5, 9]));
    check_state_consistency(&m);
}

#[test]
fn test_release_invalid_contexts_store_failure() {
    let mut m = manager(true);
    let before = image(&m);
    assert_eq!(
        m.release_invalid_contexts(),
        Err(Error::MetaStore(MetaStoreError::TransactionAbort))
    );
    assert_eq!(image(&m), before);
}

#[test]
fn test_referenced_contexts() {
    let mut m = manager(false);
    assert_eq!(referenced_contexts(&m.compaction, &m.versioning), vec![1, 2]);
    m.versioning.pinned_versions.insert(0, HummockPinnedVersion { context_id: 0, min_pinned_id: 1 });
    m.versioning
        .pinned_snapshots
        .insert(8, HummockPinnedSnapshot { context_id: 8, minimal_pinned_snapshot: 1 });
    assert_eq!(referenced_contexts(&m.compaction, &m.versioning), vec![0, 1, 2, 8]);
    assert_eq!(invalid_contexts(&m.cluster_manager, &[0, 1, 2, 8]), vec![0, 2, 8]);
    assert_eq!(invalid_contexts(&m.cluster_manager, &[8, 1, 8, 2]), vec![8, 8, 2]);
    assert_eq!(invalid_contexts(&m.cluster_manager, &[]), vec![]);
}

#[test]
fn test_stage_release_orders_the_changes() {
    let mut m = manager(false);
    m.versioning.pinned_versions.insert(0, HummockPinnedVersion { context_id: 0, min_pinned_id: 1 });
    let trx = stage_release(&m.compaction, &m.versioning, &[2, 0, 1]).unwrap();
    let mut status10 = CompactStatus::new(10, 2);
    let mut status20 = CompactStatus::new(20, 2);
    for s in [&mut status10, &mut status20] {
        assert_eq!(s.level_count(), 3);
    }
    assert_eq!(
        trx.operations(),
        &vec![
            Operation::PutCompactStatus(10, status10),
            Operation::PutCompactStatus(20, status20),
            Operation::DeleteCompactTaskAssignment(100),
            Operation::DeleteCompactTaskAssignment(200),
            Operation::DeleteCompactTaskAssignment(300),
            Operation::DeletePinnedVersion(0),
            Operation::DeletePinnedVersion(1),
            Operation::DeletePinnedVersion(2),
            Operation::DeletePinnedSnapshot(1),
            Operation::DeletePinnedSnapshot(2),
        ]
    );
    // Nothing has changed before the transaction is applied.
    assert_eq!(m.compaction.compact_task_assignment.len(), 3);
    apply_transaction(&mut m.compaction, &mut m.versioning, trx);
    assert!(m.compaction.compact_task_assignment.is_empty());
    assert!(m.versioning.pinned_versions.is_empty());
    assert!(m.versioning.pinned_snapshots.is_empty());
    assert_eq!(m.compaction.compaction_statuses[&10], CompactStatus::new(10, 2));
}

#[test]
fn test_stage_release_of_nothing_is_empty() {
    let m = manager(false);
    let trx = stage_release(&m.compaction, &m.versioning, &[7]).unwrap();
    assert!(trx.operations().is_empty());
    assert_eq!(trx, Transaction::new());
}

#[test]
fn test_commit_release_hands_on_the_answer_of_the_store() {
    let mut m = manager(false);
    let before = image(&m);
    let trx = stage_release(&m.compaction, &m.versioning, &[1]).unwrap();
    assert_eq!(
        m.commit_release(trx, Err(MetaStoreError::Internal)),
        Err(Error::MetaStore(MetaStoreError::Internal))
    );
    assert_eq!(image(&m), before);
    let trx = stage_release(&m.compaction, &m.versioning, &[1]).unwrap();
    assert_eq!(m.commit_release(trx, Ok(())), Ok(()));
    assert!(!m.versioning.pinned_versions.contains_key(&1));
    assert!(m.versioning.pinned_versions.contains_key(&2));
}

#[test]
fn test_transaction_keeps_the_order_of_its_changes() {
    let mut trx = Transaction::new();
    trx.add(Operation::DeletePinnedSnapshot(3));
    trx.add(Operation::DeleteCompactTaskAssignment(9));
    assert_eq!(
        trx.operations(),
        &vec![Operation::DeletePinnedSnapshot(3), Operation::DeleteCompactTaskAssignment(9)]
    );
    assert_eq!(
        trx.into_operations(),
        vec![Operation::DeletePinnedSnapshot(3), Operation::DeleteCompactTaskAssignment(9)]
    );
}

#[test]
fn test_level_handler() {
    let mut level = LevelHandler::new(3);
    assert!(!level.is_pending_task(1));
    level.add_pending_task(1, 4, vec![10, 11]);
    level.add_pending_task(2, 4, vec![12]);
    level.add_pending_task(1, 4, vec![13]);
    assert!(level.is_pending_task(1));
    assert!(level.is_pending_compact(11));
    assert!(level.is_pending_compact(13));
    assert_eq!(level.duplicate(), level);
    level.remove_task(1);
    assert!(!level.is_pending_task(1));
    assert!(level.is_pending_task(2));
    assert!(!level.is_pending_compact(10));
    assert!(!level.is_pending_compact(13));
    assert!(level.is_pending_compact(12));
    let mut expected = LevelHandler::new(3);
    expected.add_pending_task(2, 4, vec![12]);
    assert_eq!(level, expected);
    level.remove_task(7);
    assert_eq!(level, expected);
}

#[test]
fn test_report_compact_task_clears_every_level() {
    let mut status = CompactStatus::new(1, 3);
    status.add_pending_task(0, 5, 1, vec![1]);
    status.add_pending_task(1, 5, 1, vec![2]);
    status.add_pending_task(3, 6, 3, vec![3]);
    let copy = status.duplicate();
    assert_eq!(copy, status);
    assert_eq!(status.compaction_group_id(), 1);
    status.report_compact_task(&task(5, 1));
    assert!(!status.is_pending_task(5));
    assert!(status.is_pending_task(6));
    assert!(!status.is_pending_compact(0, 1));
    assert!(!status.is_pending_compact(1, 2));
    assert!(status.is_pending_compact(3, 3));
    assert!(!status.is_pending_compact(9, 3));
    let mut expected = CompactStatus::new(1, 3);
    expected.add_pending_task(3, 6, 3, vec![3]);
    assert_eq!(status, expected);
    assert!(copy.is_pending_task(5));
}
