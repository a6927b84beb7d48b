//! The manager of versions, snapshots and compaction tasks: which context
//! holds what, and how a context's hold is released.

use crate::cluster::ClusterManager;
use crate::compaction::{
    CompactStatus, CompactStatusView, CompactTaskAssignment, HummockPinnedSnapshot,
    HummockPinnedVersion,
};
use crate::store::{MetaStore, MetaStoreError, Operation, OperationView, Transaction};
use std::collections::BTreeMap;
use vstd::prelude::*;

verus! {

broadcast use vstd::std_specs::btree::group_btree_axioms;

/// Why an operation of the manager failed.
#[derive(Debug, Clone, Copy, PartialEq, Eq, Structural)]
pub enum Error {
    /// A task belongs to a compaction group that has no status.
    InvalidCompactionGroup(u64),
    /// The store did not commit the change.
    MetaStore(MetaStoreError),
}

/// The compaction state: the status of each group and who carries out which task.
#[derive(Debug, PartialEq, Eq)]
pub struct Compaction {
    pub compaction_statuses: BTreeMap<u64, CompactStatus>,
    pub compact_task_assignment: BTreeMap<u64, CompactTaskAssignment>,
}

/// The versioning state: what each context has pinned.
#[derive(Debug, PartialEq, Eq)]
pub struct Versioning {
    pub pinned_versions: BTreeMap<u32, HummockPinnedVersion>,
    pub pinned_snapshots: BTreeMap<u32, HummockPinnedSnapshot>,
}

/// The four maps of the metadata, as mathematics sees them.
#[verifier::ext_equal]
pub struct MetaState {
    pub compaction_statuses: Map<u64, CompactStatusView>,
    pub compact_task_assignment: Map<u64, CompactTaskAssignment>,
    pub pinned_versions: Map<u32, HummockPinnedVersion>,
    pub pinned_snapshots: Map<u32, HummockPinnedSnapshot>,
}

/// What one change makes of the four maps.
pub open spec fn apply_op(s: MetaState, op: OperationView) -> MetaState {
    match op {
        OperationView::PutCompactStatus(group, status) => MetaState {
            compaction_statuses: s.compaction_statuses.insert(group, status),
            ..s
        },
        OperationView::DeleteCompactTaskAssignment(task) => MetaState {
            compact_task_assignment: s.compact_task_assignment.remove(task),
            ..s
        },
        OperationView::DeletePinnedVersion(context) => MetaState {
            pinned_versions: s.pinned_versions.remove(context),
            ..s
        },
        OperationView::DeletePinnedSnapshot(context) => MetaState {
            pinned_snapshots: s.pinned_snapshots.remove(context),
            ..s
        },
    }
}

/// What a list of changes, made one after the other, makes of the four maps.
pub open spec fn apply_ops(s: MetaState, ops: Seq<OperationView>) -> MetaState
    decreases ops.len(),
{
    if ops.len() == 0 {
        s
    } else {
        apply_op(apply_ops(s, ops.drop_last()), ops.last())
    }
}

/// One more change is made after the others.
pub proof fn lemma_apply_ops_push(s: MetaState, ops: Seq<OperationView>, op: OperationView)
    ensures
        apply_ops(s, ops.push(op)) == apply_op(apply_ops(s, ops), op),
{
    assert(ops.push(op).drop_last() =~= ops);
}

impl Compaction {
    /// The status of each group, by its view.
    pub open spec fn statuses(&self) -> Map<u64, CompactStatusView> {
        self.compaction_statuses@.map_values(|s: CompactStatus| s@)
    }
}

/// The state of the four maps in `compaction` and `versioning`.
pub open spec fn state_of(compaction: &Compaction, versioning: &Versioning) -> MetaState {
    MetaState {
        compaction_statuses: compaction.statuses(),
        compact_task_assignment: compaction.compact_task_assignment@,
        pinned_versions: versioning.pinned_versions@,
        pinned_snapshots: versioning.pinned_snapshots@,
    }
}

/// Makes the changes of `trx` to the maps in memory, one after the other.
pub fn apply_transaction(compaction: &mut Compaction, versioning: &mut Versioning, trx: Transaction)
    ensures
        state_of(final(compaction), final(versioning)) == apply_ops(
            state_of(old(compaction), old(versioning)),
            trx@,
        ),
{
    let ghost start = state_of(compaction, versioning);
    let ghost all = trx@;
    let ops = trx.into_operations();
    for op in it: ops
        invariant
            it.seq().map_values(|op: Operation| op@) == all,
            state_of(compaction, versioning) == apply_ops(
                start,
                all.take(it.index()),
            ),
    {
        let ghost before = state_of(compaction, versioning);
        proof {
            crate::seqs::lemma_take_step(all, it.index());
            lemma_apply_ops_push(start, all.take(it.index()), op@);
        }
        match op {
            Operation::PutCompactStatus(group, status) => {
                compaction.compaction_statuses.insert(group, status);
                proof {
                    assert(compaction.statuses() =~= before.compaction_statuses.insert(
                        group,
                        status@,
                    ));
                }
            },
            Operation::DeleteCompactTaskAssignment(task) => {
                compaction.compact_task_assignment.remove(&task);
            },
            Operation::DeletePinnedVersion(context) => {
                versioning.pinned_versions.remove(&context);
            },
            Operation::DeletePinnedSnapshot(context) => {
                versioning.pinned_snapshots.remove(&context);
            },
        }
    }
    proof {
        crate::seqs::lemma_take_all(all);
    }
}


impl MetaState {
    /// Whether the assignment under `key` belongs to one of the contexts `ids`.
    pub open spec fn releases(self, ids: Set<u32>, key: u64) -> bool {
        self.compact_task_assignment.contains_key(key) && ids.contains(
            self.compact_task_assignment[key].context_id,
        )
    }

    /// The compaction group of the task assigned under `key`.
    pub open spec fn group_of(self, key: u64) -> u64 {
        self.compact_task_assignment[key].compact_task.compaction_group_id
    }

    /// The id of the task assigned under `key`.
    pub open spec fn task_of(self, key: u64) -> u64 {
        self.compact_task_assignment[key].compact_task.task_id
    }

    /// The tasks of group `group` that the contexts `ids` carry out.
    pub open spec fn released_tasks(self, ids: Set<u32>, group: u64) -> Set<u64> {
        Set::new(
            |t: u64|
                exists|key: u64|
                    #[trigger] self.releases(ids, key) && self.task_of(key) == t && self.group_of(
                        key,
                    ) == group,
        )
    }

    /// Whether one of the contexts `ids` carries out a task of group `group`.
    pub open spec fn touches(self, ids: Set<u32>, group: u64) -> bool {
        exists|key: u64| #[trigger] self.releases(ids, key) && self.group_of(key) == group
    }

    /// Whether the assignment under `key` belongs to one of the contexts `ids`
    /// and names a compaction group without a status.
    pub open spec fn blocking(self, ids: Set<u32>, key: u64) -> bool {
        self.releases(ids, key) && !self.compaction_statuses.contains_key(self.group_of(key))
    }

    /// Whether the contexts `ids` cannot be released.
    pub open spec fn blocked(self, ids: Set<u32>) -> bool {
        exists|key: u64| self.blocking(ids, key)
    }

    /// Whether the assignment under `key` belongs to context `id` and names a
    /// compaction group without a status.
    pub open spec fn blocks(self, id: u32, key: u64) -> bool {
        self.compact_task_assignment.contains_key(key)
            && self.compact_task_assignment[key].context_id == id
            && !self.compaction_statuses.contains_key(self.group_of(key))
    }

    /// Whether no assignment of context `id` names a compaction group without
    /// a status.
    pub open spec fn unblocked(self, id: u32) -> bool {
        forall|k: u64| !self.blocks(id, k)
    }

    /// Whether the assignment under `key` is the first that stands in the way
    /// of the release of `ids`: it belongs to the first of `ids`, at place
    /// `i`, of which an assignment names a compaction group without a
    /// status, and is the one of least key among these.
    pub open spec fn first_blocking(self, ids: Seq<u32>, i: int, key: u64) -> bool {
        &&& 0 <= i < ids.len()
        &&& self.blocks(ids[i], key)
        &&& forall|k: u64| k < key ==> !self.blocks(ids[i], k)
        &&& forall|j: int| 0 <= j < i ==> self.unblocked(#[trigger] ids[j])
    }

    /// The state once the contexts `ids` have been released: the tasks they
    /// carried out are given up in the status of their group, their
    /// assignments are gone, and so is all that they had pinned.
    pub open spec fn released(self, ids: Set<u32>) -> MetaState {
        MetaState {
            compaction_statuses: Map::new(
                |g: u64| self.compaction_statuses.contains_key(g),
                |g: u64| self.compaction_statuses[g].without_tasks(self.released_tasks(ids, g)),
            ),
            compact_task_assignment: self.compact_task_assignment.remove_keys(
                Set::new(|key: u64| self.releases(ids, key)),
            ),
            pinned_versions: self.pinned_versions.remove_keys(ids),
            pinned_snapshots: self.pinned_snapshots.remove_keys(ids),
        }
    }

    /// Whether an assignment or a pin names context `id`.
    pub open spec fn references(self, id: u32) -> bool {
        ||| exists|key: u64|
            self.compact_task_assignment.contains_key(key)
                && (#[trigger] self.compact_task_assignment[key]).context_id == id
        ||| self.pinned_versions.contains_key(id)
        ||| self.pinned_snapshots.contains_key(id)
    }
}

/// After the release, nothing names a released context: no assignment, no
/// pinned version and no pinned snapshot belongs to it, and no task that it
/// carried out is left in the status of the task's group.
pub proof fn lemma_released_is_unreferenced(s: MetaState, ids: Set<u32>, id: u32)
    requires
        ids.contains(id),
    ensures
        !s.released(ids).references(id),
        forall|key: u64|
            s.releases(ids, key) && s.compaction_statuses.contains_key(s.group_of(key))
                ==> !(#[trigger] s.released(ids).compaction_statuses[s.group_of(key)]).has_task(
                s.task_of(key),
            ),
{
    let r = s.released(ids);
    assert forall|key: u64| r.compact_task_assignment.contains_key(key) implies (
    #[trigger] r.compact_task_assignment[key]).context_id != id by {
        assert(!s.releases(ids, key));
    }
    assert forall|key: u64|
        s.releases(ids, key) && s.compaction_statuses.contains_key(
            s.group_of(key),
        ) implies !(#[trigger] r.compaction_statuses[s.group_of(key)]).has_task(
        s.task_of(key),
    ) by {
        let g = s.group_of(key);
        assert(s.released_tasks(ids, g).contains(s.task_of(key)));
        s.compaction_statuses[g].lemma_without_tasks_has_none(
            s.released_tasks(ids, g),
            s.task_of(key),
        );
    }
}

/// A release leaves in the status of a group every task that no released
/// assignment names.
pub proof fn lemma_release_keeps_other_tasks(s: MetaState, ids: Set<u32>, group: u64, task: u64)
    requires
        s.compaction_statuses.contains_key(group),
        !s.released_tasks(ids, group).contains(task),
    ensures
        s.released(ids).compaction_statuses.contains_key(group),
        s.released(ids).compaction_statuses[group].has_task(task)
            == s.compaction_statuses[group].has_task(task),
{
    s.compaction_statuses[group].lemma_without_tasks_keeps_others(
        s.released_tasks(ids, group),
        task,
    );
}

/// An assignment that a release keeps still has its task in the status of
/// its group, unless a released assignment names the same task of the same
/// group.
pub proof fn lemma_kept_assignment_keeps_its_entry(s: MetaState, ids: Set<u32>, key: u64)
    requires
        s.compact_task_assignment.contains_key(key),
        !s.releases(ids, key),
        s.compaction_statuses.contains_key(s.group_of(key)),
        s.compaction_statuses[s.group_of(key)].has_task(s.task_of(key)),
        forall|k: u64|
            #[trigger] s.releases(ids, k) ==> s.task_of(k) != s.task_of(key) || s.group_of(k)
                != s.group_of(key),
    ensures
        s.released(ids).compact_task_assignment.contains_key(key),
        s.released(ids).compact_task_assignment[key] == s.compact_task_assignment[key],
        s.released(ids).compaction_statuses[s.group_of(key)].has_task(s.task_of(key)),
{
    lemma_release_keeps_other_tasks(s, ids, s.group_of(key), s.task_of(key));
}

/// Releasing the same contexts a second time changes nothing, and cannot be
/// refused for a group without a status.
pub proof fn lemma_release_idempotent(s: MetaState, ids: Set<u32>)
    ensures
        !s.released(ids).blocked(ids),
        s.released(ids).released(ids) == s.released(ids),
{
    let r = s.released(ids);
    assert forall|key: u64| !r.releases(ids, key) by {
        if r.compact_task_assignment.contains_key(key) {
            assert(!s.releases(ids, key));
        }
    }
    assert forall|g: u64| r.released_tasks(ids, g) == Set::<u64>::empty() by {
        assert(r.released_tasks(ids, g) =~= Set::<u64>::empty());
    }
    let rr = r.released(ids);
    assert forall|g: u64| r.compaction_statuses.contains_key(g) implies rr.compaction_statuses[g]
        == r.compaction_statuses[g] by {
        r.compaction_statuses[g].lemma_without_no_tasks();
    }
    assert(rr.compaction_statuses =~= r.compaction_statuses);
    assert(rr.compact_task_assignment =~= r.compact_task_assignment);
    assert(rr.pinned_versions =~= r.pinned_versions);
    assert(rr.pinned_snapshots =~= r.pinned_snapshots);
}

/// A release touches no context outside `ids`: what such a context holds of
/// assignments and pins is as it was.
pub proof fn lemma_release_keeps_others(s: MetaState, ids: Set<u32>, id: u32)
    requires
        !ids.contains(id),
    ensures
        s.released(ids).pinned_versions.contains_key(id) == s.pinned_versions.contains_key(id),
        s.pinned_versions.contains_key(id) ==> s.released(ids).pinned_versions[id]
            == s.pinned_versions[id],
        s.released(ids).pinned_snapshots.contains_key(id) == s.pinned_snapshots.contains_key(id),
        s.pinned_snapshots.contains_key(id) ==> s.released(ids).pinned_snapshots[id]
            == s.pinned_snapshots[id],
        forall|key: u64|
            s.compact_task_assignment.contains_key(key) && (
            #[trigger] s.compact_task_assignment[key]).context_id == id ==> s.released(
                ids,
            ).compact_task_assignment.contains_key(key) && s.released(
                ids,
            ).compact_task_assignment[key] == s.compact_task_assignment[key],
{
}


/// Whether `ids` holds `id`.
fn holds_context(ids: &[u32], id: u32) -> (r: bool)
    ensures
        r == ids@.to_set().contains(id),
{
    let mut i: usize = 0;
    while i < ids.len()
        invariant
            i <= ids.len(),
            forall|j: int| 0 <= j < i ==> ids@[j] != id,
        decreases ids.len() - i,
    {
        if ids[i] == id {
            return true;
        }
        i = i + 1;
    }
    false
}

/// Whether `key` is among the first `n` keys and an assignment of `ids`.
spec fn scanned(s: MetaState, ids: Set<u32>, keys: Seq<u64>, n: int, key: u64) -> bool {
    exists|j: int| 0 <= j < n && #[trigger] keys[j] == key && s.releases(ids, keys[j])
}

/// Whether one of the first `n` keys is an assignment of `ids` in group `group`.
spec fn touched(s: MetaState, ids: Set<u32>, keys: Seq<u64>, n: int, group: u64) -> bool {
    exists|j: int| 0 <= j < n && s.releases(ids, #[trigger] keys[j]) && s.group_of(keys[j]) == group
}

/// The tasks of `group` that the assignments of `ids` among the first `n` keys name.
spec fn scanned_tasks(s: MetaState, ids: Set<u32>, keys: Seq<u64>, n: int, group: u64) -> Set<
    u64,
> {
    Set::new(
        |t: u64|
            exists|j: int|
                0 <= j < n && s.releases(ids, #[trigger] keys[j]) && s.task_of(keys[j]) == t
                    && s.group_of(keys[j]) == group,
    )
}

proof fn lemma_scan_step(s: MetaState, ids: Set<u32>, keys: Seq<u64>, n: int, group: u64)
    requires
        0 <= n < keys.len(),
    ensures
        !s.releases(ids, keys[n]) || s.group_of(keys[n]) != group ==> touched(
            s,
            ids,
            keys,
            n + 1,
            group,
        ) == touched(s, ids, keys, n, group) && scanned_tasks(s, ids, keys, n + 1, group)
            == scanned_tasks(s, ids, keys, n, group),
        s.releases(ids, keys[n]) && s.group_of(keys[n]) == group ==> touched(
            s,
            ids,
            keys,
            n + 1,
            group,
        ) && scanned_tasks(s, ids, keys, n + 1, group) == scanned_tasks(
            s,
            ids,
            keys,
            n,
            group,
        ).union(set![s.task_of(keys[n])]),
        !touched(s, ids, keys, n, group) ==> scanned_tasks(s, ids, keys, n, group)
            == Set::<u64>::empty(),
{
    let a = scanned_tasks(s, ids, keys, n, group);
    let b = scanned_tasks(s, ids, keys, n + 1, group);
    if s.releases(ids, keys[n]) && s.group_of(keys[n]) == group {
        let t0 = s.task_of(keys[n]);
        assert forall|t: u64| b.contains(t) == a.union(set![t0]).contains(t) by {
            if a.contains(t) {
                let j = choose|j: int|
                    0 <= j < n && s.releases(ids, #[trigger] keys[j]) && s.task_of(keys[j]) == t
                        && s.group_of(keys[j]) == group;
                assert(0 <= j < n + 1);
            }
            if t == t0 {
                assert(s.releases(ids, keys[n]));
            }
        }
        assert(b =~= a.union(set![t0]));
    } else {
        assert forall|t: u64| b.contains(t) == a.contains(t) by {
            if a.contains(t) {
                let j = choose|j: int|
                    0 <= j < n && s.releases(ids, #[trigger] keys[j]) && s.task_of(keys[j]) == t
                        && s.group_of(keys[j]) == group;
                assert(0 <= j < n + 1);
            }
        }
        assert(b =~= a);
        if touched(s, ids, keys, n, group) {
            let j = choose|j: int|
                0 <= j < n && s.releases(ids, #[trigger] keys[j]) && s.group_of(keys[j]) == group;
            assert(0 <= j < n + 1);
        }
    }
    if !touched(s, ids, keys, n, group) {
        assert(a =~= Set::<u64>::empty());
    }
}

proof fn lemma_scan_done(s: MetaState, ids: Set<u32>, keys: Seq<u64>, group: u64)
    requires
        keys.to_set() == s.compact_task_assignment.dom(),
    ensures
        scanned_tasks(s, ids, keys, keys.len() as int, group) == s.released_tasks(ids, group),
        touched(s, ids, keys, keys.len() as int, group) == (exists|key: u64|
            #[trigger] s.releases(ids, key) && s.group_of(key) == group),
{
    let a = scanned_tasks(s, ids, keys, keys.len() as int, group);
    let b = s.released_tasks(ids, group);
    assert forall|t: u64| a.contains(t) == b.contains(t) by {
        if b.contains(t) {
            let key = choose|key: u64|
                #[trigger] s.releases(ids, key) && s.task_of(key) == t && s.group_of(key) == group;
            assert(keys.to_set().contains(key));
            let j = choose|j: int| 0 <= j < keys.len() && keys[j] == key;
            assert(s.releases(ids, keys[j]));
        }
    }
    assert(a =~= b);
    if exists|key: u64| #[trigger] s.releases(ids, key) && s.group_of(key) == group {
        let key = choose|key: u64| #[trigger] s.releases(ids, key) && s.group_of(key) == group;
        assert(keys.to_set().contains(key));
        let j = choose|j: int| 0 <= j < keys.len() && keys[j] == key;
        assert(s.releases(ids, keys[j]));
    }
}

proof fn lemma_scan_step_all(s: MetaState, ids: Set<u32>, keys: Seq<u64>, n: int)
    requires
        0 <= n < keys.len(),
    ensures
        forall|group: u64|
            #![trigger touched(s, ids, keys, n + 1, group)]
            #![trigger scanned_tasks(s, ids, keys, n + 1, group)]
            {
                &&& !s.releases(ids, keys[n]) || s.group_of(keys[n]) != group ==> touched(
                    s,
                    ids,
                    keys,
                    n + 1,
                    group,
                ) == touched(s, ids, keys, n, group) && scanned_tasks(s, ids, keys, n + 1, group)
                    == scanned_tasks(s, ids, keys, n, group)
                &&& s.releases(ids, keys[n]) && s.group_of(keys[n]) == group ==> touched(
                    s,
                    ids,
                    keys,
                    n + 1,
                    group,
                ) && scanned_tasks(s, ids, keys, n + 1, group) == scanned_tasks(
                    s,
                    ids,
                    keys,
                    n,
                    group,
                ).union(set![s.task_of(keys[n])])
            },
        forall|group: u64|
            !(#[trigger] touched(s, ids, keys, n, group)) ==> scanned_tasks(s, ids, keys, n, group)
                == Set::<u64>::empty(),
{
    assert forall|group: u64|
        #![trigger touched(s, ids, keys, n + 1, group)]
        #![trigger scanned_tasks(s, ids, keys, n + 1, group)]
        {
            &&& !s.releases(ids, keys[n]) || s.group_of(keys[n]) != group ==> touched(
                s,
                ids,
                keys,
                n + 1,
                group,
            ) == touched(s, ids, keys, n, group) && scanned_tasks(s, ids, keys, n + 1, group)
                == scanned_tasks(s, ids, keys, n, group)
            &&& s.releases(ids, keys[n]) && s.group_of(keys[n]) == group ==> touched(
                s,
                ids,
                keys,
                n + 1,
                group,
            ) && scanned_tasks(s, ids, keys, n + 1, group) == scanned_tasks(
                s,
                ids,
                keys,
                n,
                group,
            ).union(set![s.task_of(keys[n])])
        } by {
        lemma_scan_step(s, ids, keys, n, group);
    }
    assert forall|group: u64| !(#[trigger] touched(s, ids, keys, n, group)) implies scanned_tasks(
        s,
        ids,
        keys,
        n,
        group,
    ) == Set::<u64>::empty() by {
        lemma_scan_step(s, ids, keys, n, group);
    }
}

proof fn lemma_scan_done_all(s: MetaState, ids: Set<u32>, keys: Seq<u64>)
    requires
        keys.to_set() == s.compact_task_assignment.dom(),
    ensures
        forall|group: u64|
            #![trigger s.released_tasks(ids, group)]
            scanned_tasks(s, ids, keys, keys.len() as int, group) == s.released_tasks(ids, group),
        forall|group: u64| #[trigger]
            touched(s, ids, keys, keys.len() as int, group) == (exists|key: u64|
                #[trigger] s.releases(ids, key) && s.group_of(key) == group),
{
    assert forall|group: u64|
        #![trigger s.released_tasks(ids, group)]
        scanned_tasks(s, ids, keys, keys.len() as int, group) == s.released_tasks(
            ids,
            group,
        ) by {
        lemma_scan_done(s, ids, keys, group);
    }
    assert forall|group: u64| #[trigger]
        touched(s, ids, keys, keys.len() as int, group) == (exists|key: u64|
            #[trigger] s.releases(ids, key) && s.group_of(key) == group) by {
        lemma_scan_done(s, ids, keys, group);
    }
}

/// The compaction group without a status that the first assignment in the
/// way of the release of `ids` names: the contexts are taken in the order of
/// `ids`, and the assignments of one context by ascending key.
fn first_blocked_group(
    compaction: &Compaction,
    ids: &[u32],
    keys: &Vec<u64>,
    Ghost(s): Ghost<MetaState>,
) -> (group: u64)
    requires
        s.compaction_statuses == compaction.statuses(),
        s.compact_task_assignment == compaction.compact_task_assignment@,
        keys@.to_set() == s.compact_task_assignment.dom(),
        crate::ordered::ascending_u64(keys@),
        s.blocked(ids@.to_set()),
    ensures
        exists|i: int, key: u64| #[trigger] s.first_blocking(ids@, i, key) && group == s.group_of(key),
{
    let mut i: usize = 0;
    while i < ids.len()
        invariant
            i <= ids.len(),
            s.compaction_statuses == compaction.statuses(),
            s.compact_task_assignment == compaction.compact_task_assignment@,
            keys@.to_set() == s.compact_task_assignment.dom(),
            crate::ordered::ascending_u64(keys@),
            forall|j: int| 0 <= j < i ==> s.unblocked(#[trigger] ids@[j]),
        decreases ids.len() - i,
    {
        let id = ids[i];
        let mut n: usize = 0;
        while n < keys.len()
            invariant
                n <= keys.len(),
                i < ids.len(),
                id == ids@[i as int],
                s.compaction_statuses == compaction.statuses(),
                s.compact_task_assignment == compaction.compact_task_assignment@,
                keys@.to_set() == s.compact_task_assignment.dom(),
                crate::ordered::ascending_u64(keys@),
                forall|j: int| 0 <= j < i ==> s.unblocked(#[trigger] ids@[j]),
                forall|m: int| 0 <= m < n ==> !s.blocks(id, #[trigger] keys@[m]),
            decreases keys.len() - n,
        {
            let key = keys[n];
            proof {
                assert(keys@.to_set().contains(keys@[n as int]));
            }
            let assignment = compaction.compact_task_assignment.get(&key).unwrap();
            let group = assignment.compact_task.compaction_group_id;
            if assignment.context_id == id && compaction.compaction_statuses.get(&group).is_none() {
                proof {
                    assert(s.blocks(id, key));
                    assert forall|k: u64| k < key implies !s.blocks(id, k) by {
                        if s.blocks(id, k) {
                            assert(keys@.to_set().contains(k));
                            let m = choose|m: int| 0 <= m < keys@.len() && keys@[m] == k;
                            if m >= n {
                                assert(keys@[n as int] <= keys@[m]);
                            }
                        }
                    }
                    assert(s.first_blocking(ids@, i as int, key));
                }
                return group;
            }
            n = n + 1;
        }
        proof {
            assert forall|k: u64| !s.blocks(id, k) by {
                if s.blocks(id, k) {
                    assert(keys@.to_set().contains(k));
                    let m = choose|m: int| 0 <= m < keys@.len() && keys@[m] == k;
                    assert(!s.blocks(id, keys@[m]));
                }
            }
            assert(s.unblocked(ids@[i as int]));
        }
        i = i + 1;
    }
    proof {
        let key = choose|key: u64| s.blocking(ids@.to_set(), key);
        let id = s.compact_task_assignment[key].context_id;
        assert(ids@.contains(id));
        let j = choose|j: int| 0 <= j < ids@.len() && ids@[j] == id;
        assert(s.unblocked(ids@[j]));
        assert(s.blocks(id, key));
        assert(false);
    }
    0
}

/// The new status of each group that the release of `ids` touches, and the
/// keys of the assignments that it removes.
fn stage_statuses(compaction: &Compaction, ids: &[u32], Ghost(s): Ghost<MetaState>) -> (r: Result<
    (BTreeMap<u64, CompactStatus>, Vec<u64>),
    Error,
>)
    requires
        s.compaction_statuses == compaction.statuses(),
        s.compact_task_assignment == compaction.compact_task_assignment@,
    ensures
        match r {
            Ok((staged, removed)) => {
                &&& !s.blocked(ids@.to_set())
                &&& forall|g: u64| #[trigger]
                    staged@.contains_key(g) == (exists|key: u64|
                        #[trigger] s.releases(ids@.to_set(), key) && s.group_of(key) == g)
                &&& forall|g: u64| #[trigger]
                    staged@.contains_key(g) ==> s.compaction_statuses.contains_key(g)
                        && staged@[g]@ == s.compaction_statuses[g].without_tasks(
                        s.released_tasks(ids@.to_set(), g),
                    )
                &&& crate::ordered::ascending_u64(removed@)
                &&& forall|key: u64| removed@.contains(key) == s.releases(ids@.to_set(), key)
            },
            Err(e) => {
                exists|i: int, key: u64| #[trigger]
                    s.first_blocking(ids@, i, key) && e == Error::InvalidCompactionGroup(
                        s.group_of(key),
                    )
            },
        },
{
    let ghost idset = ids@.to_set();
    let keys = crate::ordered::keys_u64(&compaction.compact_task_assignment);
    let mut staged: BTreeMap<u64, CompactStatus> = BTreeMap::new();
    let mut removed: Vec<u64> = Vec::new();
    let mut i: usize = 0;
    while i < keys.len()
        invariant
            i <= keys.len(),
            idset == ids@.to_set(),
            s.compaction_statuses == compaction.statuses(),
            s.compact_task_assignment == compaction.compact_task_assignment@,
            keys@.to_set() == s.compact_task_assignment.dom(),
            crate::ordered::ascending_u64(keys@),
            forall|j: int| 0 <= j < i ==> !s.blocking(idset, #[trigger] keys@[j]),
            crate::ordered::ascending_u64(removed@),
            forall|m: int|
                0 <= m < removed@.len() ==> scanned(s, idset, keys@, i as int, #[trigger] removed@[m]),
            forall|j: int|
                0 <= j < i && s.releases(idset, #[trigger] keys@[j]) ==> removed@.contains(
                    keys@[j],
                ),
            forall|g: u64| #[trigger] staged@.contains_key(g) == touched(s, idset, keys@, i as int, g),
            forall|g: u64| #[trigger]
                staged@.contains_key(g) ==> s.compaction_statuses.contains_key(g) && staged@[g]@
                    == s.compaction_statuses[g].without_tasks(
                    scanned_tasks(s, idset, keys@, i as int, g),
                ),
        decreases keys.len() - i,
    {
        let key = keys[i];
        proof {
            assert(keys@.to_set().contains(keys@[i as int]));
            lemma_scan_step_all(s, idset, keys@, i as int);
        }
        let assignment = compaction.compact_task_assignment.get(&key);
        let assignment = assignment.unwrap();
        if holds_context(ids, assignment.context_id) {
            let group = assignment.compact_task.compaction_group_id;
            let ghost task = assignment.compact_task.task_id;
            let ghost had = scanned_tasks(s, idset, keys@, i as int, group);
            let mut next = match staged.get(&group) {
                Some(status) => status.duplicate(),
                None => match compaction.compaction_statuses.get(&group) {
                    Some(status) => {
                        proof {
                            s.compaction_statuses[group].lemma_without_no_tasks();
                        }
                        status.duplicate()
                    },
                    None => {
                        proof {
                            assert(s.blocking(idset, key));
                            assert(s.blocked(ids@.to_set()));
                        }
                        let blocked = first_blocked_group(compaction, ids, &keys, Ghost(s));
                        return Err(Error::InvalidCompactionGroup(blocked));
                    },
                },
            };
            proof {
                assert(next@ == s.compaction_statuses[group].without_tasks(had));
                s.compaction_statuses[group].lemma_without_tasks_twice(had, set![task]);
            }
            next.report_compact_task(&assignment.compact_task);
            staged.insert(group, next);
            proof {
                assert forall|m: int| 0 <= m < removed@.len() implies removed@[m] < key by {
                    let j = choose|j: int|
                        0 <= j < i && keys@[j] == removed@[m] && s.releases(idset, keys@[j]);
                    assert(keys@[j] < keys@[i as int]);
                }
            }
            let ghost earlier = removed@;
            removed.push(key);
            proof {
                assert(removed@.last() == key);
                assert forall|m: int| 0 <= m < removed@.len() implies scanned(
                    s,
                    idset,
                    keys@,
                    i + 1,
                    #[trigger] removed@[m],
                ) by {
                    if m < removed@.len() - 1 {
                        assert(earlier[m] == removed@[m]);
                        let j = choose|j: int|
                            0 <= j < i && keys@[j] == removed@[m] && s.releases(idset, keys@[j]);
                        assert(0 <= j < i + 1);
                    } else {
                        assert(keys@[i as int] == removed@[m]);
                    }
                }
                assert forall|j: int|
                    0 <= j < i + 1 && s.releases(
                        idset,
                        #[trigger] keys@[j],
                    ) implies removed@.contains(keys@[j]) by {
                    if j < i {
                        assert(earlier.contains(keys@[j]));
                        let m = choose|m: int| 0 <= m < earlier.len() && earlier[m] == keys@[j];
                        assert(removed@[m] == keys@[j]);
                    } else {
                        assert(removed@[removed@.len() - 1] == keys@[j]);
                    }
                }
            }
        } else {
            proof {
                assert forall|m: int| 0 <= m < removed@.len() implies scanned(
                    s,
                    idset,
                    keys@,
                    i + 1,
                    #[trigger] removed@[m],
                ) by {
                    let j = choose|j: int|
                        0 <= j < i && keys@[j] == removed@[m] && s.releases(idset, keys@[j]);
                    assert(0 <= j < i + 1);
                }
            }
        }
        i = i + 1;
    }
    proof {
        lemma_scan_done_all(s, idset, keys@);
        assert(!s.blocked(idset)) by {
            if s.blocked(idset) {
                let k = choose|k: u64| s.blocking(idset, k);
                assert(keys@.to_set().contains(k));
                let j = choose|j: int| 0 <= j < keys@.len() && keys@[j] == k;
                assert(!s.blocking(idset, keys@[j]));
            }
        }
        assert forall|key: u64| removed@.contains(key) == s.releases(idset, key) by {
            if removed@.contains(key) {
                let m = choose|m: int| 0 <= m < removed@.len() && removed@[m] == key;
                let j = choose|j: int|
                    0 <= j < i && keys@[j] == removed@[m] && s.releases(idset, keys@[j]);
            }
            if s.releases(idset, key) {
                assert(keys@.to_set().contains(key));
                let j = choose|j: int| 0 <= j < keys@.len() && keys@[j] == key;
                assert(s.releases(idset, keys@[j]));
            }
        }
    }
    Ok((staged, removed))
}


/// The statuses once the groups `done` have got their new status.
spec fn statuses_after(s: MetaState, ids: Set<u32>, done: Seq<u64>) -> Map<u64, CompactStatusView> {
    Map::new(
        |g: u64| s.compaction_statuses.contains_key(g),
        |g: u64|
            if done.contains(g) {
                s.compaction_statuses[g].without_tasks(s.released_tasks(ids, g))
            } else {
                s.compaction_statuses[g]
            },
    )
}

/// The changes that store the new status of each of `groups`.
pub open spec fn status_puts(s: MetaState, ids: Set<u32>, groups: Seq<u64>) -> Seq<OperationView> {
    groups.map_values(
        |g: u64|
            OperationView::PutCompactStatus(
                g,
                s.compaction_statuses[g].without_tasks(s.released_tasks(ids, g)),
            ),
    )
}

/// The changes that remove the assignments under `tasks`.
pub open spec fn assignment_deletes(tasks: Seq<u64>) -> Seq<OperationView> {
    tasks.map_values(|t: u64| OperationView::DeleteCompactTaskAssignment(t))
}

/// The changes that remove what the contexts `contexts` have pinned of the versions.
pub open spec fn version_deletes(contexts: Seq<u32>) -> Seq<OperationView> {
    contexts.map_values(|c: u32| OperationView::DeletePinnedVersion(c))
}

/// The changes that remove what the contexts `contexts` have pinned of the snapshots.
pub open spec fn snapshot_deletes(contexts: Seq<u32>) -> Seq<OperationView> {
    contexts.map_values(|c: u32| OperationView::DeletePinnedSnapshot(c))
}

/// The changes of a release, part after part.
pub open spec fn release_ops(
    s: MetaState,
    ids: Set<u32>,
    groups: Seq<u64>,
    tasks: Seq<u64>,
    versions: Seq<u32>,
    snapshots: Seq<u32>,
) -> Seq<OperationView> {
    status_puts(s, ids, groups) + assignment_deletes(tasks) + version_deletes(versions)
        + snapshot_deletes(snapshots)
}

/// Whether `ops` is the transaction that releases the contexts `ids`: it
/// stores the new status of every compaction group in which one of the
/// contexts carries out a task, then removes the assignments of the
/// contexts, then what they have pinned of the versions, then what they have
/// pinned of the snapshots, each part by ascending key and each key once.
pub open spec fn is_release_transaction(s: MetaState, ids: Set<u32>, ops: Seq<OperationView>) -> bool {
    exists|groups: Seq<u64>, tasks: Seq<u64>, versions: Seq<u32>, snapshots: Seq<u32>|
        {
            &&& ops == #[trigger] release_ops(s, ids, groups, tasks, versions, snapshots)
            &&& crate::ordered::ascending_u64(groups)
            &&& forall|g: u64| groups.contains(g) == s.touches(ids, g)
            &&& crate::ordered::ascending_u64(tasks)
            &&& forall|key: u64| tasks.contains(key) == s.releases(ids, key)
            &&& crate::ordered::ascending_u32(versions)
            &&& forall|c: u32|
                versions.contains(c) == (ids.contains(c) && s.pinned_versions.contains_key(c))
            &&& crate::ordered::ascending_u32(snapshots)
            &&& forall|c: u32|
                snapshots.contains(c) == (ids.contains(c) && s.pinned_snapshots.contains_key(c))
        }
}

/// The contexts among `keys` that are in `ids`.
spec fn unpinned(ids: Set<u32>, keys: Seq<u32>) -> Set<u32> {
    Set::new(|c: u32| ids.contains(c) && keys.contains(c))
}

/// Adds to `trx` the change that removes what a context has pinned, for each
/// of the ascending `keys` that is in `ids`: of the snapshots where
/// `snapshots` is set, else of the versions. Returns the contexts chosen.
fn stage_unpins(
    trx: &mut Transaction,
    keys: &Vec<u32>,
    ids: &[u32],
    snapshots: bool,
    Ghost(s): Ghost<MetaState>,
    Ghost(pinned): Ghost<Set<u32>>,
) -> (chosen: Ghost<Seq<u32>>)
    requires
        crate::ordered::ascending_u32(keys@),
        keys@.to_set() == pinned,
        pinned == if snapshots {
            apply_ops(s, old(trx)@).pinned_snapshots.dom()
        } else {
            apply_ops(s, old(trx)@).pinned_versions.dom()
        },
    ensures
        final(trx)@ == old(trx)@ + if snapshots {
            snapshot_deletes(chosen@)
        } else {
            version_deletes(chosen@)
        },
        crate::ordered::ascending_u32(chosen@),
        forall|c: u32| chosen@.contains(c) == (ids@.to_set().contains(c) && pinned.contains(c)),
        apply_ops(s, final(trx)@) == if snapshots {
            MetaState {
                pinned_snapshots: apply_ops(s, old(trx)@).pinned_snapshots.remove_keys(
                    ids@.to_set(),
                ),
                ..apply_ops(s, old(trx)@)
            }
        } else {
            MetaState {
                pinned_versions: apply_ops(s, old(trx)@).pinned_versions.remove_keys(
                    ids@.to_set(),
                ),
                ..apply_ops(s, old(trx)@)
            }
        },
{
    let ghost idset = ids@.to_set();
    let ghost start = apply_ops(s, trx@);
    let ghost base = trx@;
    let ghost mut chosen: Seq<u32> = Seq::empty();
    let mut n: usize = 0;
    proof {
        assert(start.pinned_versions.remove_keys(unpinned(idset, keys@.take(0)))
            =~= start.pinned_versions);
        assert(start.pinned_snapshots.remove_keys(unpinned(idset, keys@.take(0)))
            =~= start.pinned_snapshots);
        assert(base + snapshot_deletes(chosen) =~= base);
        assert(base + version_deletes(chosen) =~= base);
    }
    while n < keys.len()
        invariant
            n <= keys.len(),
            idset == ids@.to_set(),
            base == old(trx)@,
            start == apply_ops(s, base),
            keys@.to_set() == pinned,
            pinned == if snapshots {
                start.pinned_snapshots.dom()
            } else {
                start.pinned_versions.dom()
            },
            crate::ordered::ascending_u32(keys@),
            crate::ordered::ascending_u32(chosen),
            forall|c: u32| chosen.contains(c) == unpinned(idset, keys@.take(n as int)).contains(c),
            trx@ == base + if snapshots {
                snapshot_deletes(chosen)
            } else {
                version_deletes(chosen)
            },
            apply_ops(s, trx@) == if snapshots {
                MetaState {
                    pinned_snapshots: start.pinned_snapshots.remove_keys(
                        unpinned(idset, keys@.take(n as int)),
                    ),
                    ..start
                }
            } else {
                MetaState {
                    pinned_versions: start.pinned_versions.remove_keys(
                        unpinned(idset, keys@.take(n as int)),
                    ),
                    ..start
                }
            },
        decreases keys.len() - n,
    {
        let context = keys[n];
        let ghost earlier = chosen;
        proof {
            crate::seqs::lemma_take_step(keys@, n as int);
            lemma_unpinned_step(idset, keys@, n as int);
        }
        if holds_context(ids, context) {
            let ghost had = chosen;
            proof {
                assert forall|x: int| 0 <= x < chosen.len() implies chosen[x] < context by {
                    assert(chosen.contains(chosen[x]));
                    assert(keys@.take(n as int).contains(chosen[x]));
                    let y = choose|y: int| 0 <= y < n && keys@.take(n as int)[y] == chosen[x];
                    assert(keys@[y] < keys@[n as int]);
                }
                chosen = chosen.push(context);
                crate::seqs::lemma_push_contains(had, context);
                if snapshots {
                    lemma_apply_ops_push(s, trx@, OperationView::DeletePinnedSnapshot(context));
                    assert(start.pinned_snapshots.remove_keys(
                        unpinned(idset, keys@.take(n as int)),
                    ).remove(context) =~= start.pinned_snapshots.remove_keys(
                        unpinned(idset, keys@.take(n + 1)),
                    ));
                    assert((base + snapshot_deletes(had)).push(
                        OperationView::DeletePinnedSnapshot(context),
                    ) =~= base + snapshot_deletes(chosen));
                } else {
                    lemma_apply_ops_push(s, trx@, OperationView::DeletePinnedVersion(context));
                    assert(start.pinned_versions.remove_keys(
                        unpinned(idset, keys@.take(n as int)),
                    ).remove(context) =~= start.pinned_versions.remove_keys(
                        unpinned(idset, keys@.take(n + 1)),
                    ));
                    assert((base + version_deletes(had)).push(
                        OperationView::DeletePinnedVersion(context),
                    ) =~= base + version_deletes(chosen));
                }
            }
            if snapshots {
                trx.add(Operation::DeletePinnedSnapshot(context));
            } else {
                trx.add(Operation::DeletePinnedVersion(context));
            }
        }
        proof {
            assert forall|c: u32|
                chosen.contains(c) == unpinned(idset, keys@.take(n + 1)).contains(c) by {
                assert(earlier.contains(c) == unpinned(idset, keys@.take(n as int)).contains(c));
            }
        }
        n = n + 1;
    }
    proof {
        crate::seqs::lemma_take_all(keys@);
        assert forall|c: u32| pinned.contains(c) == keys@.contains(c) by {
            assert(keys@.to_set().contains(c) == keys@.contains(c));
        }
        if snapshots {
            assert(start.pinned_snapshots.remove_keys(unpinned(idset, keys@))
                =~= start.pinned_snapshots.remove_keys(idset));
        } else {
            assert(start.pinned_versions.remove_keys(unpinned(idset, keys@))
                =~= start.pinned_versions.remove_keys(idset));
        }
    }
    Ghost(chosen)
}

/// The transaction that releases the contexts `ids`, or the reason why they
/// cannot be released.
///
/// The transaction stores the new status of every compaction group in which
/// one of the contexts carries out a task, then removes the assignments of
/// the contexts, then what they have pinned of the versions, then what they
/// have pinned of the snapshots, each by ascending key. Made to the state, it
/// gives the released state. The release is refused where an assignment of
/// one of the contexts names a compaction group without a status; the error
/// names the group of the first such assignment, the contexts taken in the
/// order of `ids` and the assignments of one context by ascending key.
pub fn stage_release(compaction: &Compaction, versioning: &Versioning, ids: &[u32]) -> (r: Result<
    Transaction,
    Error,
>)
    ensures
        match r {
            Ok(trx) => {
                let s = state_of(compaction, versioning);
                &&& !s.blocked(ids@.to_set())
                &&& is_release_transaction(s, ids@.to_set(), trx@)
                &&& apply_ops(s, trx@) == s.released(ids@.to_set())
            },
            Err(e) => {
                let s = state_of(compaction, versioning);
                exists|i: int, key: u64| #[trigger]
                    s.first_blocking(ids@, i, key) && e == Error::InvalidCompactionGroup(
                        s.group_of(key),
                    )
            },
        },
{
    let ghost s = state_of(compaction, versioning);
    let ghost idset = ids@.to_set();
    let (mut staged, removed) = match stage_statuses(compaction, ids, Ghost(s)) {
        Ok(pair) => pair,
        Err(e) => {
            return Err(e);
        },
    };
    let ghost staged0 = staged@;
    let mut trx = Transaction::new();
    let groups = crate::ordered::keys_u64(&staged);
    let mut j: usize = 0;
    proof {
        assert(statuses_after(s, idset, groups@.take(0)) =~= s.compaction_statuses);
        assert(trx@ =~= status_puts(s, idset, groups@.take(0)));
    }
    while j < groups.len()
        invariant
            j <= groups.len(),
            crate::ordered::ascending_u64(groups@),
            groups@.to_set() == staged0.dom(),
            forall|g: u64| #[trigger]
                staged0.contains_key(g) ==> s.compaction_statuses.contains_key(g) && staged0[g]@
                    == s.compaction_statuses[g].without_tasks(s.released_tasks(idset, g)),
            forall|k: int|
                j <= k < groups@.len() ==> staged@.contains_key(#[trigger] groups@[k])
                    && staged@[groups@[k]] == staged0[groups@[k]],
            trx@ == status_puts(s, idset, groups@.take(j as int)),
            apply_ops(s, trx@) == (MetaState {
                compaction_statuses: statuses_after(s, idset, groups@.take(j as int)),
                ..s
            }),
        decreases groups.len() - j,
    {
        let group = groups[j];
        let ghost before = apply_ops(s, trx@);
        let ghost had = trx@;
        proof {
            assert(groups@.to_set().contains(groups@[j as int]));
            crate::seqs::lemma_take_step(groups@, j as int);
        }
        match staged.remove(&group) {
            Some(status) => {
                proof {
                    lemma_apply_ops_push(s, trx@, OperationView::PutCompactStatus(group, status@));
                    crate::seqs::lemma_push_contains(groups@.take(j as int), group);
                    assert(before.compaction_statuses.insert(group, status@) =~= statuses_after(
                        s,
                        idset,
                        groups@.take(j + 1),
                    ));
                    assert(had.push(OperationView::PutCompactStatus(group, status@))
                        =~= status_puts(s, idset, groups@.take(j + 1)));
                }
                trx.add(Operation::PutCompactStatus(group, status));
            },
            None => {},
        }
        proof {
            assert forall|k: int| j + 1 <= k < groups@.len() implies staged@.contains_key(
                #[trigger] groups@[k],
            ) && staged@[groups@[k]] == staged0[groups@[k]] by {
                assert(groups@[j as int] < groups@[k]);
            }
        }
        j = j + 1;
    }
    proof {
        crate::seqs::lemma_take_all(groups@);
        assert forall|g: u64| groups@.contains(g) == s.touches(idset, g) by {
            assert(groups@.to_set().contains(g) == groups@.contains(g));
        }
        assert(statuses_after(s, idset, groups@) =~= s.released(idset).compaction_statuses) by {
            assert forall|g: u64|
                s.compaction_statuses.contains_key(g) && !groups@.contains(
                    g,
                ) implies s.compaction_statuses[g] == s.compaction_statuses[g].without_tasks(
                s.released_tasks(idset, g),
            ) by {
                assert(s.released_tasks(idset, g) =~= Set::<u64>::empty());
                s.compaction_statuses[g].lemma_without_no_tasks();
            }
        }
        assert(s.compact_task_assignment.remove_keys(removed@.take(0).to_set())
            =~= s.compact_task_assignment);
        assert(trx@ =~= status_puts(s, idset, groups@) + assignment_deletes(removed@.take(0)));
    }
    let mut m: usize = 0;
    while m < removed.len()
        invariant
            m <= removed.len(),
            trx@ == status_puts(s, idset, groups@) + assignment_deletes(removed@.take(m as int)),
            apply_ops(s, trx@) == (MetaState {
                compaction_statuses: s.released(idset).compaction_statuses,
                compact_task_assignment: s.compact_task_assignment.remove_keys(
                    removed@.take(m as int).to_set(),
                ),
                ..s
            }),
        decreases removed.len() - m,
    {
        let ghost had = trx@;
        proof {
            lemma_apply_ops_push(
                s,
                trx@,
                OperationView::DeleteCompactTaskAssignment(removed@[m as int]),
            );
            crate::seqs::lemma_take_step(removed@, m as int);
            removed@.take(m as int).lemma_push_to_set_commute(removed@[m as int]);
            assert(s.compact_task_assignment.remove_keys(removed@.take(m as int).to_set()).remove(
                removed@[m as int],
            ) =~= s.compact_task_assignment.remove_keys(removed@.take(m + 1).to_set()));
            assert(had.push(OperationView::DeleteCompactTaskAssignment(removed@[m as int]))
                =~= status_puts(s, idset, groups@) + assignment_deletes(removed@.take(m + 1)));
        }
        trx.add(Operation::DeleteCompactTaskAssignment(removed[m]));
        m = m + 1;
    }
    proof {
        crate::seqs::lemma_take_all(removed@);
        assert(removed@.to_set() =~= Set::new(|key: u64| s.releases(idset, key)));
    }
    let versions = crate::ordered::keys_u32(&versioning.pinned_versions);
    let unpinned_versions = stage_unpins(
        &mut trx,
        &versions,
        ids,
        false,
        Ghost(s),
        Ghost(s.pinned_versions.dom()),
    );
    let snapshots = crate::ordered::keys_u32(&versioning.pinned_snapshots);
    let unpinned_snapshots = stage_unpins(
        &mut trx,
        &snapshots,
        ids,
        true,
        Ghost(s),
        Ghost(s.pinned_snapshots.dom()),
    );
    proof {
        assert(trx@ =~= release_ops(
            s,
            idset,
            groups@,
            removed@,
            unpinned_versions@,
            unpinned_snapshots@,
        ));
        assert(apply_ops(s, trx@) =~= s.released(idset));
    }
    Ok(trx)
}

proof fn lemma_unpinned_step(ids: Set<u32>, keys: Seq<u32>, n: int)
    requires
        0 <= n < keys.len(),
    ensures
        ids.contains(keys[n]) ==> unpinned(ids, keys.take(n + 1)) == unpinned(
            ids,
            keys.take(n),
        ).insert(keys[n]),
        !ids.contains(keys[n]) ==> unpinned(ids, keys.take(n + 1)) == unpinned(ids, keys.take(n)),
{
    crate::seqs::lemma_take_step(keys, n);
    crate::seqs::lemma_push_contains(keys.take(n), keys[n]);
    if ids.contains(keys[n]) {
        assert(unpinned(ids, keys.take(n + 1)) =~= unpinned(ids, keys.take(n)).insert(keys[n]));
    } else {
        assert(unpinned(ids, keys.take(n + 1)) =~= unpinned(ids, keys.take(n)));
    }
}


/// The manager of the metadata: the four maps, the registry of the workers
/// and the store to which every change is committed first.
pub struct HummockManager<S: MetaStore> {
    pub meta_store: S,
    pub cluster_manager: ClusterManager,
    pub compaction: Compaction,
    pub versioning: Versioning,
}

impl<S: MetaStore> HummockManager<S> {
    /// The state of the four maps.
    pub open spec fn state(&self) -> MetaState {
        state_of(&self.compaction, &self.versioning)
    }

    /// The contexts that an assignment or a pin names and that are no live workers.
    pub open spec fn invalid_contexts(&self) -> Set<u32> {
        Set::new(|id: u32| self.state().references(id) && !self.cluster_manager.is_active(id))
    }

    pub fn new(
        meta_store: S,
        cluster_manager: ClusterManager,
        compaction: Compaction,
        versioning: Versioning,
    ) -> (m: Self)
        ensures
            m.meta_store == meta_store,
            m.cluster_manager == cluster_manager,
            m.compaction == compaction,
            m.versioning == versioning,
    {
        HummockManager { meta_store, cluster_manager, compaction, versioning }
    }

    /// Ends a release once the store has answered: on `Ok` the changes of
    /// `trx` are made to the maps in memory, on `Err` the maps stay as they
    /// are and the store's error is handed on.
    pub fn commit_release(&mut self, trx: Transaction, committed: Result<(), MetaStoreError>) -> (r:
        Result<(), Error>)
        ensures
            final(self).cluster_manager == old(self).cluster_manager,
            final(self).meta_store == old(self).meta_store,
            match committed {
                Ok(()) => r == Ok::<(), Error>(()) && final(self).state() == apply_ops(
                    old(self).state(),
                    trx@,
                ),
                Err(e) => r == Err::<(), Error>(Error::MetaStore(e)) && final(self).state() == old(self).state(),
            },
    {
        match committed {
            Ok(()) => {
                apply_transaction(&mut self.compaction, &mut self.versioning, trx);
                Ok(())
            },
            Err(e) => Err(Error::MetaStore(e)),
        }
    }

    /// Releases what the contexts `context_ids` hold: the tasks they carry out
    /// are given up in the status of their compaction group, their assignments
    /// are removed, and so is what they have pinned of versions and snapshots.
    ///
    /// The change is committed to the store first, as one transaction; the
    /// maps in memory change only if the store accepts it. So after `Ok`
    /// the state is the released state and nothing names one of the contexts,
    /// and after `Err` the state is what it was. The release is refused with
    /// `InvalidCompactionGroup`, and the store is not asked, exactly where an
    /// assignment of one of the contexts names a compaction group without a
    /// status; the error names the group of the first such assignment, the
    /// contexts taken in the order of `context_ids` and the assignments of
    /// one context by ascending key. Otherwise the store decides.
    pub fn release_contexts(&mut self, context_ids: &[u32]) -> (r: Result<(), Error>)
        ensures
            final(self).cluster_manager == old(self).cluster_manager,
            match r {
                Ok(()) => !old(self).state().blocked(context_ids@.to_set()) && final(self).state()
                    == old(self).state().released(context_ids@.to_set()),
                Err(Error::InvalidCompactionGroup(group)) => final(self).state() == old(self).state()
                    && final(self).meta_store == old(self).meta_store && exists|i: int, key: u64|
                    #[trigger] old(self).state().first_blocking(context_ids@, i, key) && group
                        == old(self).state().group_of(key),
                Err(Error::MetaStore(_)) => final(self).state() == old(self).state() && !old(self).state().blocked(context_ids@.to_set()),
            },
            r is Ok ==> forall|id: u32|
                context_ids@.contains(id) ==> !(#[trigger] final(self).state().references(id)),
            r is Ok ==> forall|key: u64|
                old(self).state().releases(context_ids@.to_set(), key) ==> !(
                #[trigger] final(self).state().compaction_statuses[old(self).state().group_of(
                    key,
                )]).has_task(old(self).state().task_of(key)),
    {
        let trx = match stage_release(&self.compaction, &self.versioning, context_ids) {
            Ok(trx) => trx,
            Err(e) => {
                proof {
                    let s = self.state();
                    let (i, key) = choose|i: int, key: u64| #[trigger]
                        s.first_blocking(context_ids@, i, key) && e
                            == Error::InvalidCompactionGroup(s.group_of(key));
                    assert(s.first_blocking(context_ids@, i, key));
                    assert(e == Error::InvalidCompactionGroup(s.group_of(key)));
                }
                return Err(e);
            },
        };
        let committed = self.meta_store.txn(&trx);
        let r = self.commit_release(trx, committed);
        proof {
            if r is Ok {
                assert forall|id: u32| context_ids@.contains(id) implies !(#[trigger] final(self).state().references(id)) by {
                    lemma_released_is_unreferenced(old(self).state(), context_ids@.to_set(), id);
                }
                assert forall|key: u64|
                    old(self).state().releases(context_ids@.to_set(), key) implies !(
                #[trigger] final(self).state().compaction_statuses[old(self).state().group_of(
                    key,
                )]).has_task(old(self).state().task_of(key)) by {
                    let s0 = old(self).state();
                    assert(!s0.blocking(context_ids@.to_set(), key));
                    lemma_released_is_unreferenced(
                        s0,
                        context_ids@.to_set(),
                        s0.compact_task_assignment[key].context_id,
                    );
                }
            }
        }
        r
    }

    /// Whether `context_id` is a live worker.
    pub fn check_context(&self, context_id: u32) -> (r: bool)
        ensures
            r == self.cluster_manager.is_active(context_id),
    {
        self.cluster_manager.get_worker_by_id(context_id).is_some()
    }
}


/// The contexts to which the assignments under the first `n` keys belong.
spec fn owners(s: MetaState, keys: Seq<u64>, n: int) -> Set<u32> {
    Set::new(
        |c: u32| exists|j: int| 0 <= j < n && (#[trigger] s.compact_task_assignment[keys[j]]).context_id == c,
    )
}

proof fn lemma_owners_step(s: MetaState, keys: Seq<u64>, n: int)
    requires
        0 <= n < keys.len(),
    ensures
        owners(s, keys, n + 1) == owners(s, keys, n).insert(
            s.compact_task_assignment[keys[n]].context_id,
        ),
{
    let a = owners(s, keys, n);
    let b = owners(s, keys, n + 1);
    let c0 = s.compact_task_assignment[keys[n]].context_id;
    assert forall|c: u32| b.contains(c) == a.insert(c0).contains(c) by {
        if a.contains(c) {
            let j = choose|j: int|
                0 <= j < n && (#[trigger] s.compact_task_assignment[keys[j]]).context_id == c;
            assert(0 <= j < n + 1);
        }
        if c == c0 {
            assert(s.compact_task_assignment[keys[n]].context_id == c);
        }
    }
    assert(b =~= a.insert(c0));
}

/// The test that keeps the contexts that are no live workers.
pub open spec fn dead(cluster_manager: ClusterManager) -> spec_fn(u32) -> bool {
    |id: u32| !cluster_manager.is_active(id)
}

/// What is left of an ascending sequence is ascending.
proof fn lemma_filter_ascending(s: Seq<u32>, keep: spec_fn(u32) -> bool)
    requires
        crate::ordered::ascending_u32(s),
    ensures
        crate::ordered::ascending_u32(s.filter(keep)),
        forall|id: u32| s.filter(keep).contains(id) == (s.contains(id) && keep(id)),
    decreases s.len(),
{
    reveal(Seq::filter);
    if s.len() > 0 {
        let rest = s.drop_last();
        assert(crate::ordered::ascending_u32(rest)) by {
            assert forall|i: int, j: int| 0 <= i < j < rest.len() implies rest[i] < rest[j] by {
                assert(rest[i] == s[i] && rest[j] == s[j]);
            }
        }
        lemma_filter_ascending(rest, keep);
        let kept = rest.filter(keep);
        crate::seqs::lemma_push_contains(kept, s.last());
        crate::seqs::lemma_push_contains(rest, s.last());
        assert(rest.push(s.last()) =~= s);
        assert forall|id: u32| s.filter(keep).contains(id) == (s.contains(id) && keep(id)) by {
            assert(kept.contains(id) == (rest.contains(id) && keep(id)));
            assert(s.contains(id) == (rest.contains(id) || id == s.last()));
            if keep(s.last()) {
                assert(s.filter(keep) == kept.push(s.last()));
                assert(kept.push(s.last()).contains(id) == (kept.contains(id) || id == s.last()));
            } else {
                assert(s.filter(keep) == kept);
            }
        }
        if keep(s.last()) {
            assert forall|i: int, j: int| 0 <= i < j < kept.push(s.last()).len() implies kept.push(
                s.last(),
            )[i] < kept.push(s.last())[j] by {
                if j == kept.len() {
                    assert(kept.contains(kept[i]));
                    assert(rest.contains(kept[i]));
                    let k = choose|k: int| 0 <= k < rest.len() && rest[k] == kept[i];
                    assert(s[k] < s[s.len() - 1]);
                }
            }
        }
    }
}

/// The contexts that an assignment or a pin names, by ascending id.
pub fn referenced_contexts(compaction: &Compaction, versioning: &Versioning) -> (members: Vec<u32>)
    ensures
        crate::ordered::ascending_u32(members@),
        forall|id: u32| members@.contains(id) == state_of(compaction, versioning).references(id),
{
    let ghost s = state_of(compaction, versioning);
    let mut active: std::collections::BTreeSet<u32> = std::collections::BTreeSet::new();
    let keys = crate::ordered::keys_u64(&compaction.compact_task_assignment);
    let mut i: usize = 0;
    proof {
        assert(owners(s, keys@, 0) =~= Set::<u32>::empty());
    }
    while i < keys.len()
        invariant
            i <= keys.len(),
            s == state_of(compaction, versioning),
            keys@.to_set() == s.compact_task_assignment.dom(),
            active@ == owners(s, keys@, i as int),
        decreases keys.len() - i,
    {
        proof {
            assert(keys@.to_set().contains(keys@[i as int]));
            lemma_owners_step(s, keys@, i as int);
        }
        let assignment = compaction.compact_task_assignment.get(&keys[i]).unwrap();
        active.insert(assignment.context_id);
        i = i + 1;
    }
    let ghost owning = active@;
    let versions = crate::ordered::keys_u32(&versioning.pinned_versions);
    let mut n: usize = 0;
    proof {
        assert(versions@.take(0).to_set() =~= Set::<u32>::empty());
        assert(active@ =~= owning.union(versions@.take(0).to_set()));
    }
    while n < versions.len()
        invariant
            n <= versions.len(),
            active@ == owning.union(versions@.take(n as int).to_set()),
        decreases versions.len() - n,
    {
        proof {
            crate::seqs::lemma_take_step(versions@, n as int);
            versions@.take(n as int).lemma_push_to_set_commute(versions@[n as int]);
        }
        active.insert(versions[n]);
        n = n + 1;
    }
    let snapshots = crate::ordered::keys_u32(&versioning.pinned_snapshots);
    let mut n: usize = 0;
    proof {
        crate::seqs::lemma_take_all(versions@);
        assert(snapshots@.take(0).to_set() =~= Set::<u32>::empty());
        assert(active@ =~= owning.union(versions@.to_set()).union(
            snapshots@.take(0).to_set(),
        ));
    }
    while n < snapshots.len()
        invariant
            n <= snapshots.len(),
            active@ == owning.union(versions@.to_set()).union(snapshots@.take(n as int).to_set()),
        decreases snapshots.len() - n,
    {
        proof {
            crate::seqs::lemma_take_step(snapshots@, n as int);
            snapshots@.take(n as int).lemma_push_to_set_commute(snapshots@[n as int]);
        }
        active.insert(snapshots[n]);
        n = n + 1;
    }
    let members = crate::ordered::members_u32(&active);
    proof {
        crate::seqs::lemma_take_all(versions@);
        crate::seqs::lemma_take_all(snapshots@);
        assert forall|id: u32| members@.contains(id) == s.references(id) by {
            assert(members@.to_set().contains(id) == members@.contains(id));
            if owning.contains(id) {
                let j = choose|j: int|
                    0 <= j < keys@.len() && (
                    #[trigger] s.compact_task_assignment[keys@[j]]).context_id == id;
                assert(keys@.to_set().contains(keys@[j]));
            }
            if exists|key: u64|
                s.compact_task_assignment.contains_key(key) && (
                #[trigger] s.compact_task_assignment[key]).context_id == id {
                let key = choose|key: u64|
                    s.compact_task_assignment.contains_key(key) && (
                    #[trigger] s.compact_task_assignment[key]).context_id == id;
                assert(keys@.to_set().contains(key));
                let j = choose|j: int| 0 <= j < keys@.len() && keys@[j] == key;
                assert(s.compact_task_assignment[keys@[j]].context_id == id);
                assert(owning.contains(id));
            }
            assert(versions@.to_set().contains(id) == s.pinned_versions.contains_key(id));
            assert(snapshots@.to_set().contains(id) == s.pinned_snapshots.contains_key(id));
        }
    }
    members
}


/// Those of `contexts` that are no live workers, in their order.
pub fn invalid_contexts(cluster_manager: &ClusterManager, contexts: &[u32]) -> (invalid: Vec<u32>)
    ensures
        invalid@ == contexts@.filter(dead(*cluster_manager)),
{
    let ghost keep = dead(*cluster_manager);
    let mut invalid: Vec<u32> = Vec::new();
    let mut i: usize = 0;
    proof {
        assert(contexts@.take(0).filter(keep) =~= Seq::<u32>::empty()) by {
            reveal(Seq::filter);
        }
    }
    while i < contexts.len()
        invariant
            i <= contexts.len(),
            keep == dead(*cluster_manager),
            invalid@ == contexts@.take(i as int).filter(keep),
        decreases contexts.len() - i,
    {
        proof {
            crate::seqs::lemma_take_step(contexts@, i as int);
            contexts@.take(i as int).lemma_filter_push(contexts@[i as int], keep);
        }
        if cluster_manager.get_worker_by_id(contexts[i]).is_none() {
            invalid.push(contexts[i]);
        }
        i = i + 1;
    }
    proof {
        crate::seqs::lemma_take_all(contexts@);
    }
    invalid
}

impl<S: MetaStore> HummockManager<S> {
    /// Releases the contexts that an assignment or a pin names and that are no
    /// live workers, and returns them by ascending id.
    ///
    /// The release is that of `release_contexts` for exactly these contexts;
    /// on `Err` nothing has changed.
    pub fn release_invalid_contexts(&mut self) -> (r: Result<Vec<u32>, Error>)
        ensures
            final(self).cluster_manager == old(self).cluster_manager,
            match r {
                Ok(invalid) => {
                    &&& crate::ordered::ascending_u32(invalid@)
                    &&& invalid@.to_set() == old(self).invalid_contexts()
                    &&& !old(self).state().blocked(old(self).invalid_contexts())
                    &&& final(self).state() == old(self).state().released(
                        old(self).invalid_contexts(),
                    )
                },
                Err(Error::InvalidCompactionGroup(group)) => final(self).state() == old(self).state()
                    && final(self).meta_store == old(self).meta_store && exists|
                    invalid: Seq<u32>,
                    i: int,
                    key: u64,
                |
                    {
                        &&& #[trigger] old(self).state().first_blocking(invalid, i, key)
                        &&& crate::ordered::ascending_u32(invalid)
                        &&& invalid.to_set() == old(self).invalid_contexts()
                        &&& group == old(self).state().group_of(key)
                    },
                Err(Error::MetaStore(_)) => final(self).state() == old(self).state() && !old(
                    self).state().blocked(old(self).invalid_contexts()),
            },
    {
        let members = referenced_contexts(&self.compaction, &self.versioning);
        let invalid = invalid_contexts(&self.cluster_manager, members.as_slice());
        proof {
            lemma_filter_ascending(members@, dead(self.cluster_manager));
            assert forall|id: u32|
                invalid@.to_set().contains(id) == self.invalid_contexts().contains(id) by {
                assert(invalid@.contains(id) == (members@.contains(id) && dead(
                    self.cluster_manager,
                )(id)));
            }
            assert(invalid@.to_set() =~= self.invalid_contexts());
        }
        match self.release_contexts(invalid.as_slice()) {
            Ok(()) => Ok(invalid),
            Err(e) => {
                proof {
                    if e is InvalidCompactionGroup {
                        let s = old(self).state();
                        let (i, key) = choose|i: int, key: u64| #[trigger]
                            s.first_blocking(invalid@, i, key) && e->InvalidCompactionGroup_0
                                == s.group_of(key);
                        assert(s.first_blocking(invalid@, i, key));
                    }
                }
                Err(e)
            },
        }
    }
}

} // verus!
