//! Compaction bookkeeping of one compaction group, and the assignment of
//! tasks to contexts.

use crate::task::CompactTask;
use vstd::prelude::*;

verus! {

pub type HummockContextId = u32;

pub struct RunningCompactTaskView {
    pub task_id: u64,
    pub target_level: u32,
    pub ssts: Seq<u64>,
}

/// A task in progress on a level, with the tables it has taken.
#[derive(Debug, PartialEq, Eq)]
pub struct RunningCompactTask {
    pub task_id: u64,
    pub target_level: u32,
    pub ssts: Vec<u64>,
}

impl View for RunningCompactTask {
    type V = RunningCompactTaskView;

    open spec fn view(&self) -> RunningCompactTaskView {
        RunningCompactTaskView {
            task_id: self.task_id,
            target_level: self.target_level,
            ssts: self.ssts@,
        }
    }
}

/// The test that keeps the tasks whose id is not in `tasks`.
pub open spec fn not_among(tasks: Set<u64>) -> spec_fn(RunningCompactTaskView) -> bool {
    |p: RunningCompactTaskView| !tasks.contains(p.task_id)
}

pub struct LevelHandlerView {
    pub level: u32,
    pub pending_tasks: Seq<RunningCompactTaskView>,
}

impl LevelHandlerView {
    /// This level without the tasks in `tasks`; the others keep their order.
    pub open spec fn without_tasks(self, tasks: Set<u64>) -> LevelHandlerView {
        LevelHandlerView {
            level: self.level,
            pending_tasks: self.pending_tasks.filter(not_among(tasks)),
        }
    }

    /// Whether task `task_id` is in progress on this level.
    pub open spec fn has_task(self, task_id: u64) -> bool {
        exists|i: int|
            0 <= i < self.pending_tasks.len() && (#[trigger] self.pending_tasks[i]).task_id
                == task_id
    }

    /// Whether a task in progress on this level has taken table `sst_id`.
    pub open spec fn is_pending_compact(self, sst_id: u64) -> bool {
        exists|i: int|
            0 <= i < self.pending_tasks.len() && (#[trigger] self.pending_tasks[i]).ssts.contains(
                sst_id,
            )
    }
}

/// The tasks in progress on one level.
#[derive(Debug, PartialEq, Eq)]
pub struct LevelHandler {
    level: u32,
    pending_tasks: Vec<RunningCompactTask>,
}

impl View for LevelHandler {
    type V = LevelHandlerView;

    closed spec fn view(&self) -> LevelHandlerView {
        LevelHandlerView {
            level: self.level,
            pending_tasks: self.pending_tasks@.map_values(|p: RunningCompactTask| p@),
        }
    }
}

/// Whether `ssts` holds `sst_id`.
fn holds_sst(ssts: &Vec<u64>, sst_id: u64) -> (r: bool)
    ensures
        r == ssts@.contains(sst_id),
{
    let mut i: usize = 0;
    while i < ssts.len()
        invariant
            i <= ssts.len(),
            forall|j: int| 0 <= j < i ==> ssts@[j] != sst_id,
        decreases ssts.len() - i,
    {
        if ssts[i] == sst_id {
            return true;
        }
        i = i + 1;
    }
    false
}

impl LevelHandler {
    /// A level on which no task runs.
    pub fn new(level: u32) -> (h: LevelHandler)
        ensures
            h@ == (LevelHandlerView { level, pending_tasks: Seq::empty() }),
    {
        let h = LevelHandler { level, pending_tasks: Vec::new() };
        proof {
            assert(h@.pending_tasks =~= Seq::empty());
        }
        h
    }

    /// Records that task `task_id` has taken the tables `ssts` of this level.
    pub fn add_pending_task(&mut self, task_id: u64, target_level: u32, ssts: Vec<u64>)
        ensures
            final(self)@ == (LevelHandlerView {
                level: old(self)@.level,
                pending_tasks: old(self)@.pending_tasks.push(
                    RunningCompactTaskView { task_id, target_level, ssts: ssts@ },
                ),
            }),
    {
        self.pending_tasks.push(RunningCompactTask { task_id, target_level, ssts });
        proof {
            assert(final(self)@.pending_tasks =~= old(self)@.pending_tasks.push(
                RunningCompactTaskView { task_id, target_level, ssts: ssts@ },
            ));
        }
    }

    /// Forgets task `task_id`: its tables are free for another task.
    pub fn remove_task(&mut self, task_id: u64)
        ensures
            final(self)@ == old(self)@.without_tasks(set![task_id]),
    {
        let ghost before = self@.pending_tasks;
        let ghost keep = not_among(set![task_id]);
        let mut i: usize = 0;
        let ghost mut seen: int = 0;
        proof {
            assert(before.take(0).filter(keep) =~= Seq::empty()) by {
                reveal(Seq::filter);
            }
            assert(before.skip(0) =~= before);
            assert(self@.pending_tasks =~= before.take(0).filter(keep) + before.skip(0));
        }
        while i < self.pending_tasks.len()
            invariant
                self.level == old(self).level,
                before == old(self)@.pending_tasks,
                keep == not_among(set![task_id]),
                0 <= seen <= before.len(),
                i == before.take(seen).filter(keep).len(),
                self@.pending_tasks == before.take(seen).filter(keep) + before.skip(seen),
            decreases before.len() - seen,
        {
            let ghost cur = self@.pending_tasks;
            proof {
                assert(cur.len() == i + (before.len() - seen));
                assert(cur[i as int] == before[seen]);
                crate::seqs::lemma_take_step(before, seen);
                before.take(seen).lemma_filter_push(before[seen], keep);
            }
            if self.pending_tasks[i].task_id == task_id {
                self.pending_tasks.remove(i);
                proof {
                    assert(self@.pending_tasks =~= cur.remove(i as int));
                    assert(cur.remove(i as int) =~= before.take(seen + 1).filter(keep)
                        + before.skip(seen + 1));
                    seen = seen + 1;
                }
            } else {
                proof {
                    assert(cur =~= before.take(seen + 1).filter(keep) + before.skip(seen + 1));
                    seen = seen + 1;
                }
                i = i + 1;
            }
        }
        proof {
            assert(seen == before.len());
            crate::seqs::lemma_take_all(before);
            assert(self@.pending_tasks =~= before.filter(keep));
        }
    }

    /// Whether task `task_id` is in progress on this level.
    pub fn is_pending_task(&self, task_id: u64) -> (r: bool)
        ensures
            r == self@.has_task(task_id),
    {
        let mut i: usize = 0;
        while i < self.pending_tasks.len()
            invariant
                i <= self.pending_tasks.len(),
                forall|j: int| 0 <= j < i ==> (#[trigger] self@.pending_tasks[j]).task_id != task_id,
            decreases self.pending_tasks.len() - i,
        {
            if self.pending_tasks[i].task_id == task_id {
                proof {
                    assert(self@.pending_tasks[i as int].task_id == task_id);
                }
                return true;
            }
            i = i + 1;
        }
        false
    }

    /// Whether a task in progress on this level has taken table `sst_id`.
    pub fn is_pending_compact(&self, sst_id: u64) -> (r: bool)
        ensures
            r == self@.is_pending_compact(sst_id),
    {
        let mut i: usize = 0;
        while i < self.pending_tasks.len()
            invariant
                i <= self.pending_tasks.len(),
                forall|j: int|
                    0 <= j < i ==> !(#[trigger] self@.pending_tasks[j]).ssts.contains(sst_id),
            decreases self.pending_tasks.len() - i,
        {
            if holds_sst(&self.pending_tasks[i].ssts, sst_id) {
                proof {
                    assert(self@.pending_tasks[i as int].ssts.contains(sst_id));
                }
                return true;
            }
            i = i + 1;
        }
        false
    }
}


pub struct CompactStatusView {
    pub compaction_group_id: u64,
    pub level_handlers: Seq<LevelHandlerView>,
}

impl CompactStatusView {
    /// This status after the tasks in `tasks` were given up: no level holds
    /// one of them, and nothing else has changed.
    pub open spec fn without_tasks(self, tasks: Set<u64>) -> CompactStatusView {
        CompactStatusView {
            compaction_group_id: self.compaction_group_id,
            level_handlers: self.level_handlers.map_values(
                |h: LevelHandlerView| h.without_tasks(tasks),
            ),
        }
    }

    /// Whether task `task_id` is in progress on some level.
    pub open spec fn has_task(self, task_id: u64) -> bool {
        exists|l: int|
            0 <= l < self.level_handlers.len() && (#[trigger] self.level_handlers[l]).has_task(
                task_id,
            )
    }
}

/// Filtering twice is filtering once by both tests.
pub proof fn lemma_without_tasks_twice(p: Seq<RunningCompactTaskView>, a: Set<u64>, b: Set<u64>)
    ensures
        p.filter(not_among(a)).filter(not_among(b)) == p.filter(not_among(a.union(b))),
    decreases p.len(),
{
    reveal(Seq::filter);
    if p.len() > 0 {
        lemma_without_tasks_twice(p.drop_last(), a, b);
        let q = p.drop_last().filter(not_among(a));
        if not_among(a)(p.last()) {
            q.lemma_filter_push(p.last(), not_among(b));
        }
    }
}

/// A level without some tasks holds none of them.
pub proof fn lemma_without_tasks_has_none(h: LevelHandlerView, tasks: Set<u64>, task_id: u64)
    requires
        tasks.contains(task_id),
    ensures
        !h.without_tasks(tasks).has_task(task_id),
{
    let kept = h.pending_tasks.filter(not_among(tasks));
    assert forall|i: int| 0 <= i < kept.len() implies (#[trigger] kept[i]).task_id != task_id by {
        h.pending_tasks.lemma_filter_pred(not_among(tasks), i);
    }
}

/// A level without some tasks holds every other task that it held.
pub proof fn lemma_without_tasks_keeps_others(h: LevelHandlerView, tasks: Set<u64>, task_id: u64)
    requires
        !tasks.contains(task_id),
    ensures
        h.without_tasks(tasks).has_task(task_id) == h.has_task(task_id),
{
    let keep = not_among(tasks);
    let kept = h.pending_tasks.filter(keep);
    if h.has_task(task_id) {
        let i = choose|i: int|
            0 <= i < h.pending_tasks.len() && (#[trigger] h.pending_tasks[i]).task_id == task_id;
        h.pending_tasks.lemma_filter_contains(keep, i);
        let j = choose|j: int| 0 <= j < kept.len() && kept[j] == h.pending_tasks[i];
        assert(h.without_tasks(tasks).pending_tasks[j].task_id == task_id);
        assert(h.without_tasks(tasks).has_task(task_id));
    }
    if h.without_tasks(tasks).has_task(task_id) {
        let after = h.without_tasks(tasks);
        let j = choose|j: int|
            0 <= j < after.pending_tasks.len() && (#[trigger] after.pending_tasks[j]).task_id
                == task_id;
        assert(kept[j].task_id == task_id);
        assert(kept.contains(kept[j]));
        h.pending_tasks.lemma_filter_contains_rev(keep, kept[j]);
        let i = choose|i: int| 0 <= i < h.pending_tasks.len() && h.pending_tasks[i] == kept[j];
        assert(h.pending_tasks[i].task_id == task_id);
        assert(h.has_task(task_id));
    }
}

impl CompactStatusView {
    /// A status without some tasks holds every other task that it held.
    pub proof fn lemma_without_tasks_keeps_others(self, tasks: Set<u64>, task_id: u64)
        requires
            !tasks.contains(task_id),
        ensures
            self.without_tasks(tasks).has_task(task_id) == self.has_task(task_id),
    {
        let x = self.without_tasks(tasks);
        assert forall|l: int| 0 <= l < self.level_handlers.len() implies (
        #[trigger] x.level_handlers[l]).has_task(task_id) == self.level_handlers[l].has_task(
            task_id,
        ) by {
            lemma_without_tasks_keeps_others(self.level_handlers[l], tasks, task_id);
        }
        if self.has_task(task_id) {
            let l = choose|l: int|
                0 <= l < self.level_handlers.len() && (#[trigger] self.level_handlers[l]).has_task(
                    task_id,
                );
            assert(x.level_handlers[l].has_task(task_id));
        }
        if x.has_task(task_id) {
            let l = choose|l: int|
                0 <= l < x.level_handlers.len() && (#[trigger] x.level_handlers[l]).has_task(
                    task_id,
                );
            assert(self.level_handlers[l].has_task(task_id));
        }
    }

    /// Giving up `a` and then `b` is giving up both at once.
    pub proof fn lemma_without_tasks_twice(self, a: Set<u64>, b: Set<u64>)
        ensures
            self.without_tasks(a).without_tasks(b) == self.without_tasks(a.union(b)),
    {
        let x = self.without_tasks(a).without_tasks(b);
        let y = self.without_tasks(a.union(b));
        assert forall|l: int| 0 <= l < self.level_handlers.len() implies x.level_handlers[l]
            == y.level_handlers[l] by {
            lemma_without_tasks_twice(self.level_handlers[l].pending_tasks, a, b);
        }
        assert(x.level_handlers =~= y.level_handlers);
    }

    /// Giving up no task changes nothing.
    pub proof fn lemma_without_no_tasks(self)
        ensures
            self.without_tasks(Set::empty()) == self,
    {
        let x = self.without_tasks(Set::empty());
        assert forall|l: int| 0 <= l < self.level_handlers.len() implies x.level_handlers[l]
            == self.level_handlers[l] by {
            let p = self.level_handlers[l].pending_tasks;
            let keep = not_among(Set::<u64>::empty());
            assert forall|i: int| 0 <= i < p.len() implies keep(p[i]) by {}
            p.lemma_filter_monotone(p, keep);
            lemma_filter_all(p, keep);
        }
        assert(x.level_handlers =~= self.level_handlers);
    }

    /// A status without some tasks holds none of them.
    pub proof fn lemma_without_tasks_has_none(self, tasks: Set<u64>, task_id: u64)
        requires
            tasks.contains(task_id),
        ensures
            !self.without_tasks(tasks).has_task(task_id),
    {
        let x = self.without_tasks(tasks);
        assert forall|l: int| 0 <= l < x.level_handlers.len() implies !(
        #[trigger] x.level_handlers[l]).has_task(task_id) by {
            lemma_without_tasks_has_none(self.level_handlers[l], tasks, task_id);
        }
    }
}

/// A filter that every element passes keeps the sequence.
pub proof fn lemma_filter_all<T>(s: Seq<T>, keep: spec_fn(T) -> bool)
    requires
        forall|i: int| 0 <= i < s.len() ==> keep(#[trigger] s[i]),
    ensures
        s.filter(keep) == s,
    decreases s.len(),
{
    reveal(Seq::filter);
    if s.len() > 0 {
        lemma_filter_all(s.drop_last(), keep);
        assert(s.drop_last().push(s.last()) =~= s);
    }
}

/// The compaction bookkeeping of one compaction group.
#[derive(Debug, PartialEq, Eq)]
pub struct CompactStatus {
    compaction_group_id: u64,
    level_handlers: Vec<LevelHandler>,
}

impl View for CompactStatus {
    type V = CompactStatusView;

    closed spec fn view(&self) -> CompactStatusView {
        CompactStatusView {
            compaction_group_id: self.compaction_group_id,
            level_handlers: self.level_handlers@.map_values(|h: LevelHandler| h@),
        }
    }
}

impl CompactStatus {
    /// The status of group `compaction_group_id` with the levels `0..=max_level`,
    /// no task in progress.
    pub fn new(compaction_group_id: u64, max_level: u32) -> (s: CompactStatus)
        ensures
            s@.compaction_group_id == compaction_group_id,
            s@.level_handlers.len() == max_level + 1,
            forall|l: int|
                0 <= l <= max_level ==> #[trigger] s@.level_handlers[l] == (LevelHandlerView {
                    level: l as u32,
                    pending_tasks: Seq::empty(),
                }),
    {
        let mut level_handlers: Vec<LevelHandler> = Vec::new();
        let mut level: u32 = 0;
        level_handlers.push(LevelHandler::new(0));
        while level < max_level
            invariant
                level <= max_level,
                level_handlers@.len() == level + 1,
                forall|l: int|
                    0 <= l <= level ==> (#[trigger] level_handlers@[l])@ == (LevelHandlerView {
                        level: l as u32,
                        pending_tasks: Seq::empty(),
                    }),
            decreases max_level - level,
        {
            level = level + 1;
            level_handlers.push(LevelHandler::new(level));
        }
        CompactStatus { compaction_group_id, level_handlers }
    }

    pub fn compaction_group_id(&self) -> (g: u64)
        ensures
            g == self@.compaction_group_id,
    {
        self.compaction_group_id
    }

    /// The number of levels.
    pub fn level_count(&self) -> (n: usize)
        ensures
            n == self@.level_handlers.len(),
    {
        self.level_handlers.len()
    }

    /// Records that task `task_id` has taken the tables `ssts` of level `level`.
    pub fn add_pending_task(&mut self, level: usize, task_id: u64, target_level: u32, ssts: Vec<u64>)
        requires
            level < old(self)@.level_handlers.len(),
        ensures
            final(self)@.compaction_group_id == old(self)@.compaction_group_id,
            final(self)@.level_handlers == old(self)@.level_handlers.update(
                level as int,
                LevelHandlerView {
                    level: old(self)@.level_handlers[level as int].level,
                    pending_tasks: old(self)@.level_handlers[level as int].pending_tasks.push(
                        RunningCompactTaskView { task_id, target_level, ssts: ssts@ },
                    ),
                },
            ),
    {
        self.level_handlers[level].add_pending_task(task_id, target_level, ssts);
        proof {
            assert(final(self)@.level_handlers =~= old(self)@.level_handlers.update(
                level as int,
                final(self).level_handlers@[level as int]@,
            ));
        }
    }

    /// Takes note that `compact_task` has ended or was given up: no level holds
    /// it any more.
    pub fn report_compact_task(&mut self, compact_task: &CompactTask)
        ensures
            final(self)@ == old(self)@.without_tasks(set![compact_task.task_id]),
    {
        let task_id = compact_task.task_id;
        let mut l: usize = 0;
        while l < self.level_handlers.len()
            invariant
                l <= self.level_handlers.len(),
                self.compaction_group_id == old(self).compaction_group_id,
                self.level_handlers.len() == old(self).level_handlers.len(),
                forall|k: int|
                    0 <= k < l ==> (#[trigger] self.level_handlers@[k])@ == old(self).level_handlers@[k]@.without_tasks(set![task_id]),
                forall|k: int|
                    l <= k < self.level_handlers.len() ==> #[trigger] self.level_handlers@[k]
                        == old(self).level_handlers@[k],
            decreases self.level_handlers.len() - l,
        {
            self.level_handlers[l].remove_task(task_id);
            l = l + 1;
        }
        proof {
            assert(final(self)@.level_handlers =~= old(self)@.without_tasks(
                set![task_id],
            ).level_handlers);
        }
    }

    /// Whether task `task_id` is in progress on some level.
    pub fn is_pending_task(&self, task_id: u64) -> (r: bool)
        ensures
            r == self@.has_task(task_id),
    {
        let mut l: usize = 0;
        while l < self.level_handlers.len()
            invariant
                l <= self.level_handlers.len(),
                forall|k: int| 0 <= k < l ==> !(#[trigger] self@.level_handlers[k]).has_task(task_id),
            decreases self.level_handlers.len() - l,
        {
            if self.level_handlers[l].is_pending_task(task_id) {
                proof {
                    assert(self@.level_handlers[l as int].has_task(task_id));
                }
                return true;
            }
            l = l + 1;
        }
        false
    }

    /// Whether a task in progress on level `level` has taken table `sst_id`.
    pub fn is_pending_compact(&self, level: usize, sst_id: u64) -> (r: bool)
        ensures
            r == (level < self@.level_handlers.len() && self@.level_handlers[level as int].is_pending_compact(
                sst_id,
            )),
    {
        level < self.level_handlers.len() && self.level_handlers[level].is_pending_compact(sst_id)
    }
}

/// Which context carries out a task.
#[derive(Debug, PartialEq, Eq)]
pub struct CompactTaskAssignment {
    pub compact_task: CompactTask,
    pub context_id: u32,
}

/// The oldest version that a context still reads.
#[derive(Debug, Clone, Copy, PartialEq, Eq, Structural)]
pub struct HummockPinnedVersion {
    pub context_id: u32,
    pub min_pinned_id: u64,
}

/// The oldest epoch that a context still reads.
#[derive(Debug, Clone, Copy, PartialEq, Eq, Structural)]
pub struct HummockPinnedSnapshot {
    pub context_id: u32,
    pub minimal_pinned_snapshot: u64,
}


impl RunningCompactTask {
    /// A copy of this record.
    pub fn duplicate(&self) -> (r: RunningCompactTask)
        ensures
            r@ == self@,
    {
        RunningCompactTask {
            task_id: self.task_id,
            target_level: self.target_level,
            ssts: crate::seqs::copy_slice(self.ssts.as_slice()),
        }
    }
}

impl LevelHandler {
    /// A copy of this level's bookkeeping.
    pub fn duplicate(&self) -> (r: LevelHandler)
        ensures
            r@ == self@,
    {
        let mut pending_tasks: Vec<RunningCompactTask> = Vec::new();
        let mut i: usize = 0;
        while i < self.pending_tasks.len()
            invariant
                i <= self.pending_tasks.len(),
                pending_tasks@.len() == i,
                forall|j: int| 0 <= j < i ==> (#[trigger] pending_tasks@[j])@ == self.pending_tasks@[j]@,
            decreases self.pending_tasks.len() - i,
        {
            pending_tasks.push(self.pending_tasks[i].duplicate());
            i = i + 1;
        }
        let r = LevelHandler { level: self.level, pending_tasks };
        proof {
            assert(r@.pending_tasks =~= self@.pending_tasks);
        }
        r
    }
}

impl CompactStatus {
    /// A copy of this status.
    pub fn duplicate(&self) -> (r: CompactStatus)
        ensures
            r@ == self@,
    {
        let mut level_handlers: Vec<LevelHandler> = Vec::new();
        let mut i: usize = 0;
        while i < self.level_handlers.len()
            invariant
                i <= self.level_handlers.len(),
                level_handlers@.len() == i,
                forall|j: int| 0 <= j < i ==> (#[trigger] level_handlers@[j])@ == self.level_handlers@[j]@,
            decreases self.level_handlers.len() - i,
        {
            level_handlers.push(self.level_handlers[i].duplicate());
            i = i + 1;
        }
        let r = CompactStatus { compaction_group_id: self.compaction_group_id, level_handlers };
        proof {
            assert(r@.level_handlers =~= self@.level_handlers);
        }
        r
    }
}

} // verus!
