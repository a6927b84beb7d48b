//! The workers of the cluster, as far as the metadata core needs them.

use vstd::prelude::*;

verus! {

pub type WorkerId = u32;

/// What a worker node does.
#[derive(Debug, Clone, Copy, PartialEq, Eq, Structural)]
pub enum WorkerType {
    Frontend,
    ComputeNode,
    Compactor,
}

/// One worker node of the cluster.
#[derive(Debug, Clone, Copy, PartialEq, Eq, Structural)]
pub struct WorkerNode {
    pub id: u32,
    pub worker_type: WorkerType,
}

/// The registry of the workers that are alive.
#[derive(Debug, PartialEq, Eq)]
pub struct ClusterManager {
    workers: Vec<WorkerNode>,
}

impl ClusterManager {
    /// The workers that are alive, in the order in which they joined.
    pub closed spec fn workers(&self) -> Seq<WorkerNode> {
        self.workers@
    }

    /// Whether a worker with this id is alive.
    pub open spec fn is_active(&self, worker_id: u32) -> bool {
        exists|i: int| 0 <= i < self.workers().len() && (#[trigger] self.workers()[i]).id == worker_id
    }

    /// A registry with the given workers.
    pub fn new(workers: Vec<WorkerNode>) -> (c: ClusterManager)
        ensures
            c.workers() == workers@,
    {
        ClusterManager { workers }
    }

    /// Takes note of a worker that has joined.
    pub fn add_worker_node(&mut self, worker: WorkerNode)
        ensures
            final(self).workers() == old(self).workers().push(worker),
    {
        self.workers.push(worker);
    }

    /// The first worker with this id, if one is alive.
    pub fn get_worker_by_id(&self, worker_id: u32) -> (w: Option<WorkerNode>)
        ensures
            w is Some == self.is_active(worker_id),
            w matches Some(node) ==> exists|i: int|
                0 <= i < self.workers().len() && #[trigger] self.workers()[i] == node && node.id
                    == worker_id && forall|j: int|
                    0 <= j < i ==> (#[trigger] self.workers()[j]).id != worker_id,
    {
        let mut i: usize = 0;
        while i < self.workers.len()
            invariant
                i <= self.workers.len(),
                forall|j: int| 0 <= j < i ==> (#[trigger] self.workers()[j]).id != worker_id,
            decreases self.workers.len() - i,
        {
            if self.workers[i].id == worker_id {
                proof {
                    assert(self.workers()[i as int].id == worker_id);
                }
                return Some(self.workers[i]);
            }
            i = i + 1;
        }
        None
    }
}

} // verus!
