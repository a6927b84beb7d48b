//! The durable store of the metadata, as the manager sees it: a place to
//! which a batch of changes is committed whole or not at all.

use crate::compaction::{CompactStatus, CompactStatusView};
use vstd::prelude::*;

verus! {

/// Why a store refused a transaction.
#[derive(Debug, Clone, Copy, PartialEq, Eq, Structural)]
pub enum MetaStoreError {
    /// The transaction was aborted; nothing was written.
    TransactionAbort,
    /// The store could not be reached or failed inside.
    Internal,
}

pub enum OperationView {
    PutCompactStatus(u64, CompactStatusView),
    DeleteCompactTaskAssignment(u64),
    DeletePinnedVersion(u32),
    DeletePinnedSnapshot(u32),
}

/// One change to one of the metadata maps.
#[derive(Debug, PartialEq, Eq)]
pub enum Operation {
    /// Stores the status of a compaction group under the group's id.
    PutCompactStatus(u64, CompactStatus),
    /// Removes the assignment of a task.
    DeleteCompactTaskAssignment(u64),
    /// Removes what a context has pinned of the versions.
    DeletePinnedVersion(u32),
    /// Removes what a context has pinned of the snapshots.
    DeletePinnedSnapshot(u32),
}

impl View for Operation {
    type V = OperationView;

    open spec fn view(&self) -> OperationView {
        match self {
            Operation::PutCompactStatus(g, s) => OperationView::PutCompactStatus(*g, s@),
            Operation::DeleteCompactTaskAssignment(t) => OperationView::DeleteCompactTaskAssignment(
                *t,
            ),
            Operation::DeletePinnedVersion(c) => OperationView::DeletePinnedVersion(*c),
            Operation::DeletePinnedSnapshot(c) => OperationView::DeletePinnedSnapshot(*c),
        }
    }
}

/// Changes to several maps that are committed together.
#[derive(Debug, PartialEq, Eq)]
pub struct Transaction {
    operations: Vec<Operation>,
}

impl View for Transaction {
    type V = Seq<OperationView>;

    closed spec fn view(&self) -> Seq<OperationView> {
        self.operations@.map_values(|op: Operation| op@)
    }
}

impl Transaction {
    /// A transaction that changes nothing.
    pub fn new() -> (t: Transaction)
        ensures
            t@ == Seq::<OperationView>::empty(),
    {
        let t = Transaction { operations: Vec::new() };
        proof {
            assert(t@ =~= Seq::<OperationView>::empty());
        }
        t
    }

    /// Adds one change after those already there.
    pub fn add(&mut self, operation: Operation)
        ensures
            final(self)@ == old(self)@.push(operation@),
    {
        self.operations.push(operation);
        proof {
            assert(final(self)@ =~= old(self)@.push(operation@));
        }
    }

    /// The changes, in the order in which they are to be made.
    pub fn operations(&self) -> (ops: &Vec<Operation>)
        ensures
            ops@.map_values(|op: Operation| op@) == self@,
    {
        &self.operations
    }

    /// Gives the changes up, in the order in which they are to be made.
    pub fn into_operations(self) -> (ops: Vec<Operation>)
        ensures
            ops@.map_values(|op: Operation| op@) == self@,
    {
        self.operations
    }
}

/// A store that commits a transaction whole or not at all.
pub trait MetaStore {
    /// Commits `trx`. On `Err` the store holds what it held before.
    fn txn(&mut self, trx: &Transaction) -> (r: Result<(), MetaStoreError>);
}

} // verus!
