//! The transaction registry: the status of every transaction seen so far, the undo log used by
//! `rollback` and `rollback_to`, and the savepoints of each transaction.

use vstd::prelude::*;

use crate::ids::{RowId, SavepointId, TableId, TxnId};
use crate::ordmap::OrdMap;
use crate::snapshot::{status_of, TxnStatus};

verus! {

/// One write logged for a transaction, to be undone in reverse order on rollback.
///
/// An entry names the logical row but never a position in its version chain: `vacuum` may
/// remove older versions of that row while the transaction is still in progress. Undoing in
/// reverse order is enough to locate the versions: while a transaction is in progress, its
/// writes on a row are the **tail** of the row's chain, so each undo acts on the last version of
/// the row and leaves the chain as it was before the write.
#[derive(Debug, Clone, Copy, PartialEq, Eq, Structural)]
pub enum UndoEntry {
    /// A logical row created by the transaction; undoing removes the whole row.
    Insert {
        /// The table the row was inserted into.
        table: TableId,
        /// The row that was created.
        row: RowId,
    },
    /// A version replaced by the transaction followed by a new version it created; undoing
    /// removes the new version and resets the `xmax` of the replaced one.
    Update {
        /// The table the row belongs to.
        table: TableId,
        /// The logical row that was updated.
        row: RowId,
    },
    /// A version deleted by the transaction; undoing resets its `xmax`.
    Delete {
        /// The table the row belongs to.
        table: TableId,
        /// The logical row that was deleted.
        row: RowId,
    },
}

impl UndoEntry {
    /// The table the write went to.
    pub open spec fn table(self) -> TableId {
        match self {
            UndoEntry::Insert { table, .. } => table,
            UndoEntry::Update { table, .. } => table,
            UndoEntry::Delete { table, .. } => table,
        }
    }

    /// The row the write went to.
    pub open spec fn row(self) -> RowId {
        match self {
            UndoEntry::Insert { row, .. } => row,
            UndoEntry::Update { row, .. } => row,
            UndoEntry::Delete { row, .. } => row,
        }
    }

    /// Whether the write went to `row` of `table`.
    pub open spec fn on(self, table: u64, row: u64) -> bool {
        self.table().0 == table && self.row().0 == row
    }
}

/// What the storage knows about one transaction.
#[derive(Debug)]
pub struct TxnState {
    /// `InProgress` from the first write until `commit` or `rollback`.
    pub status: TxnStatus,
    /// The writes of the transaction in chronological order. Always empty once the transaction
    /// is finished.
    pub writes: Vec<UndoEntry>,
    /// The savepoints of the transaction in creation order, each with the length `writes` had
    /// when it was taken. Always empty once the transaction is finished.
    pub savepoints: Vec<(SavepointId, usize)>,
}

/// What a [`TxnState`] stands for.
#[verifier::ext_equal]
pub struct TxnModel {
    /// How far the transaction has come.
    pub status: TxnStatus,
    /// Its writes, in chronological order.
    pub writes: Seq<UndoEntry>,
    /// Its savepoints in creation order, each with the number of writes before it.
    pub savepoints: Seq<(SavepointId, usize)>,
}

impl View for TxnState {
    type V = TxnModel;

    open spec fn view(&self) -> TxnModel {
        TxnModel { status: self.status, writes: self.writes@, savepoints: self.savepoints@ }
    }
}

impl DeepView for TxnState {
    type V = TxnModel;

    open spec fn deep_view(&self) -> TxnModel {
        self@
    }
}

impl TxnModel {
    /// A transaction in the state `status` that wrote nothing and took no savepoint.
    pub open spec fn blank(status: TxnStatus) -> TxnModel {
        TxnModel { status, writes: Seq::empty(), savepoints: Seq::empty() }
    }
}

impl TxnState {
    /// A freshly discovered transaction: in progress, nothing written yet.
    pub fn in_progress() -> (r: Self)
        ensures
            r@ == TxnModel::blank(TxnStatus::InProgress),
    {
        TxnState { status: TxnStatus::InProgress, writes: Vec::new(), savepoints: Vec::new() }
    }

    /// A transaction that finished without the storage ever seeing a write from it.
    pub fn finished(status: TxnStatus) -> (r: Self)
        ensures
            r@ == TxnModel::blank(status),
    {
        TxnState { status, writes: Vec::new(), savepoints: Vec::new() }
    }

    /// Whether the transaction has committed or rolled back.
    pub fn is_finished(&self) -> (r: bool)
        ensures
            r == (self@.status != TxnStatus::InProgress),
    {
        self.status != TxnStatus::InProgress
    }
}

/// The registered statuses.
pub open spec fn statuses(txns: Map<u64, TxnModel>) -> Map<u64, TxnStatus> {
    Map::new(|t: u64| txns.contains_key(t), |t: u64| txns[t].status)
}

/// The status of `t` as visibility must see it: the registered status if the registry knows
/// `t`, `Committed` otherwise.
pub fn status_in(txns: &OrdMap<TxnState>, t: TxnId) -> (r: TxnStatus)
    ensures
        r == status_of(statuses(txns@), t),
{
    match txns.get(t.0) {
        Some(state) => state.status,
        None => TxnStatus::Committed,
    }
}

} // verus!
