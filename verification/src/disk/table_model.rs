//! What a table of an instance stands for, and what each write and each undo does to it.

use vstd::prelude::*;

use super::contents::StoredModel;
use super::encode::{parse_row, row_bytes};
use super::journal::JournalModel;
use super::redo::previous;
use super::version::{VersionHeader, NO_XMAX};
use super::wal::WalRecordKind;
use super::wal_payload::ChangeModel;
use crate::error::{Bug, Corruption, InternalError};
use crate::ids::{RowId, TableId, TxnId};
use crate::row::Row;
use crate::snapshot::{status_of, Snapshot, TxnStatus};
use crate::value::ValueModel;

verus! {

/// One write logged for a transaction, undone in reverse order.
///
/// An entry names the logical row rather than a position in its chain: the writes of a running
/// transaction on a row are the tail of that chain, so each undo acts on its most recent
/// versions.
#[derive(Debug, Clone, Copy, PartialEq, Eq, Structural)]
pub enum RowUndo {
    /// A logical row created by the transaction; undoing removes the version it created.
    Insert(RowId),
    /// A version replaced by the transaction followed by the one it created; undoing removes the
    /// new version and resets the `xmax` of the replaced one.
    Update(RowId),
    /// A version deleted by the transaction; undoing resets its `xmax`.
    Delete(RowId),
}

/// What a write or an undo means for an index of the table.
#[derive(Debug)]
pub enum IndexChange {
    /// A version was created.
    Added {
        /// The row.
        row: RowId,
        /// The serial of the version.
        seq: u64,
        /// The columns of the version.
        data: Row,
    },
    /// An undo took a version away.
    Removed {
        /// The row.
        row: RowId,
        /// The serial of the version.
        seq: u64,
        /// The columns of the version.
        data: Row,
    },
}

/// What an [`IndexChange`] stands for.
pub enum IndexChangeModel {
    /// A version was created.
    Added {
        /// The row.
        row: RowId,
        /// The serial of the version.
        seq: u64,
        /// The columns of the version.
        data: Seq<ValueModel>,
    },
    /// An undo took a version away.
    Removed {
        /// The row.
        row: RowId,
        /// The serial of the version.
        seq: u64,
        /// The columns of the version.
        data: Seq<ValueModel>,
    },
}

impl DeepView for IndexChange {
    type V = IndexChangeModel;

    open spec fn deep_view(&self) -> IndexChangeModel {
        match self {
            IndexChange::Added { row, seq, data } => IndexChangeModel::Added {
                row: *row,
                seq: *seq,
                data: data@,
            },
            IndexChange::Removed { row, seq, data } => IndexChangeModel::Removed {
                row: *row,
                seq: *seq,
                data: data@,
            },
        }
    }
}

/// What a table of an instance stands for.
#[verifier::ext_equal]
pub struct HeapTableModel {
    /// The table.
    pub table: TableId,
    /// How many columns its rows have.
    pub arity: nat,
    /// The versions, by row and serial.
    pub contents: Map<(u64, u64), StoredModel>,
    /// The serial of the most recent version of each row.
    pub current: Map<u64, u64>,
    /// The rows whose most recent version was taken away by an undo that failed.
    pub lost: Set<u64>,
    /// The next row identifier to hand out.
    pub next_row_id: u64,
    /// The next serial to hand out.
    pub next_seq: u64,
    /// The next address of the heap.
    pub next_address: u64,
    /// The writes of each transaction, oldest first.
    pub writes: Map<u64, Seq<RowUndo>>,
    /// What the writes since the log was last taken mean for an index.
    pub changes: Seq<IndexChangeModel>,
    /// Whether the counters were rebuilt from what the recovery found.
    pub resumed: bool,
}

/// The columns of a version.
pub open spec fn data_of(v: StoredModel) -> Seq<ValueModel> {
    parse_row(v.columns)->0
}

/// Whether the columns of a version read back as a row.
pub open spec fn legible(v: StoredModel) -> bool {
    parse_row(v.columns) is Some
}

/// The error of a version whose columns are no row.
pub open spec fn illegible(v: StoredModel) -> InternalError {
    InternalError::Corruption(Corruption::NotARow { bytes: v.columns.len() as usize })
}

/// The largest serial of `row`, if there is a version of it.
pub open spec fn latest(c: Map<(u64, u64), StoredModel>, row: u64) -> Option<u64> {
    previous(c, row, u64::MAX)
}

impl HeapTableModel {
    /// Whether the serials of the versions were handed out, and the most recent version of each row is
    /// there.
    pub open spec fn wf(self) -> bool {
        &&& forall|k: (u64, u64)| #[trigger]
            self.contents.contains_key(k) ==> {
                &&& self.contents[k].key() == k
                &&& self.contents[k].header.storable()
                &&& k.1 < self.next_seq
            }
        &&& forall|row: u64| #[trigger]
            self.current.contains_key(row) ==> self.contents.contains_key(
                (row, self.current[row]),
            ) && !self.lost.contains(row)
    }

    /// Whether, besides, every version reads back as a row of the table, and no row is lost.
    pub open spec fn whole(self) -> bool {
        &&& self.wf()
        &&& forall|row: u64| !#[trigger] self.lost.contains(row)
        &&& forall|k: (u64, u64)| #[trigger]
            self.contents.contains_key(k) ==> legible(self.contents[k]) && data_of(
                self.contents[k],
            ).len() == self.arity
    }

    /// The writes of a transaction, oldest first.
    pub open spec fn writes_of(self, txn: TxnId) -> Seq<RowUndo> {
        if self.writes.contains_key(txn.0) {
            self.writes[txn.0]
        } else {
            Seq::empty()
        }
    }

    /// The writes of a transaction from the `mark`-th on.
    pub open spec fn writes_after(self, txn: TxnId, mark: nat) -> Seq<RowUndo> {
        if mark <= self.writes_of(txn).len() {
            self.writes_of(txn).skip(mark as int)
        } else {
            Seq::empty()
        }
    }

    /// The table once it keeps a log for `txn`.
    pub open spec fn opened(self, txn: TxnId) -> HeapTableModel {
        HeapTableModel { writes: self.writes.insert(txn.0, self.writes_of(txn)), ..self }
    }

    /// The most recent version of a row.
    pub open spec fn version(self, row: RowId) -> StoredModel {
        self.contents[(row.0, self.current[row.0])]
    }

    /// A version of a row as `txn` writes it next.
    pub open spec fn fresh(self, txn: TxnId, row: RowId, data: Seq<ValueModel>) -> StoredModel {
        StoredModel {
            header: VersionHeader { row, xmin: txn, xmax: None, seq: self.next_seq },
            columns: row_bytes(data),
        }
    }

    /// The table with one more version of a row, now the most recent one.
    pub open spec fn with_fresh(self, txn: TxnId, row: RowId, data: Seq<ValueModel>) -> HeapTableModel {
        let v = self.fresh(txn, row, data);
        HeapTableModel {
            contents: self.contents.insert(v.key(), v),
            current: self.current.insert(row.0, v.header.seq),
            lost: self.lost.remove(row.0),
            next_seq: (self.next_seq + 1) as u64,
            next_address: (self.next_address + 1) as u64,
            changes: self.changes.push(IndexChangeModel::Added { row, seq: v.header.seq, data }),
            ..self
        }
    }

    /// The table with another `xmax` on the most recent version of a row.
    pub open spec fn with_xmax(self, row: RowId, xmax: Option<TxnId>) -> HeapTableModel {
        HeapTableModel {
            contents: self.contents.insert(
                (row.0, self.current[row.0]),
                self.version(row).with_xmax(xmax),
            ),
            ..self
        }
    }

    /// The table with one more write of `txn` to undo.
    pub open spec fn with_write(self, txn: TxnId, entry: RowUndo) -> HeapTableModel {
        HeapTableModel {
            writes: self.writes.insert(txn.0, self.writes_of(txn).push(entry)),
            ..self
        }
    }

    /// The table with another undo log of `txn`.
    pub open spec fn with_writes(self, txn: TxnId, writes: Seq<RowUndo>) -> HeapTableModel {
        HeapTableModel { writes: self.writes.insert(txn.0, writes), ..self }
    }

    /// The table once `txn` inserted a row.
    pub open spec fn inserted(self, txn: TxnId, data: Seq<ValueModel>) -> HeapTableModel {
        let row = RowId(self.next_row_id);
        let t = self.with_fresh(txn, row, data).with_write(txn, RowUndo::Insert(row));
        HeapTableModel { next_row_id: (self.next_row_id + 1) as u64, ..t }
    }

    /// The table once `txn` replaced the content of a row.
    pub open spec fn updated(self, txn: TxnId, row: RowId, data: Seq<ValueModel>) -> HeapTableModel {
        self.with_xmax(row, Some(txn)).with_fresh(txn, row, data).with_write(
            txn,
            RowUndo::Update(row),
        )
    }

    /// The table once `txn` deleted a row.
    pub open spec fn deleted(self, txn: TxnId, row: RowId) -> HeapTableModel {
        self.with_xmax(row, Some(txn)).with_write(txn, RowUndo::Delete(row))
    }

    /// What the journal is told of a version of this table.
    pub open spec fn change(self, header: VersionHeader, columns: Seq<u8>) -> ChangeModel {
        ChangeModel { table: self.table, header, columns }
    }

    /// The record of an insert or of an update.
    pub open spec fn fresh_change(self, txn: TxnId, row: RowId, data: Seq<ValueModel>) -> ChangeModel {
        let v = self.fresh(txn, row, data);
        self.change(v.header, v.columns)
    }

    /// The record of a delete: the version being hidden, its `xmax` set, no columns.
    pub open spec fn hidden_change(self, txn: TxnId, row: RowId) -> ChangeModel {
        self.change(self.version(row).header.with_xmax(Some(txn)), Seq::empty())
    }

    /// Whether the most recent version of a row is one `txn` may replace: it carries no `xmax`,
    /// and `txn` or a committed transaction created it.
    pub open spec fn writable(self, txn: TxnId, row: RowId, st: Map<u64, TxnStatus>) -> bool {
        &&& self.current.contains_key(row.0)
        &&& self.version(row).header.xmax is None
        &&& self.version(row).header.xmin == txn || status_of(st, self.version(row).header.xmin)
            == TxnStatus::Committed
    }

    /// The error of a row that has no most recent version.
    pub open spec fn missing(self, row: RowId) -> InternalError {
        if self.lost.contains(row.0) {
            InternalError::Corruption(Corruption::NoRecord { table: self.table, row })
        } else {
            InternalError::Bug(Bug::UnknownRow { table: self.table, row })
        }
    }

    /// The error of a row that `txn` may not replace.
    pub open spec fn unwritable(self, txn: TxnId, row: RowId, st: Map<u64, TxnStatus>) -> InternalError {
        let header = self.version(row).header;
        if !self.current.contains_key(row.0) {
            self.missing(row)
        } else {
            match header.xmax {
                Some(by) => InternalError::Bug(Bug::StaleRow { table: self.table, row, by }),
                None => InternalError::Bug(
                    Bug::RowBeingWritten {
                        table: self.table,
                        row,
                        by: header.xmin,
                        status: status_of(st, header.xmin),
                    },
                ),
            }
        }
    }

    /// Why `txn` may not insert a row of `values` values, if it may not.
    pub open spec fn insert_refusal(self, txn: TxnId, values: nat, journal: JournalModel) -> Option<
        InternalError,
    > {
        if txn.0 == NO_XMAX {
            Some(InternalError::Bug(Bug::ReservedTxn(txn)))
        } else if values != self.arity {
            Some(
                InternalError::Bug(
                    Bug::WrongArity {
                        table: self.table,
                        values: values as usize,
                        columns: self.arity as usize,
                    },
                ),
            )
        } else if journal.finished(txn) {
            Some(journal.finished_error(txn))
        } else {
            None
        }
    }

    /// Why `txn` may not replace a row by one of `values` values, if it may not; `None` for
    /// `values` on a delete.
    pub open spec fn replace_refusal(
        self,
        txn: TxnId,
        row: RowId,
        values: Option<nat>,
        journal: JournalModel,
    ) -> Option<InternalError> {
        if txn.0 == NO_XMAX {
            Some(InternalError::Bug(Bug::ReservedTxn(txn)))
        } else if values matches Some(n) && n != self.arity {
            Some(
                InternalError::Bug(
                    Bug::WrongArity {
                        table: self.table,
                        values: values->0 as usize,
                        columns: self.arity as usize,
                    },
                ),
            )
        } else if !self.writable(txn, row, journal.st()) {
            Some(self.unwritable(txn, row, journal.st()))
        } else if journal.finished(txn) {
            Some(journal.finished_error(txn))
        } else {
            None
        }
    }

    /// Why the most recent version of a row is not what undoing an insert or an update of `txn`
    /// takes away, if it is not.
    pub open spec fn tail_fault(self, txn: TxnId, row: RowId) -> Option<InternalError> {
        let header = self.version(row).header;
        if !self.current.contains_key(row.0) {
            Some(self.missing(row))
        } else if header.xmin != txn || header.xmax is Some {
            Some(
                InternalError::Corruption(
                    Corruption::NotTheCreated { table: self.table, row, txn },
                ),
            )
        } else {
            None
        }
    }

    /// The table without the most recent version of a row.
    pub open spec fn without_tail(self, row: RowId) -> HeapTableModel {
        let seq = self.current[row.0];
        HeapTableModel {
            contents: self.contents.remove((row.0, seq)),
            current: self.current.remove(row.0),
            changes: self.changes.push(
                IndexChangeModel::Removed { row, seq, data: data_of(self.version(row)) },
            ),
            ..self
        }
    }

    /// The table once the most recent version of a row was taken out of the heap and its columns
    /// turned out to be no row: the row is lost.
    pub open spec fn losing(self, row: RowId) -> HeapTableModel {
        HeapTableModel {
            contents: self.contents.remove((row.0, self.current[row.0])),
            current: self.current.remove(row.0),
            lost: self.lost.insert(row.0),
            ..self
        }
    }

    /// Why the most recent version of a row cannot be taken away by undoing an insert or an update of
    /// `txn`, if it cannot.
    pub open spec fn take_fault(self, txn: TxnId, row: RowId) -> Option<InternalError> {
        match self.tail_fault(txn, row) {
            Some(e) => Some(e),
            None => if !legible(self.version(row)) {
                Some(illegible(self.version(row)))
            } else {
                None
            },
        }
    }

    /// What taking away the most recent version of a row leaves where it fails: the row is lost where
    /// its columns are no row.
    pub open spec fn not_taken(self, txn: TxnId, row: RowId) -> HeapTableModel {
        if self.tail_fault(txn, row) is Some {
            self
        } else {
            self.losing(row)
        }
    }

    /// Why the version under an undone update is not the one `txn` replaced, if it is not.
    pub open spec fn under_fault(self, txn: TxnId, row: RowId) -> Option<InternalError> {
        match latest(self.contents, row.0) {
            None => Some(
                InternalError::Corruption(
                    Corruption::NothingUnderUpdate { table: self.table, row, txn },
                ),
            ),
            Some(seq) => if self.contents[(row.0, seq)].header.xmax != Some(txn) {
                Some(
                    InternalError::Corruption(
                        Corruption::NotTheReplaced { table: self.table, row, seq, txn },
                    ),
                )
            } else {
                None
            },
        }
    }

    /// Why a write of `txn` cannot be undone, if it cannot.
    pub open spec fn undo_fault(self, txn: TxnId, entry: RowUndo) -> Option<InternalError> {
        match entry {
            RowUndo::Insert(row) => self.take_fault(txn, row),
            RowUndo::Update(row) => match self.take_fault(txn, row) {
                Some(e) => Some(e),
                None => self.without_tail(row).under_fault(txn, row),
            },
            RowUndo::Delete(row) => if !self.current.contains_key(row.0) {
                Some(self.missing(row))
            } else if self.version(row).header.xmax != Some(txn) {
                Some(
                    InternalError::Corruption(
                        Corruption::NotTheDelete { table: self.table, row, txn },
                    ),
                )
            } else {
                None
            },
        }
    }

    /// The table with the latest version of a row current again, its `xmax` reset.
    pub open spec fn restored(self, row: RowId) -> HeapTableModel {
        let seq = latest(self.contents, row.0)->0;
        HeapTableModel {
            contents: self.contents.insert(
                (row.0, seq),
                self.contents[(row.0, seq)].with_xmax(None),
            ),
            current: self.current.insert(row.0, seq),
            ..self
        }
    }

    /// The table once a write of `txn` is undone. An undo that fails under an update has taken
    /// the version of the update away; one that fails on the columns of the version it takes away
    /// has lost the row; one that fails otherwise has changed nothing.
    pub open spec fn undone(self, txn: TxnId, entry: RowUndo) -> HeapTableModel {
        match entry {
            RowUndo::Insert(row) => if self.take_fault(txn, row) is Some {
                self.not_taken(txn, row)
            } else {
                self.without_tail(row)
            },
            RowUndo::Update(row) => if self.take_fault(txn, row) is Some {
                self.not_taken(txn, row)
            } else if self.without_tail(row).under_fault(txn, row) is Some {
                self.without_tail(row)
            } else {
                self.without_tail(row).restored(row)
            },
            RowUndo::Delete(row) => if self.undo_fault(txn, entry) is Some {
                self
            } else {
                self.with_xmax(row, None)
            },
        }
    }

    /// The table once writes of `txn` are undone, the last one first, stopping at the first that
    /// cannot be.
    pub open spec fn all_undone(self, txn: TxnId, writes: Seq<RowUndo>) -> HeapTableModel
        decreases writes.len(),
    {
        if writes.len() == 0 {
            self
        } else if self.undo_fault(txn, writes.last()) is Some {
            self.undone(txn, writes.last())
        } else {
            self.undone(txn, writes.last()).all_undone(txn, writes.drop_last())
        }
    }

    /// Why writes of `txn` cannot all be undone, if they cannot.
    pub open spec fn stuck(self, txn: TxnId, writes: Seq<RowUndo>) -> Option<InternalError>
        decreases writes.len(),
    {
        if writes.len() == 0 {
            None
        } else if self.undo_fault(txn, writes.last()) is Some {
            self.undo_fault(txn, writes.last())
        } else {
            self.undone(txn, writes.last()).stuck(txn, writes.drop_last())
        }
    }

    /// The table with the writes of `txn` from `mark` on forgotten.
    pub open spec fn cut(self, txn: TxnId, mark: nat) -> HeapTableModel {
        if self.writes.contains_key(txn.0) && mark <= self.writes[txn.0].len() {
            HeapTableModel {
                writes: self.writes.insert(txn.0, self.writes[txn.0].take(mark as int)),
                ..self
            }
        } else {
            self
        }
    }

    /// Whether a snapshot sees a version.
    pub open spec fn sees(self, snap: Snapshot, st: Map<u64, TxnStatus>, k: (u64, u64)) -> bool {
        self.contents.contains_key(k) && snap.visible(
            self.contents[k].header.xmin,
            self.contents[k].header.xmax,
            st,
        )
    }
}

/// What a write leaves: the table, the journal, and the error if it was refused.
#[verifier::ext_equal]
pub struct WriteOutcome {
    /// The table after the write.
    pub table: HeapTableModel,
    /// The journal after the write.
    pub journal: JournalModel,
    /// The error of a refused write.
    pub error: Option<InternalError>,
}

impl WriteOutcome {
    /// The outcome once the maintenance log was taken.
    pub open spec fn drained(self) -> WriteOutcome {
        WriteOutcome { table: self.table.drained(), ..self }
    }
}

impl HeapTableModel {
    /// The table once its maintenance log was taken.
    pub open spec fn drained(self) -> HeapTableModel {
        HeapTableModel { changes: Seq::empty(), ..self }
    }

    /// Nothing changes and the write is refused.
    pub open spec fn refused(self, journal: JournalModel, e: InternalError) -> WriteOutcome {
        WriteOutcome { table: self, journal, error: Some(e) }
    }

    /// The table with the next serial handed out.
    pub open spec fn serial_taken(self) -> HeapTableModel {
        HeapTableModel { next_seq: (self.next_seq + 1) as u64, ..self }
    }

    /// Once a write is accepted: `txn` begins, the record goes to the journal, then the table
    /// changes. A journal with no number left, or a record too long for it, leaves the versions
    /// as they were.
    pub open spec fn journalled(
        self,
        journal: JournalModel,
        txn: TxnId,
        kind: WalRecordKind,
        change: ChangeModel,
        after: HeapTableModel,
    ) -> WriteOutcome {
        let begun = journal.begun(txn, self.table);
        let len = change.encoded().len();
        if begun.refuses(len) {
            WriteOutcome {
                table: if kind == WalRecordKind::Delete {
                    self.opened(txn)
                } else {
                    self.opened(txn).serial_taken()
                },
                journal: begun,
                error: Some(begun.refusal(kind, len)),
            }
        } else {
            WriteOutcome {
                table: after,
                journal: begun.logged(kind, txn, change.encoded()),
                error: None,
            }
        }
    }

    /// What an insert by `txn` does.
    pub open spec fn insert_outcome(
        self,
        journal: JournalModel,
        txn: TxnId,
        data: Seq<ValueModel>,
    ) -> WriteOutcome {
        let row = RowId(self.next_row_id);
        match self.insert_refusal(txn, data.len(), journal) {
            Some(e) => self.refused(journal, e),
            None => if self.next_row_id == u64::MAX {
                self.refused(journal, InternalError::Bug(Bug::RowIdsExhausted(self.table)))
            } else if self.next_address == u64::MAX {
                self.refused(journal, InternalError::Bug(Bug::HeapFull(self.table)))
            } else if journal.begin_refused(txn) {
                self.refused(
                    journal.noted(txn, self.table),
                    journal.refusal(WalRecordKind::Begin, 0),
                )
            } else if self.next_seq == u64::MAX {
                self.opened(txn).refused(
                    journal.begun(txn, self.table),
                    InternalError::Bug(Bug::SerialsExhausted(self.table)),
                )
            } else {
                self.journalled(
                    journal,
                    txn,
                    WalRecordKind::Insert,
                    self.fresh_change(txn, row, data),
                    self.inserted(txn, data),
                )
            },
        }
    }

    /// What an update of `row` by `txn` does.
    pub open spec fn update_outcome(
        self,
        journal: JournalModel,
        txn: TxnId,
        row: RowId,
        data: Seq<ValueModel>,
    ) -> WriteOutcome {
        match self.replace_refusal(txn, row, Some(data.len()), journal) {
            Some(e) => self.refused(journal, e),
            None => if self.next_address == u64::MAX {
                self.refused(journal, InternalError::Bug(Bug::HeapFull(self.table)))
            } else if journal.begin_refused(txn) {
                self.refused(
                    journal.noted(txn, self.table),
                    journal.refusal(WalRecordKind::Begin, 0),
                )
            } else if self.next_seq == u64::MAX {
                self.opened(txn).refused(
                    journal.begun(txn, self.table),
                    InternalError::Bug(Bug::SerialsExhausted(self.table)),
                )
            } else {
                self.journalled(
                    journal,
                    txn,
                    WalRecordKind::Update,
                    self.fresh_change(txn, row, data),
                    self.updated(txn, row, data),
                )
            },
        }
    }

    /// What a delete of `row` by `txn` does.
    pub open spec fn delete_outcome(self, journal: JournalModel, txn: TxnId, row: RowId) -> WriteOutcome {
        match self.replace_refusal(txn, row, None, journal) {
            Some(e) => self.refused(journal, e),
            None => if journal.begin_refused(txn) {
                self.refused(
                    journal.noted(txn, self.table),
                    journal.refusal(WalRecordKind::Begin, 0),
                )
            } else {
                self.journalled(
                    journal,
                    txn,
                    WalRecordKind::Delete,
                    self.hidden_change(txn, row),
                    self.deleted(txn, row),
                )
            },
        }
    }
}

/// An undo changes the versions, the current ones and the maintenance log alone.
pub proof fn lemma_undo_keeps(t: HeapTableModel, txn: TxnId, writes: Seq<RowUndo>)
    ensures
        t.all_undone(txn, writes).table == t.table,
        t.all_undone(txn, writes).arity == t.arity,
        t.all_undone(txn, writes).next_row_id == t.next_row_id,
        t.all_undone(txn, writes).next_seq == t.next_seq,
        t.all_undone(txn, writes).next_address == t.next_address,
        t.all_undone(txn, writes).writes == t.writes,
        t.all_undone(txn, writes).resumed == t.resumed,
    decreases writes.len(),
{
    if writes.len() > 0 && t.undo_fault(txn, writes.last()) is None {
        lemma_undo_keeps(t.undone(txn, writes.last()), txn, writes.drop_last());
    }
}

/// Whether `a` comes before `b`: by row, then by serial.
pub open spec fn key_before(a: (u64, u64), b: (u64, u64)) -> bool {
    a.0 < b.0 || (a.0 == b.0 && a.1 < b.1)
}

/// Whether the keys come in order, none twice.
pub open spec fn keys_sorted(keys: Seq<(u64, u64)>) -> bool {
    forall|i: int, j: int|
        0 <= i < j < keys.len() ==> key_before(#[trigger] keys[i], #[trigger] keys[j])
}

} // verus!
