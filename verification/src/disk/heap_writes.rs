//! The writes of a table: inserts, updates and deletes, each recorded in the journal before the
//! heap changes, and the undo of them.

use vstd::prelude::*;

use super::contents::{lemma_hidden, stored_in};
use super::encode::{encode_row, row_bytes};
use super::heap_reads::{in_order, keys_of};
use super::heap_table::{belongs, HeapTable, StoredVersion, TableTxn};
use super::redo::is_previous;
use super::journal::{Journal, JournalModel};
use super::page::Lsn;
use super::table_model::{key_before, latest, HeapTableModel, RowUndo, WriteOutcome};
use super::version::{check_txn, VersionHeader, NO_XMAX, VERSION_PREFIX_LEN};
use super::wal::WalRecordKind;
use super::wal_payload::RowChange;
use crate::error::{Bug, Corruption, InternalError};
use crate::ids::{RowId, TxnId};
use crate::row::Row;
use crate::snapshot::TxnStatus;

verus! {

/// Whether an outcome is what a write left and answered.
pub open spec fn is_outcome<T>(
    o: WriteOutcome,
    table: HeapTableModel,
    journal: JournalModel,
    r: Result<T, InternalError>,
) -> bool {
    &&& table == o.table
    &&& journal == o.journal
    &&& match r {
        Ok(_) => o.error is None,
        Err(e) => o.error == Some(e),
    }
}

impl HeapTable {
    /// Checks what [`HeapTable::insert`] checks first, without writing anything.
    ///
    /// # Errors
    ///
    /// A bug for the reserved transaction, the wrong arity and a finished transaction.
    pub fn check_insert(&self, journal: &Journal, txn: TxnId, row: &Row) -> (r: Result<
        (),
        InternalError,
    >)
        ensures
            match r {
                Ok(_) => self@.insert_refusal(txn, row@.len(), journal@) is None,
                Err(e) => self@.insert_refusal(txn, row@.len(), journal@) == Some(e),
            },
    {
        match check_txn(txn) {
            Ok(_) => {},
            Err(e) => {
                return Err(e);
            },
        }
        match self.check_arity(row) {
            Ok(_) => {},
            Err(e) => {
                return Err(e);
            },
        }
        journal.check_writable(txn)
    }

    /// Checks the precondition of `update` and `delete` on the current version of a row: it
    /// carries no `xmax`, and it was created by `txn` or by a committed transaction.
    fn check_current(&self, journal: &Journal, txn: TxnId, current: &StoredVersion) -> (r: Result<
        (),
        InternalError,
    >)
        requires
            self@.current.contains_key(current.header.row.0),
            self@.version(current.header.row).header == current.header,
        ensures
            match r {
                Ok(_) => self@.writable(txn, current.header.row, journal@.st()),
                Err(e) => !self@.writable(txn, current.header.row, journal@.st()) && e
                    == self@.unwritable(txn, current.header.row, journal@.st()),
            },
    {
        let header: VersionHeader = current.header;
        match header.xmax {
            Some(by) => {
                return Err(
                    InternalError::Bug(
                        Bug::StaleRow { table: self.heap.table, row: header.row, by },
                    ),
                );
            },
            None => {},
        }
        let status: TxnStatus = journal.txn_status(header.xmin);
        if header.xmin != txn && status != TxnStatus::Committed {
            return Err(
                InternalError::Bug(
                    Bug::RowBeingWritten {
                        table: self.heap.table,
                        row: header.row,
                        by: header.xmin,
                        status,
                    },
                ),
            );
        }
        Ok(())
    }

    /// Checks what `update` and `delete` check first, without writing anything, and answers the
    /// current version of the row.
    fn check_replace(
        &self,
        journal: &Journal,
        txn: TxnId,
        id: RowId,
        row: Option<&Row>,
    ) -> (r: Result<StoredVersion, InternalError>)
        requires
            self.wf(),
        ensures
            ({
                let values = match row {
                    Some(row) => Some(row@.len()),
                    None => None,
                };
                match r {
                    Ok(v) => {
                        &&& self@.replace_refusal(txn, id, values, journal@) is None
                        &&& v.rid == self.state.directory@[id.0]
                        &&& v.reads(self.heap@)
                        &&& v.key() == (id.0, self@.current[id.0])
                        &&& stored_in(v.bytes@) == self@.version(id)
                    },
                    Err(e) => self@.replace_refusal(txn, id, values, journal@) == Some(e),
                }
            }),
    {
        match check_txn(txn) {
            Ok(_) => {},
            Err(e) => {
                return Err(e);
            },
        }
        match row {
            Some(row) => match self.check_arity(row) {
                Ok(_) => {},
                Err(e) => {
                    return Err(e);
                },
            },
            None => {},
        }
        let current: StoredVersion = match self.current(id) {
            Ok(current) => current,
            Err(e) => {
                return Err(e);
            },
        };
        assert(current.header.row == id);
        match self.check_current(journal, txn, &current) {
            Ok(_) => {},
            Err(e) => {
                return Err(e);
            },
        }
        match journal.check_writable(txn) {
            Ok(_) => Ok(current),
            Err(e) => Err(e),
        }
    }

    /// Checks what [`HeapTable::update`] checks first, without writing anything.
    ///
    /// # Errors
    ///
    /// A bug for the reserved transaction, the wrong arity, an unknown row, a current version
    /// that `txn` may not replace, and a finished transaction.
    pub fn check_update(&self, journal: &Journal, txn: TxnId, id: RowId, row: &Row) -> (r: Result<
        (),
        InternalError,
    >)
        requires
            self.wf(),
        ensures
            match r {
                Ok(_) => self@.replace_refusal(txn, id, Some(row@.len()), journal@) is None,
                Err(e) => self@.replace_refusal(txn, id, Some(row@.len()), journal@) == Some(e),
            },
    {
        match self.check_replace(journal, txn, id, Some(row)) {
            Ok(_) => Ok(()),
            Err(e) => Err(e),
        }
    }

    /// Registers the first write of `txn`, appending the `Begin` record if there is none, and
    /// opens its undo log.
    fn begin_write(&mut self, journal: &mut Journal, txn: TxnId) -> (r: Result<(), InternalError>)
        requires
            old(self).wf(),
            old(journal).wf(),
        ensures
            final(self).wf(),
            final(journal).wf(),
            final(self).shape == old(self).shape,
            final(self).heap == old(self).heap,
            final(self).state.directory == old(self).state.directory,
            match r {
                Ok(_) => {
                    &&& !old(journal)@.begin_refused(txn)
                    &&& final(journal)@ == old(journal)@.begun(txn, old(self)@.table)
                    &&& final(self)@ == old(self)@.opened(txn)
                },
                Err(e) => {
                    &&& old(journal)@.begin_refused(txn)
                    &&& e == old(journal)@.refusal(WalRecordKind::Begin, 0)
                    &&& final(journal)@ == old(journal)@.noted(txn, old(self)@.table)
                    &&& *final(self) == *old(self)
                },
            },
    {
        match journal.begin_txn(txn, self.heap.table) {
            Ok(_) => {},
            Err(e) => {
                return Err(e);
            },
        }
        let ghost before = *self;
        if !self.state.txns.contains_key(txn.0) {
            let none = TableTxn { writes: Vec::new() };
            assert(none.deep_view() =~= Seq::<RowUndo>::empty());
            self.state.txns.insert(txn.0, none);
        } else {
            assert(before@.writes.insert(txn.0, before@.writes_of(txn)) =~= before@.writes);
        }
        proof {
            assert(self@ =~= before@.opened(txn));
        }
        Ok(())
    }

    /// Hands out the next serial number of a version.
    fn take_seq(&mut self) -> (r: Result<u64, InternalError>)
        requires
            old(self).wf(),
        ensures
            final(self).wf(),
            final(self).shape == old(self).shape,
            final(self).heap == old(self).heap,
            final(self).state.directory == old(self).state.directory,
            match r {
                Ok(seq) => {
                    &&& old(self)@.next_seq < u64::MAX
                    &&& seq == old(self)@.next_seq
                    &&& final(self)@ == old(self)@.serial_taken()
                },
                Err(e) => {
                    &&& old(self)@.next_seq == u64::MAX
                    &&& *final(self) == *old(self)
                    &&& e == InternalError::Bug(Bug::SerialsExhausted(old(self)@.table))
                },
            },
    {
        let seq: u64 = self.state.next_seq;
        match seq.checked_add(1) {
            Some(next) => {
                let ghost before = *self;
                self.state.next_seq = next;
                assert(self@ =~= before@.serial_taken());
                Ok(seq)
            },
            None => Err(InternalError::Bug(Bug::SerialsExhausted(self.heap.table))),
        }
    }

    /// Appends the record of one row write: the content of the version for an insert and an
    /// update, none for a delete.
    fn log_row(
        &self,
        journal: &mut Journal,
        kind: WalRecordKind,
        txn: TxnId,
        header: &VersionHeader,
        row: Option<&Row>,
    ) -> (r: Result<Lsn, InternalError>)
        requires
            old(journal).wf(),
        ensures
            final(journal).wf(),
            ({
                let change = self@.change(
                    *header,
                    match row {
                        Some(row) => row_bytes(row@),
                        None => Seq::empty(),
                    },
                );
                match r {
                    Ok(_) => {
                        &&& !old(journal)@.refuses(change.encoded().len())
                        &&& final(journal)@ == old(journal)@.logged(kind, txn, change.encoded())
                    },
                    Err(e) => {
                        &&& old(journal)@.refuses(change.encoded().len())
                        &&& e == old(journal)@.refusal(kind, change.encoded().len())
                        &&& final(journal)@ == old(journal)@
                    },
                }
            }),
    {
        let mut columns: Vec<u8> = Vec::new();
        match row {
            Some(row) => {
                encode_row(row, &mut columns);
                assert(columns@ =~= row_bytes(row@));
            },
            None => {
                assert(columns@ =~= Seq::<u8>::empty());
            },
        }
        let change = RowChange { table: self.heap.table, header: *header, columns };
        let payload: Vec<u8> = change.encode();
        let ghost before = journal@;
        let r = journal.wal.append(kind, txn, payload.as_slice());
        proof {
            match r {
                Ok(_) => {
                    assert(journal@ =~= before.logged(kind, txn, payload@));
                },
                Err(_) => {},
            }
        }
        r
    }

    /// Records one write of `txn` in its undo log.
    fn log(&mut self, txn: TxnId, entry: RowUndo)
        requires
            old(self).wf(),
        ensures
            final(self).wf(),
            final(self).shape == old(self).shape,
            final(self)@ == old(self)@.with_write(txn, entry),
    {
        let ghost before = *self;
        let mut log: TableTxn = match self.state.txns.remove(txn.0) {
            Some(log) => log,
            None => TableTxn { writes: Vec::new() },
        };
        assert(log.deep_view() =~= before@.writes_of(txn));
        log.writes.push(entry);
        let ghost writes = log.deep_view();
        self.state.txns.insert(txn.0, log);
        proof {
            assert(self@.writes =~= before@.writes.insert(txn.0, writes));
            assert(self@ =~= before@.with_write(txn, entry));
        }
    }

    /// Adds a logical row holding `row`, created by `txn`, and answers its fresh identifier.
    ///
    /// The record of the write goes to the journal before the heap is changed, and a `Begin`
    /// precedes it when this is the first write of `txn`.
    ///
    /// # Errors
    ///
    /// A bug for the reserved transaction, a row of the wrong arity, a finished transaction, and
    /// when the identifiers, the serials, the addresses or the numbers of the journal are
    /// exhausted; a bug for a row too long for a record of the journal, which leaves the rows as
    /// they were.
    pub fn insert(&mut self, journal: &mut Journal, txn: TxnId, row: &Row) -> (r: Result<
        RowId,
        InternalError,
    >)
        requires
            old(self).wf(),
            old(journal).wf(),
        ensures
            final(self).wf(),
            final(journal).wf(),
            final(self).shape == old(self).shape,
            is_outcome(
                old(self)@.insert_outcome(old(journal)@, txn, row@),
                final(self)@,
                final(journal)@,
                r,
            ),
            r matches Ok(id) ==> id.0 == old(self)@.next_row_id,
    {
        let ghost first = *self;
        match self.check_insert(journal, txn, row) {
            Ok(_) => {},
            Err(e) => {
                return Err(e);
            },
        }
        let id: RowId = RowId(self.state.next_row_id);
        let next: u64 = match self.state.next_row_id.checked_add(1) {
            Some(next) => next,
            None => {
                return Err(InternalError::Bug(Bug::RowIdsExhausted(self.heap.table)));
            },
        };
        if self.heap.next == u64::MAX {
            return Err(InternalError::Bug(Bug::HeapFull(self.heap.table)));
        }
        match self.begin_write(journal, txn) {
            Ok(_) => {},
            Err(e) => {
                return Err(e);
            },
        }
        let seq: u64 = match self.take_seq() {
            Ok(seq) => seq,
            Err(e) => {
                return Err(e);
            },
        };
        let header = VersionHeader { row: id, xmin: txn, xmax: None, seq };
        match self.log_row(journal, WalRecordKind::Insert, txn, &header, Some(row)) {
            Ok(_) => {},
            Err(e) => {
                return Err(e);
            },
        }
        assert(!self@.contents.contains_key((id.0, seq))) by {
            if first@.contents.contains_key((id.0, seq)) {
                assert(seq < first@.next_seq);
            }
        }
        self.write_version(&header, row);
        let ghost written = *self;
        self.state.next_row_id = next;
        assert(self@ =~= (HeapTableModel { next_row_id: next, ..written@ }));
        self.log(txn, RowUndo::Insert(id));
        assert(self@ =~= first@.inserted(txn, row@));
        Ok(id)
    }

    /// Replaces the content of `id` with `row` on behalf of `txn`, keeping the identifier.
    ///
    /// The current version takes `txn` as its `xmax` and a new version holding `row` is chained
    /// after it; one record describes the pair.
    ///
    /// # Errors
    ///
    /// A bug for the reserved transaction, the wrong arity, an unknown row, a current version
    /// that already carries an `xmax` or that was created by another transaction that has not
    /// committed, a finished transaction; and those of the journal and of the counters, as for
    /// an insert.
    pub fn update(&mut self, journal: &mut Journal, txn: TxnId, id: RowId, row: &Row) -> (r: Result<
        (),
        InternalError,
    >)
        requires
            old(self).wf(),
            old(journal).wf(),
        ensures
            final(self).wf(),
            final(journal).wf(),
            final(self).shape == old(self).shape,
            is_outcome(
                old(self)@.update_outcome(old(journal)@, txn, id, row@),
                final(self)@,
                final(journal)@,
                r,
            ),
    {
        let ghost first = *self;
        let current: StoredVersion = match self.check_replace(journal, txn, id, Some(row)) {
            Ok(current) => current,
            Err(e) => {
                return Err(e);
            },
        };
        if self.heap.next == u64::MAX {
            return Err(InternalError::Bug(Bug::HeapFull(self.heap.table)));
        }
        match self.begin_write(journal, txn) {
            Ok(_) => {},
            Err(e) => {
                return Err(e);
            },
        }
        let seq: u64 = match self.take_seq() {
            Ok(seq) => seq,
            Err(e) => {
                return Err(e);
            },
        };
        let header = VersionHeader { row: id, xmin: txn, xmax: None, seq };
        match self.log_row(journal, WalRecordKind::Update, txn, &header, Some(row)) {
            Ok(_) => {},
            Err(e) => {
                return Err(e);
            },
        }
        assert(!first@.contents.contains_key((id.0, seq))) by {
            if first@.contents.contains_key((id.0, seq)) {
                assert(seq < first@.next_seq);
            }
        }
        assert(first@.contents.contains_key((id.0, first@.current[id.0])));
        self.set_xmax(&current, Some(txn));
        self.write_version(&header, row);
        self.log(txn, RowUndo::Update(id));
        assert(self@ =~= first@.updated(txn, id, row@));
        Ok(())
    }

    /// Deletes the logical row `id` on behalf of `txn`: its current version takes `txn` as its
    /// `xmax`.
    ///
    /// # Errors
    ///
    /// Those of [`HeapTable::update`], the arity and the counters apart.
    pub fn delete(&mut self, journal: &mut Journal, txn: TxnId, id: RowId) -> (r: Result<
        (),
        InternalError,
    >)
        requires
            old(self).wf(),
            old(journal).wf(),
        ensures
            final(self).wf(),
            final(journal).wf(),
            final(self).shape == old(self).shape,
            is_outcome(
                old(self)@.delete_outcome(old(journal)@, txn, id),
                final(self)@,
                final(journal)@,
                r,
            ),
    {
        let ghost first = *self;
        let current: StoredVersion = match self.check_replace(journal, txn, id, None) {
            Ok(current) => current,
            Err(e) => {
                return Err(e);
            },
        };
        match self.begin_write(journal, txn) {
            Ok(_) => {},
            Err(e) => {
                return Err(e);
            },
        }
        // The record names the version being hidden, with the `xmax` the write sets.
        let hidden = VersionHeader {
            row: current.header.row,
            xmin: current.header.xmin,
            xmax: Some(txn),
            seq: current.header.seq,
        };
        match self.log_row(journal, WalRecordKind::Delete, txn, &hidden, None) {
            Ok(_) => {},
            Err(e) => {
                return Err(e);
            },
        }
        self.set_xmax(&current, Some(txn));
        self.log(txn, RowUndo::Delete(id));
        assert(self@ =~= first@.deleted(txn, id));
        Ok(())
    }
}

impl HeapTable {
    /// The current version of `row`, checked to be the one `txn` created and left current: what
    /// the undo of an insert or of an update takes away.
    fn tail_created_by(&self, txn: TxnId, row: RowId) -> (r: Result<StoredVersion, InternalError>)
        requires
            self.wf(),
        ensures
            match r {
                Ok(v) => {
                    &&& self@.current.contains_key(row.0)
                    &&& self@.tail_fault(txn, row) is None
                    &&& v.rid == self.state.directory@[row.0]
                    &&& v.reads(self.heap@)
                    &&& v.bytes@.len() >= VERSION_PREFIX_LEN
                },
                Err(e) => self@.tail_fault(txn, row) == Some(e),
            },
    {
        let current: StoredVersion = match self.current(row) {
            Ok(current) => current,
            Err(e) => {
                return Err(e);
            },
        };
        if current.header.xmin != txn || current.header.xmax.is_some() {
            return Err(
                InternalError::Corruption(
                    Corruption::NotTheCreated { table: self.heap.table, row, txn },
                ),
            );
        }
        Ok(current)
    }

    /// Applies one undo entry of `txn`.
    ///
    /// # Errors
    ///
    /// A corruption when the chain of the row does not end with the write being undone, or when the
    /// columns of the version to take away are no row.
    fn undo(&mut self, txn: TxnId, entry: RowUndo) -> (r: Result<(), InternalError>)
        requires
            old(self).wf(),
        ensures
            final(self).wf(),
            final(self).shape == old(self).shape,
            final(self)@ == old(self)@.undone(txn, entry),
            match r {
                Ok(_) => old(self)@.undo_fault(txn, entry) is None,
                Err(e) => old(self)@.undo_fault(txn, entry) == Some(e),
            },
    {
        match entry {
            RowUndo::Insert(row) => {
                let created: StoredVersion = match self.tail_created_by(txn, row) {
                    Ok(created) => created,
                    Err(e) => {
                        return Err(e);
                    },
                };
                self.remove_version(row, &created)
            },
            RowUndo::Update(row) => {
                let created: StoredVersion = match self.tail_created_by(txn, row) {
                    Ok(created) => created,
                    Err(e) => {
                        return Err(e);
                    },
                };
                match self.remove_version(row, &created) {
                    Ok(_) => {},
                    Err(e) => {
                        return Err(e);
                    },
                }
                let ghost before = *self;
                let mut chain: Vec<StoredVersion> = match self.stored_versions(Some(row)) {
                    Ok(chain) => chain,
                    Err(e) => {
                        assert(false);
                        return Err(e);
                    },
                };
                proof {
                    lemma_last_is_latest(self@, chain@, row);
                }
                let replaced: StoredVersion = match chain.pop() {
                    Some(replaced) => replaced,
                    None => {
                        return Err(
                            InternalError::Corruption(
                                Corruption::NothingUnderUpdate {
                                    table: self.heap.table,
                                    row,
                                    txn,
                                },
                            ),
                        );
                    },
                };
                let carries: bool = match replaced.header.xmax {
                    Some(x) => x == txn,
                    None => false,
                };
                if !carries {
                    return Err(
                        InternalError::Corruption(
                            Corruption::NotTheReplaced {
                                table: self.heap.table,
                                row,
                                seq: replaced.header.seq,
                                txn,
                            },
                        ),
                    );
                }
                self.set_xmax(&replaced, None);
                let ghost patched = *self;
                self.state.directory.insert(row.0, replaced.rid);
                proof {
                    let key = replaced.key();
                    lemma_hidden(before.heap@, replaced.rid.0, None);
                    assert(self@.current =~= before@.current.insert(row.0, key.1));
                    assert(self@ =~= before@.restored(row));
                    assert forall|r: u64| #[trigger] self@.current.contains_key(r) implies
                        self@.contents.contains_key((r, self@.current[r])) by {
                        if r != row.0 {
                            assert(before@.current.contains_key(r));
                        }
                    }
                }
                Ok(())
            },
            RowUndo::Delete(row) => {
                let deleted: StoredVersion = match self.current(row) {
                    Ok(deleted) => deleted,
                    Err(e) => {
                        return Err(e);
                    },
                };
                let carries: bool = match deleted.header.xmax {
                    Some(x) => x == txn,
                    None => false,
                };
                if !carries {
                    return Err(
                        InternalError::Corruption(
                            Corruption::NotTheDelete { table: self.heap.table, row, txn },
                        ),
                    );
                }
                let ghost before = *self;
                self.set_xmax(&deleted, None);
                assert(self@ =~= before@.with_xmax(row, None));
                Ok(())
            },
        }
    }
}

impl HeapTable {
    /// How many writes `txn` has in the undo log of this table.
    pub fn writes_len(&self, txn: TxnId) -> (r: usize)
        ensures
            r == self@.writes_of(txn).len(),
    {
        match self.state.txns.get(txn.0) {
            Some(log) => log.writes.len(),
            None => 0,
        }
    }

    /// Takes the writes of `txn` from `mark` on out of its undo log, oldest first.
    fn take_writes(&mut self, txn: TxnId, mark: usize) -> (r: Vec<RowUndo>)
        requires
            old(self).wf(),
        ensures
            final(self).wf(),
            final(self).shape == old(self).shape,
            final(self)@ == old(self)@.cut(txn, mark as nat),
            r@ == old(self)@.writes_after(txn, mark as nat),
    {
        let ghost before = *self;
        let mut log: TableTxn = match self.state.txns.remove(txn.0) {
            Some(log) => log,
            None => {
                assert(self@ =~= before@);
                assert(before@.writes_of(txn).skip(0) =~= Seq::<RowUndo>::empty());
                return Vec::new();
            },
        };
        let ghost writes = log.deep_view();
        let taken: Vec<RowUndo> = if mark <= log.writes.len() {
            log.writes.split_off(mark)
        } else {
            Vec::new()
        };
        let ghost left = log.deep_view();
        self.state.txns.insert(txn.0, log);
        proof {
            assert(self@.writes =~= before@.writes.insert(txn.0, left));
            if mark <= writes.len() {
                assert(left =~= writes.take(mark as int));
                assert(taken@ =~= writes.skip(mark as int));
            } else {
                assert(before@.writes.insert(txn.0, writes) =~= before@.writes);
            }
            assert(self@ =~= before@.cut(txn, mark as nat));
        }
        taken
    }

    /// Undoes writes of `txn`, the last one first.
    fn undo_all(&mut self, txn: TxnId, writes: Vec<RowUndo>) -> (r: Result<(), InternalError>)
        requires
            old(self).wf(),
        ensures
            final(self).wf(),
            final(self).shape == old(self).shape,
            final(self)@ == old(self)@.all_undone(txn, writes@),
            match r {
                Ok(_) => old(self)@.stuck(txn, writes@) is None,
                Err(e) => old(self)@.stuck(txn, writes@) == Some(e),
            },
    {
        let ghost before = self@;
        let mut left: usize = writes.len();
        assert(writes@.take(left as int) =~= writes@);
        while left > 0
            invariant
                left <= writes@.len(),
                self.wf(),
                self.shape == old(self).shape,
                before == old(self)@,
                before.all_undone(txn, writes@) == self@.all_undone(txn, writes@.take(left as int)),
                before.stuck(txn, writes@) == self@.stuck(txn, writes@.take(left as int)),
            decreases left,
        {
            proof {
                let rest = writes@.take(left as int);
                assert(rest.drop_last() =~= writes@.take(left - 1));
                assert(rest.last() == writes@[left - 1]);
            }
            match self.undo(txn, writes[left - 1]) {
                Ok(_) => {},
                Err(e) => {
                    return Err(e);
                },
            }
            left = left - 1;
        }
        Ok(())
    }

    /// Applies to this table an end of transaction the journal already holds: a commit drops the
    /// undo log, a rollback replays it backwards.
    ///
    /// # Errors
    ///
    /// A corruption when the chain of a row does not end with the write being undone, which the
    /// preconditions of the writes rule out.
    pub fn finish(&mut self, txn: TxnId, status: TxnStatus) -> (r: Result<(), InternalError>)
        requires
            old(self).wf(),
        ensures
            final(self).wf(),
            final(self).shape == old(self).shape,
            ({
                let cut = old(self)@.cut(txn, 0);
                let writes = old(self)@.writes_of(txn);
                if status == TxnStatus::Aborted {
                    &&& final(self)@ == cut.all_undone(txn, writes)
                    &&& match r {
                        Ok(_) => cut.stuck(txn, writes) is None,
                        Err(e) => cut.stuck(txn, writes) == Some(e),
                    }
                } else {
                    r is Ok && final(self)@ == cut
                }
            }),
    {
        let writes: Vec<RowUndo> = self.take_writes(txn, 0);
        assert(writes@ =~= old(self)@.writes_of(txn));
        if status == TxnStatus::Aborted {
            return self.undo_all(txn, writes);
        }
        Ok(())
    }

    /// Undoes the writes of `txn` from the `mark`-th on, the last one first, and forgets them.
    ///
    /// # Errors
    ///
    /// Those of [`HeapTable::finish`].
    pub fn rollback_to_savepoint(&mut self, txn: TxnId, mark: usize) -> (r: Result<
        (),
        InternalError,
    >)
        requires
            old(self).wf(),
        ensures
            final(self).wf(),
            final(self).shape == old(self).shape,
            ({
                let cut = old(self)@.cut(txn, mark as nat);
                let writes = old(self)@.writes_after(txn, mark as nat);
                &&& final(self)@ == cut.all_undone(txn, writes)
                &&& match r {
                    Ok(_) => cut.stuck(txn, writes) is None,
                    Err(e) => cut.stuck(txn, writes) == Some(e),
                }
            }),
    {
        let writes: Vec<RowUndo> = self.take_writes(txn, mark);
        self.undo_all(txn, writes)
    }

    /// Ends `txn` with a `Commit` record, durable before this returns, and drops its undo log. A
    /// transaction that wrote nothing is committed without a record.
    ///
    /// # Errors
    ///
    /// A bug for a transaction that already ended, for the reserved one, and when the journal has
    /// no number left.
    pub fn commit(&mut self, journal: &mut Journal, txn: TxnId) -> (r: Result<(), InternalError>)
        requires
            old(self).wf(),
            old(journal).wf(),
        ensures
            final(self).wf(),
            final(journal).wf(),
            match end_refusal(old(journal)@, txn, WalRecordKind::Commit) {
                Some(e) => {
                    &&& r == Err::<(), InternalError>(e)
                    &&& final(self)@ == old(self)@
                    &&& final(journal)@ == refused_end(old(journal)@, txn)
                },
                None => {
                    &&& r is Ok
                    &&& final(self)@ == old(self)@.cut(txn, 0)
                    &&& final(journal)@ == old(journal)@.ended(txn, WalRecordKind::Commit)
                },
            },
    {
        match check_txn(txn) {
            Ok(_) => {},
            Err(e) => {
                return Err(e);
            },
        }
        match journal.end_txn(txn, WalRecordKind::Commit) {
            Ok(_) => self.finish(txn, TxnStatus::Committed),
            Err(e) => Err(e),
        }
    }

    /// Ends `txn` with an `Abort` record, durable before the undo runs, and replays its undo log
    /// backwards.
    ///
    /// # Errors
    ///
    /// A bug as in [`HeapTable::commit`]; a corruption when the chain of a row does not end with
    /// the write being undone.
    pub fn rollback(&mut self, journal: &mut Journal, txn: TxnId) -> (r: Result<(), InternalError>)
        requires
            old(self).wf(),
            old(journal).wf(),
        ensures
            final(self).wf(),
            final(journal).wf(),
            match end_refusal(old(journal)@, txn, WalRecordKind::Abort) {
                Some(e) => {
                    &&& r == Err::<(), InternalError>(e)
                    &&& final(self)@ == old(self)@
                    &&& final(journal)@ == refused_end(old(journal)@, txn)
                },
                None => {
                    let cut = old(self)@.cut(txn, 0);
                    let writes = old(self)@.writes_of(txn);
                    &&& final(self)@ == cut.all_undone(txn, writes)
                    &&& final(journal)@ == old(journal)@.ended(txn, WalRecordKind::Abort)
                    &&& match r {
                        Ok(_) => cut.stuck(txn, writes) is None,
                        Err(e) => cut.stuck(txn, writes) == Some(e),
                    }
                },
            },
    {
        match check_txn(txn) {
            Ok(_) => {},
            Err(e) => {
                return Err(e);
            },
        }
        match journal.end_txn(txn, WalRecordKind::Abort) {
            Ok(_) => self.finish(txn, TxnStatus::Aborted),
            Err(e) => Err(e),
        }
    }
}

/// Why `txn` cannot be ended with a record of kind `kind`, if it cannot.
pub open spec fn end_refusal(journal: JournalModel, txn: TxnId, kind: WalRecordKind) -> Option<
    InternalError,
> {
    if txn.0 == NO_XMAX {
        Some(InternalError::Bug(Bug::ReservedTxn(txn)))
    } else if journal.finished(txn) {
        Some(journal.finished_error(txn))
    } else if journal.record(txn).began && journal.refuses(0) {
        Some(journal.refusal(kind, 0))
    } else {
        None
    }
}

/// The journal once the end of `txn` was refused: the reserved transaction is not registered.
pub open spec fn refused_end(journal: JournalModel, txn: TxnId) -> JournalModel {
    if txn.0 == NO_XMAX {
        journal
    } else {
        journal.registered(txn)
    }
}

/// The last version of the chain of a row is its latest one.
proof fn lemma_last_is_latest(t: HeapTableModel, chain: Seq<StoredVersion>, row: RowId)
    requires
        t.wf(),
        in_order(chain),
        forall|i: int|
            0 <= i < chain.len() ==> (#[trigger] chain[i]).header.row == row
                && t.contents.contains_key(chain[i].key()),
        forall|k: (u64, u64)| #[trigger]
            t.contents.contains_key(k) && belongs(RowId(k.0), Some(row)) ==> keys_of(
                chain,
            ).contains(k),
    ensures
        chain.len() == 0 ==> latest(t.contents, row.0) is None,
        chain.len() > 0 ==> latest(t.contents, row.0) == Some(chain.last().header.seq),
{
    let c = t.contents;
    if chain.len() == 0 {
        assert forall|p: u64| !is_previous(c, row.0, u64::MAX, p) by {
            if is_previous(c, row.0, u64::MAX, p) {
                assert(c.contains_key((row.0, p)) && belongs(RowId(row.0), Some(row)));
                assert(keys_of(chain).contains((row.0, p)));
            }
        }
    } else {
        let last = chain.last().header.seq;
        let n = chain.len() - 1;
        assert(chain[n].key() == (row.0, last));
        assert forall|q: u64| q < u64::MAX && #[trigger] c.contains_key((row.0, q)) implies q
            <= last by {
            assert(belongs(RowId(row.0), Some(row)));
            assert(keys_of(chain).contains((row.0, q)));
            let i = choose|i: int| 0 <= i < keys_of(chain).len() && keys_of(chain)[i] == (row.0, q);
            if i < n {
                assert(key_before(chain[i].key(), chain[n].key()));
            }
        }
        assert(c.contains_key((row.0, last)));
        assert(is_previous(c, row.0, u64::MAX, last));
        let p = choose|p: u64| is_previous(c, row.0, u64::MAX, p);
        assert(is_previous(c, row.0, u64::MAX, p));
        assert(p == last);
    }
}

} // verus!
