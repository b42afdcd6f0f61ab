//! Which rows of a durable table a transaction may write, what a write changes and records, and what it
//! leaves alone.

use vstd::prelude::*;

use super::bytes::lemma_byte_ranges;
use super::encode::{law_short_row_reads_back, row_bytes};
use super::journal::JournalModel;
use super::storage::DiskModel;
use super::table_model::{data_of, legible, HeapTableModel, IndexChangeModel, RowUndo};
use super::version::NO_XMAX;
use super::wal::WalRecordKind;
use super::wal_payload::{change_of, law_row_change_reads_back};
use crate::error::{Bug, Corruption, InternalError};
use crate::ids::{RowId, TableId, TxnId};
use crate::snapshot::TxnStatus;
use crate::value::ValueModel;

verus! {

/// Whether a journal tells that a transaction is over.
pub open spec fn is_over(j: JournalModel, txn: TxnId) -> bool {
    j.txns.contains_key(txn.0) && (j.txns[txn.0].status == TxnStatus::Committed
        || j.txns[txn.0].status == TxnStatus::Aborted)
}

/// A row may be inserted exactly where it has a value for each column, and its transaction is a real
/// one that is not over.
pub proof fn law_insert_is_refused_for_a_reason(
    t: HeapTableModel,
    j: JournalModel,
    txn: TxnId,
    values: nat,
)
    ensures
        t.insert_refusal(txn, values, j) is None <==> txn.0 != NO_XMAX && values == t.arity
            && !is_over(j, txn),
{
}

/// A row may be replaced or deleted exactly where it is there, nothing took its last version away, the
/// transaction itself or one that committed wrote that version, and the transaction is a real one that
/// is not over; a replacement has a value for each column.
pub proof fn law_replacement_is_refused_for_a_reason(
    t: HeapTableModel,
    j: JournalModel,
    txn: TxnId,
    row: RowId,
    values: Option<nat>,
)
    ensures
        t.replace_refusal(txn, row, values, j) is None <==> {
            let last = t.contents[(row.0, t.current[row.0])].header;
            &&& txn.0 != NO_XMAX
            &&& values matches Some(n) ==> n == t.arity
            &&& t.current.contains_key(row.0)
            &&& last.xmax is None
            &&& last.xmin == txn || !j.txns.contains_key(last.xmin.0) || j.txns[last.xmin.0].status
                == TxnStatus::Committed
            &&& !is_over(j, txn)
        },
{
}

/// An accepted insert gives a fresh row one version that reads back as what was given, changes no other
/// version, and records it at the end of the journal.
pub proof fn law_insert_adds_one_version(
    t: HeapTableModel,
    j: JournalModel,
    txn: TxnId,
    data: Seq<ValueModel>,
    k: (u64, u64),
)
    requires
        t.wf(),
        t.insert_outcome(j, txn, data).error is None,
    ensures
        ({
            let u = t.insert_outcome(j, txn, data).table;
            let after = t.insert_outcome(j, txn, data).journal;
            let id = t.next_row_id;
            let fresh = (id, t.next_seq);
            let record = after.log.last();
            &&& !t.contents.contains_key(fresh)
            &&& u.contents.contains_key(fresh)
            &&& u.contents[fresh].header.xmin == txn
            &&& u.contents[fresh].header.xmax is None
            &&& legible(u.contents[fresh]) && data_of(u.contents[fresh]) == data
            &&& u.current.contains_key(id) && u.current[id] == fresh.1
            &&& k != fresh ==> u.contents.contains_key(k) == t.contents.contains_key(k)
            &&& k != fresh && t.contents.contains_key(k) ==> u.contents[k] == t.contents[k]
            &&& k.0 != id ==> u.current.contains_key(k.0) == t.current.contains_key(k.0)
            &&& k.0 != id && t.current.contains_key(k.0) ==> u.current[k.0] == t.current[k.0]
            &&& u.next_row_id == id + 1
            &&& u.next_seq == t.next_seq + 1
            &&& record.kind == WalRecordKind::Insert
            &&& record.txn == txn
            &&& change_of(record.payload).table == t.table
            &&& change_of(record.payload).header == u.contents[fresh].header
            &&& change_of(record.payload).columns == u.contents[fresh].columns
        }),
{
    let row = RowId(t.next_row_id);
    let change = t.fresh_change(txn, row, data);
    lemma_byte_ranges();
    law_short_row_reads_back(data);
    law_row_change_reads_back(change);
}

/// An accepted update gives a row one more version that reads back as what was given, marks the one
/// before as taken away, changes no other version, and records it at the end of the journal.
pub proof fn law_update_replaces_the_last_version(
    t: HeapTableModel,
    j: JournalModel,
    txn: TxnId,
    row: RowId,
    data: Seq<ValueModel>,
    k: (u64, u64),
)
    requires
        t.wf(),
        t.update_outcome(j, txn, row, data).error is None,
    ensures
        ({
            let u = t.update_outcome(j, txn, row, data).table;
            let after = t.update_outcome(j, txn, row, data).journal;
            let fresh = (row.0, t.next_seq);
            let old = (row.0, t.current[row.0]);
            let record = after.log.last();
            &&& !t.contents.contains_key(fresh)
            &&& u.contents.contains_key(fresh)
            &&& u.contents[fresh].header.xmin == txn
            &&& u.contents[fresh].header.xmax is None
            &&& legible(u.contents[fresh]) && data_of(u.contents[fresh]) == data
            &&& u.current.contains_key(row.0) && u.current[row.0] == fresh.1
            &&& u.contents.contains_key(old)
            &&& u.contents[old].header.xmax == Some(txn)
            &&& u.contents[old].header.xmin == t.contents[old].header.xmin
            &&& u.contents[old].columns == t.contents[old].columns
            &&& k != fresh ==> u.contents.contains_key(k) == t.contents.contains_key(k)
            &&& k != fresh && k != old && t.contents.contains_key(k) ==> u.contents[k]
                == t.contents[k]
            &&& k.0 != row.0 ==> u.current.contains_key(k.0) == t.current.contains_key(k.0)
            &&& k.0 != row.0 && t.current.contains_key(k.0) ==> u.current[k.0] == t.current[k.0]
            &&& u.next_row_id == t.next_row_id
            &&& u.next_seq == t.next_seq + 1
            &&& record.kind == WalRecordKind::Update
            &&& record.txn == txn
            &&& change_of(record.payload).table == t.table
            &&& change_of(record.payload).header == u.contents[fresh].header
            &&& change_of(record.payload).columns == u.contents[fresh].columns
        }),
{
    let change = t.fresh_change(txn, row, data);
    lemma_byte_ranges();
    law_short_row_reads_back(data);
    law_row_change_reads_back(change);
    assert(t.contents.contains_key((row.0, t.current[row.0])));
}

/// An accepted delete marks the last version of a row as taken away, changes no other version, and
/// records it at the end of the journal.
pub proof fn law_delete_marks_the_last_version(
    t: HeapTableModel,
    j: JournalModel,
    txn: TxnId,
    row: RowId,
    k: (u64, u64),
)
    requires
        t.wf(),
        t.delete_outcome(j, txn, row).error is None,
    ensures
        ({
            let u = t.delete_outcome(j, txn, row).table;
            let after = t.delete_outcome(j, txn, row).journal;
            let old = (row.0, t.current[row.0]);
            let record = after.log.last();
            &&& u.contents.contains_key(old)
            &&& u.contents[old].header.xmax == Some(txn)
            &&& u.contents[old].header.xmin == t.contents[old].header.xmin
            &&& u.contents[old].columns == t.contents[old].columns
            &&& u.contents.contains_key(k) == t.contents.contains_key(k)
            &&& k != old && t.contents.contains_key(k) ==> u.contents[k] == t.contents[k]
            &&& u.current == t.current
            &&& u.next_row_id == t.next_row_id
            &&& record.kind == WalRecordKind::Delete
            &&& record.txn == txn
            &&& change_of(record.payload).table == t.table
            &&& change_of(record.payload).header.row == row
            &&& change_of(record.payload).header.seq == old.1
            &&& change_of(record.payload).header.xmax == Some(txn)
        }),
{
    let old = (row.0, t.current[row.0]);
    assert(t.contents.contains_key(old));
    assert(t.contents[old].key() == old);
    let change = t.hidden_change(txn, row);
    law_row_change_reads_back(change);
}

/// A write that is refused leaves every version as it was, and no record of it in the journal but that
/// its transaction began.
pub proof fn law_refused_write_leaves_the_versions(
    t: HeapTableModel,
    j: JournalModel,
    txn: TxnId,
    row: RowId,
    data: Seq<ValueModel>,
)
    ensures
        t.insert_outcome(j, txn, data).error is Some ==> {
            let o = t.insert_outcome(j, txn, data);
            &&& o.table.contents == t.contents && o.table.current == t.current
            &&& o.table.next_row_id == t.next_row_id
            &&& o.journal.log == j.log || o.journal.log.drop_last() == j.log
                && o.journal.log.last().kind == WalRecordKind::Begin
        },
        t.update_outcome(j, txn, row, data).error is Some ==> {
            let o = t.update_outcome(j, txn, row, data);
            &&& o.table.contents == t.contents && o.table.current == t.current
            &&& o.journal.log == j.log || o.journal.log.drop_last() == j.log
                && o.journal.log.last().kind == WalRecordKind::Begin
        },
        t.delete_outcome(j, txn, row).error is Some ==> {
            let o = t.delete_outcome(j, txn, row);
            &&& o.table.contents == t.contents && o.table.current == t.current
            &&& o.journal.log == j.log || o.journal.log.drop_last() == j.log
                && o.journal.log.last().kind == WalRecordKind::Begin
        },
{
    let b = j.begun(txn, t.table);
    assert(b.log == j.log || b.log.drop_last() =~= j.log && b.log.last().kind
        == WalRecordKind::Begin);
}

/// A write of one table leaves the others, the definitions and the counters as they were.
pub proof fn law_write_leaves_the_other_tables(m: DiskModel, n: DiskModel, table: TableId, t: u64)
    requires
        m.same_but(n, table),
    ensures
        n.tables.contains_key(t) == m.tables.contains_key(t),
        m.tables.contains_key(t) && t != table.0 as u64 ==> n.tables[t] == m.tables[t],
        n.tables[table.0 as u64].store.shape == m.tables[table.0 as u64].store.shape,
        n.tables[table.0 as u64].db == m.tables[table.0 as u64].db,
        n.databases == m.databases,
        n.indexes == m.indexes,
        n.control == m.control,
{
    assert(n.tables.dom().contains(t) == m.tables.dom().contains(t));
}

/// Once a row is deleted, or replaced by a transaction that is still running, no other transaction may
/// write it.
pub proof fn law_written_row_is_not_written_over(
    t: HeapTableModel,
    j: JournalModel,
    txn: TxnId,
    other: TxnId,
    row: RowId,
    data: Seq<ValueModel>,
    values: Option<nat>,
)
    requires
        t.wf(),
        other != txn,
    ensures
        t.update_outcome(j, txn, row, data).error is None ==> {
            let o = t.update_outcome(j, txn, row, data);
            o.table.replace_refusal(other, row, values, o.journal) is Some
        },
        t.delete_outcome(j, txn, row).error is None ==> {
            let o = t.delete_outcome(j, txn, row);
            &&& o.table.replace_refusal(other, row, values, o.journal) is Some
            &&& o.table.replace_refusal(txn, row, values, o.journal) is Some
        },
{
}

/// A refused write is told why, the first reason that holds: a transaction number that is reserved, a
/// value too many or too few, a row that is not there, that was taken away, or that another transaction
/// is writing, and a transaction that is over.
pub proof fn law_refused_write_is_told_why(
    t: HeapTableModel,
    j: JournalModel,
    txn: TxnId,
    row: RowId,
    values: nat,
)
    ensures
        ({
            let r = t.replace_refusal(txn, row, Some(values), j);
            let last = t.contents[(row.0, t.current[row.0])].header;
            let settled = !j.txns.contains_key(last.xmin.0) || j.txns[last.xmin.0].status
                == TxnStatus::Committed;
            if txn.0 == NO_XMAX {
                r == Some(InternalError::Bug(Bug::ReservedTxn(txn)))
            } else if values != t.arity {
                r == Some(
                    InternalError::Bug(
                        Bug::WrongArity {
                            table: t.table,
                            values: values as usize,
                            columns: t.arity as usize,
                        },
                    ),
                )
            } else if !t.current.contains_key(row.0) {
                r == Some(
                    if t.lost.contains(row.0) {
                        InternalError::Corruption(Corruption::NoRecord { table: t.table, row })
                    } else {
                        InternalError::Bug(Bug::UnknownRow { table: t.table, row })
                    },
                )
            } else if last.xmax is Some {
                r == Some(
                    InternalError::Bug(
                        Bug::StaleRow { table: t.table, row, by: last.xmax->0 },
                    ),
                )
            } else if last.xmin != txn && !settled {
                r == Some(
                    InternalError::Bug(
                        Bug::RowBeingWritten {
                            table: t.table,
                            row,
                            by: last.xmin,
                            status: j.txns[last.xmin.0].status,
                        },
                    ),
                )
            } else if is_over(j, txn) {
                r == Some(
                    InternalError::Bug(
                        Bug::FinishedTxn { txn, status: j.txns[txn.0].status },
                    ),
                )
            } else {
                r is None
            }
        }),
        ({
            let r = t.insert_refusal(txn, values, j);
            if txn.0 == NO_XMAX {
                r == Some(InternalError::Bug(Bug::ReservedTxn(txn)))
            } else if values != t.arity {
                r == Some(
                    InternalError::Bug(
                        Bug::WrongArity {
                            table: t.table,
                            values: values as usize,
                            columns: t.arity as usize,
                        },
                    ),
                )
            } else if is_over(j, txn) {
                r == Some(
                    InternalError::Bug(
                        Bug::FinishedTxn { txn, status: j.txns[txn.0].status },
                    ),
                )
            } else {
                r is None
            }
        }),
{
}

/// An index learns of every version that comes and goes: of the new one of an insert or an update, of
/// nothing at a delete, and of the one an undo takes away.
pub proof fn law_index_learns_of_every_version(
    t: HeapTableModel,
    j: JournalModel,
    txn: TxnId,
    row: RowId,
    data: Seq<ValueModel>,
)
    requires
        t.wf(),
    ensures
        t.insert_outcome(j, txn, data).error is None ==> t.insert_outcome(j, txn, data).table.changes
            == t.changes.push(
            IndexChangeModel::Added { row: RowId(t.next_row_id), seq: t.next_seq, data },
        ),
        t.update_outcome(j, txn, row, data).error is None ==> t.update_outcome(
            j,
            txn,
            row,
            data,
        ).table.changes == t.changes.push(IndexChangeModel::Added { row, seq: t.next_seq, data }),
        t.delete_outcome(j, txn, row).error is None ==> t.delete_outcome(j, txn, row).table.changes
            == t.changes,
        t.undo_fault(txn, RowUndo::Insert(row)) is None ==> t.undone(
            txn,
            RowUndo::Insert(row),
        ).changes == t.changes.push(
            IndexChangeModel::Removed {
                row,
                seq: t.current[row.0],
                data: data_of(t.contents[(row.0, t.current[row.0])]),
            },
        ),
        t.undo_fault(txn, RowUndo::Update(row)) is None ==> t.undone(
            txn,
            RowUndo::Update(row),
        ).changes == t.changes.push(
            IndexChangeModel::Removed {
                row,
                seq: t.current[row.0],
                data: data_of(t.contents[(row.0, t.current[row.0])]),
            },
        ),
{
}

/// A write that is not refused goes through, as long as there is a row identifier, a serial, an address and
/// two numbers of the journal left, and its record takes no more than a mebibyte.
pub proof fn law_write_goes_through(
    t: HeapTableModel,
    j: JournalModel,
    txn: TxnId,
    row: RowId,
    data: Seq<ValueModel>,
)
    requires
        t.wf(),
        j.log.len() + 2 <= u64::MAX,
        row_bytes(data).len() <= 1_048_506,
        t.next_row_id < u64::MAX,
        t.next_seq < u64::MAX,
        t.next_address < u64::MAX,
    ensures
        t.insert_refusal(txn, data.len(), j) is None ==> t.insert_outcome(j, txn, data).error is None,
        t.replace_refusal(txn, row, Some(data.len()), j) is None ==> t.update_outcome(
            j,
            txn,
            row,
            data,
        ).error is None,
        t.replace_refusal(txn, row, None, j) is None ==> t.delete_outcome(j, txn, row).error is None,
{
    let fresh = RowId(t.next_row_id);
    if txn.0 != NO_XMAX {
        law_row_change_reads_back(t.fresh_change(txn, fresh, data));
        law_row_change_reads_back(t.fresh_change(txn, row, data));
        if t.current.contains_key(row.0) {
            assert(t.contents.contains_key((row.0, t.current[row.0])));
            law_row_change_reads_back(t.hidden_change(txn, row));
        }
    }
}

} // verus!
