//! What the register of the transactions keeps, and what a savepoint marks.

use vstd::prelude::*;

use super::heap_reads::{is_live_key, live_keys, VersionView};
use super::heap_writes::{end_refusal, is_outcome, refused_end};
use super::heap_table::belongs;
use super::instance_laws::{lemma_table_id, lemma_wrote_nothing};
use super::journal::{mark_in, JournalModel, MarkModel};
use super::rows::is_row_outcome;
use super::storage::{Counter, DiskModel};
use super::table_model::{data_of, legible, HeapTableModel, WriteOutcome};
use super::version::NO_XMAX;
use super::wal::{RecordModel, Wal, WalRecordKind};
use crate::error::{InternalError, SqlError, SqlResult};
use crate::ids::{RowId, SavepointId, TableId, TxnId};
use crate::snapshot::TxnStatus;

verus! {

/// A savepoint marks in every table the number of writes the transaction has made there so far.
pub proof fn law_savepoint_marks_the_writes_so_far(
    m: DiskModel,
    horizon: TxnId,
    txn: TxnId,
    list: Seq<u64>,
    marks: Map<u64, usize>,
    id: SavepointId,
    t: u64,
)
    requires
        m.durable(horizon),
        m.wrote_in(txn, list),
        m.marks_now(txn, list, marks),
        m.tables.contains_key(t),
    ensures
        mark_in(MarkModel { id, writes: marks }, t) == m.rows_of(t).writes_of(txn).len(),
{
    lemma_table_id(m, t);
    if !list.contains(t) {
        assert(!marks.contains_key(t));
        lemma_wrote_nothing(m.rows_of(t), m.journal, horizon, txn);
    } else {
        assert(marks.contains_key(t));
    }
}

/// A savepoint gets the next identifier, comes after the savepoints the transaction already has, which
/// stay, and is recorded at the end of the journal; no other transaction changes.
pub proof fn law_savepoint_joins_the_others(
    j: JournalModel,
    txn: TxnId,
    mark: MarkModel,
    other: TxnId,
    i: int,
)
    requires
        !j.savepoints_exhausted(),
    ensures
        ({
            let k = j.savepoint_logged(txn).with_mark(txn, mark);
            let old = j.record(txn).savepoints;
            let new = k.txns[txn.0].savepoints;
            &&& k.txns.contains_key(txn.0)
            &&& new.len() == old.len() + 1
            &&& new.last() == mark
            &&& 0 <= i < old.len() ==> new[i] == old[i]
            &&& k.txns[txn.0].status == j.record(txn).status
            &&& k.txns[txn.0].tables == j.record(txn).tables
            &&& k.next_savepoint_id == j.next_savepoint_id + 1
            &&& k.log.len() == j.log.len() + 1
            &&& k.log.last().kind == WalRecordKind::Savepoint
            &&& k.log.last().txn == txn
            &&& super::recover::savepoint_of(k.log.last()) == j.next_savepoint_id
            &&& other != txn ==> k.txns.contains_key(other.0) == j.txns.contains_key(other.0)
            &&& other != txn && j.txns.contains_key(other.0) ==> k.txns[other.0] == j.txns[other.0]
        }),
{
    let k = j.savepoint_logged(txn).with_mark(txn, mark);
    super::told::lemma_savepoint_payload(SavepointId(j.next_savepoint_id), k.log.last());
}

/// A transaction that writes is registered as running, with the table it writes in; no other transaction
/// changes.
pub proof fn law_writing_registers_a_transaction(
    j: JournalModel,
    txn: TxnId,
    table: TableId,
    other: TxnId,
)
    requires
        !j.finished(txn),
    ensures
        ({
            let k = j.begun(txn, table);
            let before = j.record(txn);
            &&& k.txns.contains_key(txn.0)
            &&& k.txns[txn.0].status == TxnStatus::InProgress
            &&& k.txns[txn.0].began
            &&& k.txns[txn.0].savepoints == before.savepoints
            &&& forall|t: u64| #[trigger]
                k.txns[txn.0].tables.contains(t) <==> before.tables.contains(t) || t
                    == table.0 as u64
            &&& other != txn ==> k.txns.contains_key(other.0) == j.txns.contains_key(other.0)
            &&& other != txn && j.txns.contains_key(other.0) ==> k.txns[other.0] == j.txns[other.0]
            &&& k.next_savepoint_id == j.next_savepoint_id
        }),
{
}

/// What a write leaves and answers is its outcome, and it answers an error exactly where the outcome has
/// one: that error.
pub proof fn law_write_answers_its_outcome(
    o: WriteOutcome,
    table: HeapTableModel,
    journal: JournalModel,
    r: SqlResult<()>,
    s: Result<(), InternalError>,
)
    ensures
        is_row_outcome(o, table, journal, r) ==> {
            &&& table == o.table && journal == o.journal
            &&& r is Ok <==> o.error is None
            &&& r matches Err(e) ==> e == SqlError::Internal(o.error->0)
        },
        is_outcome(o, table, journal, s) ==> {
            &&& table == o.table && journal == o.journal
            &&& s is Ok <==> o.error is None
            &&& s matches Err(e) ==> e == o.error->0
        },
{
}

/// Taking the maintenance log of a table empties it and changes nothing else.
pub proof fn law_taking_the_log_empties_it(t: HeapTableModel)
    ensures
        t.drained().changes.len() == 0,
        t.drained().contents == t.contents,
        t.drained().current == t.current,
        t.drained().writes == t.writes,
        t.drained().next_row_id == t.next_row_id,
        t.drained().next_seq == t.next_seq,
        t.drained().lost == t.lost,
{
}

/// The live rows of a table are those whose most recent version nobody took away, whoever wrote it.
pub proof fn law_live_rows_are_those_nobody_took_away(
    t: HeapTableModel,
    keys: Seq<(u64, u64)>,
    k: (u64, u64),
)
    requires
        live_keys(t, keys),
    ensures
        keys.contains(k) <==> t.current.contains_key(k.0) && t.current[k.0] == k.1
            && t.contents[k].header.xmax is None,
        forall|i: int, j: int| 0 <= i < j < keys.len() ==> (#[trigger] keys[i]).0 < (
        #[trigger] keys[j]).0,
{
    assert(is_live_key(t, k) <==> keys.contains(k));
}

/// A version is shown with the row, the serial, the transactions and the columns it has.
pub proof fn law_version_is_shown_as_it_is(v: VersionView, t: HeapTableModel)
    requires
        v.shows(t),
    ensures
        ({
            let s = t.contents[(v.row.0, v.seq)];
            &&& t.contents.contains_key((v.row.0, v.seq))
            &&& s.header.xmin == v.xmin
            &&& s.header.xmax == v.xmax
            &&& legible(s) && data_of(s) == v.data@
        }),
{
}

/// The end of a transaction is refused exactly where its number is reserved, it is over, or the journal
/// takes no record of it; a refused end ends nothing.
pub proof fn law_end_is_refused_for_a_reason(j: JournalModel, txn: TxnId, kind: WalRecordKind)
    ensures
        end_refusal(j, txn, kind) is None <==> txn.0 != NO_XMAX && !(j.txns.contains_key(txn.0)
            && j.txns[txn.0].status != TxnStatus::InProgress) && !(j.txns.contains_key(txn.0)
            && j.txns[txn.0].began && j.log.len() == u64::MAX),
        refused_end(j, txn).log == j.log,
        j.txns.contains_key(txn.0) ==> refused_end(j, txn).txns[txn.0] == j.txns[txn.0],
{
}

/// A record that is appended carries what it was given, and the number after the last.
pub proof fn law_appended_record_carries_what_it_was_given(
    w: &Wal,
    kind: WalRecordKind,
    txn: TxnId,
    payload: Seq<u8>,
)
    requires
        !w.append_refused(payload.len()),
    ensures
        w.next_record(kind, txn, payload).kind == kind,
        w.next_record(kind, txn, payload).txn == txn,
        w.next_record(kind, txn, payload).payload == payload,
        w.next_record(kind, txn, payload).lsn.0 == w.last_lsn.0 + 1,
        w.next_record(kind, txn, payload).prev_lsn == w.last_lsn,
{
}

/// The end of a transaction, or a vacuum, leaves the definitions as they were.
pub proof fn law_rows_change_without_the_definitions(m: DiskModel, n: DiskModel, t: u64)
    requires
        m.same_catalogue(n),
    ensures
        n.databases == m.databases,
        n.indexes == m.indexes,
        n.control == m.control,
        n.tables.contains_key(t) == m.tables.contains_key(t),
        m.tables.contains_key(t) ==> n.tables[t].db == m.tables[t].db && n.tables[t].store.shape
            == m.tables[t].store.shape && n.tables[t].first_page == m.tables[t].first_page,
{
    assert(n.tables.dom().contains(t) == m.tables.dom().contains(t));
}

/// A walk of one row takes the versions of that row, a walk of every row those of every row.
pub proof fn law_walk_takes_the_rows_it_is_asked_for(row: RowId, wanted: RowId)
    ensures
        belongs(row, Some(wanted)) <==> row == wanted,
        belongs(row, None),
{
}

/// An append leaves what was in the journal and adds the record behind it.
pub proof fn law_append_adds_behind_what_was_there(w: &Wal, after: &Wal, record: RecordModel, i: int)
    requires
        w.appended(after, record),
    ensures
        after.log().len() == w.log().len() + 1,
        after.log().last() == record,
        0 <= i < w.log().len() ==> after.log()[i] == w.log()[i],
        after.bytes@ == w.bytes@ + record.encoded(),
        after.last_lsn == record.lsn,
{
}

/// The status of a transaction is the one the register holds; one that it does not hold has none.
pub proof fn law_statuses_are_those_registered(j: JournalModel, x: TxnId)
    ensures
        j.st().contains_key(x.0) == j.txns.contains_key(x.0),
        j.txns.contains_key(x.0) ==> j.st()[x.0] == j.txns[x.0].status,
        j.finished(x) <==> j.txns.contains_key(x.0) && j.txns[x.0].status != TxnStatus::InProgress,
{
}

/// Identifiers and savepoints run out at the end of their numbers, and not before.
pub proof fn law_numbers_run_out_at_their_end(m: DiskModel)
    ensures
        m.exhausted(Counter::Database) <==> m.control.next_db_id > 0xFFFF_FFFF,
        m.exhausted(Counter::Table) <==> m.control.next_table_id > 0xFFFF_FFFF,
        m.exhausted(Counter::Index) <==> m.control.next_index_id > 0xFFFF_FFFF,
        m.journal.savepoints_exhausted() <==> m.journal.next_savepoint_id == 0xFFFF_FFFF_FFFF_FFFF,
{
}

} // verus!
