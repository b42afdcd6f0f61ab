//! Undoing gives back what was there: the rollback of a transaction the versions as they were before
//! its first write, the rollback to a savepoint as they were when it was taken.

use vstd::prelude::*;

use super::durability::{pruned, recoverable};
use super::bytes::lemma_byte_ranges;
use super::encode::{law_short_row_reads_back, parse_row, row_bytes};
use super::ends::Step;
use super::heap_reads::{first_seen, seen_keys, shows_row};
use super::instance_laws::{
    law_commit_is_durable, law_reopened_instance_is_durable, law_rollback_to_is_durable,
};
use super::journal::{end_status, mark_in, JournalModel};
use super::ledger::{accounts, Ledger};
use super::open::tells_alone;
use super::page::Lsn;
use super::redo::is_previous;
use super::reopening::reads_alike;
use super::storage::{DiskModel, DiskStorage};
use super::table_model::{latest, HeapTableModel, RowUndo};
use super::told::{rebuildable, told};
use super::wal::{WalRecordKind, MAX_PAYLOAD_LEN};
use crate::error::SqlResult;
use crate::ids::{RowId, SavepointId, TxnId};
use crate::snapshot::{Snapshot, TxnStatus};
use crate::value::ValueModel;

verus! {

/// One write of a transaction in a table.
pub enum TableWrite {
    /// It inserts a row.
    Insert(Seq<ValueModel>),
    /// It replaces a row.
    Update(RowId, Seq<ValueModel>),
    /// It deletes a row.
    Delete(RowId),
}

/// Whether two tables hold the same versions, whatever their counters and their logs.
pub open spec fn same_versions(a: HeapTableModel, b: HeapTableModel) -> bool {
    &&& a.table == b.table
    &&& a.contents == b.contents
    &&& a.current == b.current
    &&& a.lost == b.lost
}

/// Whether the row identifiers and the serials in use were handed out, the current version of a row is
/// the last of those that are left, and no row is lost.
pub open spec fn tidy(t: HeapTableModel) -> bool {
    &&& forall|row: u64| !#[trigger] t.lost.contains(row)
    &&& forall|k: (u64, u64)| #[trigger]
        t.contents.contains_key(k) ==> {
            &&& k.0 < t.next_row_id
            &&& k.1 < t.next_seq
            &&& t.current.contains_key(k.0) ==> k.1 <= t.current[k.0]
        }
    &&& forall|row: u64| #[trigger]
        t.current.contains_key(row) ==> t.contents.contains_key((row, t.current[row]))
}

impl HeapTableModel {
    /// Whether a write may be done: it has an identifier and a serial to take, its columns fit a record
    /// of the journal, and it replaces or deletes a current version that nobody replaced or deleted.
    pub open spec fn takes(self, write: TableWrite) -> bool {
        match write {
            TableWrite::Insert(data) => {
                &&& self.next_row_id < u64::MAX
                &&& self.next_seq < u64::MAX
                &&& row_bytes(data).len() <= MAX_PAYLOAD_LEN
            },
            TableWrite::Update(row, data) => {
                &&& self.current.contains_key(row.0)
                &&& self.version(row).header.xmax is None
                &&& self.next_seq < u64::MAX
                &&& row_bytes(data).len() <= MAX_PAYLOAD_LEN
            },
            TableWrite::Delete(row) => {
                &&& self.current.contains_key(row.0)
                &&& self.version(row).header.xmax is None
            },
        }
    }

    /// The table after a write of `txn`.
    pub open spec fn written(self, txn: TxnId, write: TableWrite) -> HeapTableModel {
        match write {
            TableWrite::Insert(data) => self.inserted(txn, data).drained(),
            TableWrite::Update(row, data) => self.updated(txn, row, data).drained(),
            TableWrite::Delete(row) => self.deleted(txn, row).drained(),
        }
    }

    /// The table after some writes of `txn`, no other transaction writing in it meanwhile.
    pub open spec fn all_written(self, txn: TxnId, writes: Seq<TableWrite>) -> HeapTableModel
        decreases writes.len(),
    {
        if writes.len() == 0 {
            self
        } else {
            self.all_written(txn, writes.drop_last()).written(txn, writes.last())
        }
    }

    /// Whether the writes of `txn` may be done in turn.
    pub open spec fn takes_all(self, txn: TxnId, writes: Seq<TableWrite>) -> bool
        decreases writes.len(),
    {
        writes.len() > 0 ==> self.takes_all(txn, writes.drop_last()) && self.all_written(
            txn,
            writes.drop_last(),
        ).takes(writes.last())
    }
}

/// A table that a reopen can rebuild is tidy.
pub proof fn law_recoverable_table_is_tidy(t: HeapTableModel, j: JournalModel, horizon: TxnId)
    requires
        recoverable(t, j, horizon),
    ensures
        tidy(t),
{
    let full = choose|full: HeapTableModel| #[trigger]
        rebuildable(full, j) && pruned(full, t, j, horizon);
    let g = choose|g: Ledger| #[trigger] accounts(full, j, g) && told(full, j, g);
    assert forall|k: (u64, u64)| #[trigger] t.contents.contains_key(k) implies k.0 < t.next_row_id
        && k.1 < t.next_seq && (t.current.contains_key(k.0) ==> k.1 <= t.current[k.0]) by {
        assert(full.contents.contains_key(k));
    }
}

/// The latest version of a row is the one above all others.
proof fn lemma_latest(t: HeapTableModel, row: u64, seq: u64)
    requires
        t.contents.contains_key((row, seq)),
        seq < u64::MAX,
        forall|s: u64| #[trigger] t.contents.contains_key((row, s)) ==> s <= seq,
    ensures
        latest(t.contents, row) == Some(seq),
{
    assert(is_previous(t.contents, row, u64::MAX, seq));
    let p = latest(t.contents, row)->0;
    assert(is_previous(t.contents, row, u64::MAX, p));
    assert(t.contents.contains_key((row, p)));
}

/// Undoing a write at once gives the versions back.
proof fn lemma_write_undone(t: HeapTableModel, txn: TxnId, write: TableWrite) -> (e: RowUndo)
    requires
        tidy(t),
        t.takes(write),
    ensures
        t.written(txn, write).writes_of(txn) == t.writes_of(txn).push(e),
        tidy(t.written(txn, write)),
        t.written(txn, write).undo_fault(txn, e) is None,
        same_versions(t.written(txn, write).undone(txn, e), t),
{
    let n = t.written(txn, write);
    match write {
        TableWrite::Insert(data) => {
            let row = RowId(t.next_row_id);
            let e = RowUndo::Insert(row);
            lemma_byte_ranges();
            law_short_row_reads_back(data);
            assert(!t.contents.contains_key((row.0, t.next_seq)));
            assert(!t.current.contains_key(row.0)) by {
                if t.current.contains_key(row.0) {
                    assert(t.contents.contains_key((row.0, t.current[row.0])));
                }
            }
            let b = n.undone(txn, e);
            assert(b.contents =~= t.contents);
            assert(b.current =~= t.current);
            assert(b.lost =~= t.lost);
            e
        },
        TableWrite::Update(row, data) => {
            let e = RowUndo::Update(row);
            lemma_byte_ranges();
            law_short_row_reads_back(data);
            let seq = t.current[row.0];
            assert(t.contents.contains_key((row.0, seq)));
            assert(!t.contents.contains_key((row.0, t.next_seq)));
            let w = n.without_tail(row);
            assert(w.contents =~= t.with_xmax(row, Some(txn)).contents);
            assert forall|s: u64| #[trigger] w.contents.contains_key((row.0, s)) implies s
                <= seq by {
                assert(t.contents.contains_key((row.0, s)));
            }
            lemma_latest(w, row.0, seq);
            let b = n.undone(txn, e);
            assert(t.version(row).with_xmax(Some(txn)).with_xmax(None) =~= t.version(row));
            assert(b.contents =~= t.contents);
            assert(b.current =~= t.current);
            assert(b.lost =~= t.lost);
            e
        },
        TableWrite::Delete(row) => {
            let e = RowUndo::Delete(row);
            assert(t.contents.contains_key((row.0, t.current[row.0])));
            let b = n.undone(txn, e);
            assert(t.version(row).with_xmax(Some(txn)).with_xmax(None) =~= t.version(row));
            assert(b.contents =~= t.contents);
            e
        },
    }
}

/// Undoing does the same to tables that hold the same versions.
proof fn lemma_undo_alike(a: HeapTableModel, b: HeapTableModel, txn: TxnId, ws: Seq<RowUndo>)
    requires
        same_versions(a, b),
    ensures
        a.stuck(txn, ws) == b.stuck(txn, ws),
        same_versions(a.all_undone(txn, ws), b.all_undone(txn, ws)),
    decreases ws.len(),
{
    if ws.len() > 0 {
        let e = ws.last();
        assert(a.undo_fault(txn, e) == b.undo_fault(txn, e));
        assert(same_versions(a.undone(txn, e), b.undone(txn, e)));
        if a.undo_fault(txn, e) is None {
            lemma_undo_alike(a.undone(txn, e), b.undone(txn, e), txn, ws.drop_last());
        }
    }
}

/// Undoing what the writes of a transaction logged gives the versions back.
proof fn lemma_writes_undone(t: HeapTableModel, txn: TxnId, writes: Seq<TableWrite>)
    requires
        tidy(t),
        t.takes_all(txn, writes),
    ensures
        ({
            let n = t.all_written(txn, writes);
            let before = t.writes_of(txn);
            let ws = n.writes_of(txn).skip(before.len() as int);
            &&& tidy(n)
            &&& before.len() <= n.writes_of(txn).len()
            &&& n.writes_of(txn).take(before.len() as int) == before
            &&& n.stuck(txn, ws) is None
            &&& same_versions(n.all_undone(txn, ws), t)
        }),
    decreases writes.len(),
{
    let n = t.all_written(txn, writes);
    let before = t.writes_of(txn);
    let ws = n.writes_of(txn).skip(before.len() as int);
    if writes.len() == 0 {
        assert(ws =~= Seq::<RowUndo>::empty());
        assert(before.take(before.len() as int) =~= before);
    } else {
        let k = t.all_written(txn, writes.drop_last());
        lemma_writes_undone(t, txn, writes.drop_last());
        let first = k.writes_of(txn).skip(before.len() as int);
        let e = lemma_write_undone(k, txn, writes.last());
        assert(ws =~= first.push(e));
        assert(ws.drop_last() =~= first);
        assert(n.writes_of(txn).take(before.len() as int) =~= k.writes_of(txn).take(
            before.len() as int,
        ));
        lemma_undo_alike(n.undone(txn, e), k, txn, first);
    }
}

/// A rollback to a savepoint gives back the versions of a table as they were when it was taken,
/// whatever the transaction wrote in the table since, and its log as it was.
pub proof fn law_rollback_to_gives_the_table_back(
    t: HeapTableModel,
    txn: TxnId,
    writes: Seq<TableWrite>,
)
    requires
        tidy(t),
        t.takes_all(txn, writes),
    ensures
        ({
            let n = t.all_written(txn, writes);
            let mark = t.writes_of(txn).len();
            &&& n.roll_fault(txn, mark) is None
            &&& same_versions(n.rolled_to(txn, mark), t)
            &&& n.rolled_to(txn, mark).writes_of(txn) == t.writes_of(txn)
        }),
{
    let n = t.all_written(txn, writes);
    let mark = t.writes_of(txn).len();
    lemma_writes_undone(t, txn, writes);
    let ws = n.writes_after(txn, mark);
    let cut = n.cut(txn, mark);
    assert(ws == n.writes_of(txn).skip(mark as int));
    lemma_undo_alike(cut, n, txn, ws);
    super::table_model::lemma_undo_keeps(cut, txn, ws);
    assert(cut.writes_of(txn) =~= t.writes_of(txn));
}

/// A rollback gives back the versions of a table as they were before the first write of the
/// transaction, whatever it wrote in the table since.
pub proof fn law_rollback_gives_the_table_back(
    t: HeapTableModel,
    txn: TxnId,
    writes: Seq<TableWrite>,
)
    requires
        tidy(t),
        t.writes_of(txn).len() == 0,
        t.takes_all(txn, writes),
    ensures
        ({
            let n = t.all_written(txn, writes);
            &&& n.finish_fault(txn, TxnStatus::Aborted) is None
            &&& same_versions(n.finished(txn, TxnStatus::Aborted), t)
        }),
{
    let n = t.all_written(txn, writes);
    lemma_writes_undone(t, txn, writes);
    assert(n.writes_of(txn).skip(0) =~= n.writes_of(txn));
    lemma_undo_alike(n.cut(txn, 0), n, txn, n.writes_of(txn));
}

impl DiskModel {
    /// The rows of a table.
    pub open spec fn rows_of(self, t: u64) -> HeapTableModel {
        self.tables[t].store.model()
    }

    /// Whether this instance comes from `taken`, the instance a savepoint `sp` of `txn` was taken in,
    /// by the writes of `txn` alone: `writes` tells those in each table.
    pub open spec fn grew_from(
        self,
        taken: DiskModel,
        txn: TxnId,
        sp: SavepointId,
        writes: Map<u64, Seq<TableWrite>>,
    ) -> bool {
        let record = self.journal.record(txn);
        &&& self.tables.dom() == taken.tables.dom()
        &&& self.journal.st() == taken.journal.st()
        &&& forall|t: u64| #[trigger]
            taken.tables.contains_key(t) ==> {
                &&& taken.rows_of(t).takes_all(txn, writes[t])
                &&& self.rows_of(t) == taken.rows_of(t).all_written(txn, writes[t])
                &&& writes[t].len() > 0 ==> record.tables.contains(t)
            }
        &&& forall|t: u64| #[trigger]
            record.tables.contains(t) ==> taken.tables.contains_key(t)
        &&& exists|i: int| #[trigger] self.journal.savepoint_at(txn, sp, i)
        &&& forall|i: int, t: u64|
            #![trigger self.journal.savepoint_at(txn, sp, i), taken.tables.contains_key(t)]
            self.journal.savepoint_at(txn, sp, i) && taken.tables.contains_key(t) ==> mark_in(
                record.savepoints[i],
                t,
            ) == taken.rows_of(t).writes_of(txn).len()
    }
}

/// Tables with the same versions have the same version of a row seen first.
proof fn lemma_first_alike(
    a: HeapTableModel,
    b: HeapTableModel,
    snap: Snapshot,
    st: Map<u64, TxnStatus>,
    row: RowId,
    seq: u64,
)
    requires
        same_versions(a, b),
        first_seen(a, snap, st, row, seq),
    ensures
        first_seen(b, snap, st, row, seq),
{
    assert forall|s: u64| s < seq implies !#[trigger] b.sees(snap, st, (row.0, s)) by {
        assert(!a.sees(snap, st, (row.0, s)));
    }
}

/// Tables with the same versions show the same rows.
proof fn lemma_shown_alike(
    a: HeapTableModel,
    b: HeapTableModel,
    snap: Snapshot,
    st: Map<u64, TxnStatus>,
    row: RowId,
    data: Seq<ValueModel>,
)
    requires
        same_versions(a, b),
        shows_row(a, snap, st, row, data),
    ensures
        shows_row(b, snap, st, row, data),
{
    let seq = choose|seq: u64| #[trigger]
        first_seen(a, snap, st, row, seq) && parse_row(a.contents[(row.0, seq)].columns) == Some(
            data,
        );
    lemma_first_alike(a, b, snap, st, row, seq);
}

/// Tables with the same versions have the same versions seen.
proof fn lemma_keys_alike(
    a: HeapTableModel,
    b: HeapTableModel,
    snap: Snapshot,
    st: Map<u64, TxnStatus>,
    keys: Seq<(u64, u64)>,
)
    requires
        same_versions(a, b),
        seen_keys(a, snap, st, keys),
    ensures
        seen_keys(b, snap, st, keys),
{
    assert forall|k: (u64, u64)| #[trigger] keys.contains(k) <==> first_seen(
        b,
        snap,
        st,
        RowId(k.0),
        k.1,
    ) by {
        if keys.contains(k) {
            lemma_first_alike(a, b, snap, st, RowId(k.0), k.1);
        }
        if first_seen(b, snap, st, RowId(k.0), k.1) {
            lemma_first_alike(b, a, snap, st, RowId(k.0), k.1);
        }
    }
}

/// A rollback to a savepoint succeeds and gives back the versions of every table as they were when it
/// was taken, if only the transaction wrote since: every read, its own too, answers what it answered
/// then.
pub proof fn law_rollback_to_gives_the_savepoint_back(
    taken: DiskModel,
    m: DiskModel,
    after: DiskModel,
    txn: TxnId,
    sp: SavepointId,
    writes: Map<u64, Seq<TableWrite>>,
    r: SqlResult<()>,
)
    requires
        forall|t: u64| #[trigger] taken.tables.contains_key(t) ==> tidy(taken.rows_of(t)),
        m.grew_from(taken, txn, sp, writes),
        m.journal.txns.contains_key(txn.0),
        !m.journal.finished(txn),
        !m.journal.refuses(8),
        m.rollback_result(after, txn, sp, r),
    ensures
        r is Ok,
        after.journal.st() == taken.journal.st(),
        forall|t: u64| #[trigger]
            taken.tables.contains_key(t) ==> same_versions(after.rows_of(t), taken.rows_of(t)),
        forall|t: u64, snap: Snapshot, row: RowId, data: Seq<ValueModel>|
            #![trigger shows_row(after.rows_of(t), snap, after.journal.st(), row, data)]
            taken.tables.contains_key(t) ==> (shows_row(
                after.rows_of(t),
                snap,
                after.journal.st(),
                row,
                data,
            ) <==> shows_row(taken.rows_of(t), snap, taken.journal.st(), row, data)),
        forall|t: u64, snap: Snapshot, keys: Seq<(u64, u64)>|
            #![trigger seen_keys(after.rows_of(t), snap, after.journal.st(), keys)]
            taken.tables.contains_key(t) ==> (seen_keys(
                after.rows_of(t),
                snap,
                after.journal.st(),
                keys,
            ) <==> seen_keys(taken.rows_of(t), snap, taken.journal.st(), keys)),
{
    let j = m.journal;
    let first = choose|i: int| #[trigger] j.savepoint_at(txn, sp, i);
    let i = choose|i: int| #[trigger]
        j.savepoint_at(txn, sp, i) && m.rolled_result(after, txn, sp, i, r);
    let mark = j.record(txn).savepoints[i];
    let step = Step::RollTo(txn, mark);
    let logged = j.rollback_logged(txn, sp);
    assert forall|t: u64| #[trigger] taken.tables.contains_key(t) implies step.fault(
        t,
        m.rows_of(t),
    ) is None && same_versions(step.apply(t, m.rows_of(t)), taken.rows_of(t)) by {
        assert(j.savepoint_at(txn, sp, i));
        law_rollback_to_gives_the_table_back(taken.rows_of(t), txn, writes[t]);
    }
    let list = choose|list: Seq<u64>| #[trigger]
        m.wrote_in(txn, list) && match r {
            Ok(_) => {
                &&& m.walks(after, list, list.len() as int, step)
                &&& after.journal == logged.marks_cut(txn, i)
            },
            Err(e) => {
                &&& after.journal == logged
                &&& exists|n: int| #[trigger] m.stops(after, list, n, step, e)
            },
        };
    if r is Err {
        let e = r->Err_0;
        let n = choose|n: int| #[trigger] m.stops(after, list, n, step, e);
        assert(list.contains(list[n]));
        assert(j.record(txn).tables.contains(list[n]));
        assert(taken.tables.contains_key(list[n]));
        assert(m.tables.dom().contains(list[n]));
        assert(step.fault(list[n], m.rows_of(list[n])) is None);
    }
    assert(list.take(list.len() as int) =~= list);
    assert(after.journal.st() =~= j.st());
    assert forall|t: u64| #[trigger] taken.tables.contains_key(t) implies same_versions(
        after.rows_of(t),
        taken.rows_of(t),
    ) by {
        assert(m.tables.dom().contains(t));
        assert(m.tables.contains_key(t));
        if !list.contains(t) {
            assert(writes[t].len() == 0);
            assert(after.rows_of(t) == m.rows_of(t));
        }
    }
    assert forall|t: u64, snap: Snapshot, row: RowId, data: Seq<ValueModel>|
        #![trigger shows_row(after.rows_of(t), snap, after.journal.st(), row, data)]
        taken.tables.contains_key(t) implies (shows_row(
        after.rows_of(t),
        snap,
        after.journal.st(),
        row,
        data,
    ) <==> shows_row(taken.rows_of(t), snap, taken.journal.st(), row, data)) by {
        let st = after.journal.st();
        if shows_row(after.rows_of(t), snap, st, row, data) {
            lemma_shown_alike(after.rows_of(t), taken.rows_of(t), snap, st, row, data);
        }
        if shows_row(taken.rows_of(t), snap, st, row, data) {
            lemma_shown_alike(taken.rows_of(t), after.rows_of(t), snap, st, row, data);
        }
    }
    assert forall|t: u64, snap: Snapshot, keys: Seq<(u64, u64)>|
        #![trigger seen_keys(after.rows_of(t), snap, after.journal.st(), keys)]
        taken.tables.contains_key(t) implies (seen_keys(
        after.rows_of(t),
        snap,
        after.journal.st(),
        keys,
    ) <==> seen_keys(taken.rows_of(t), snap, taken.journal.st(), keys)) by {
        let st = after.journal.st();
        if seen_keys(after.rows_of(t), snap, st, keys) {
            lemma_keys_alike(after.rows_of(t), taken.rows_of(t), snap, st, keys);
        }
        if seen_keys(taken.rows_of(t), snap, st, keys) {
            lemma_keys_alike(taken.rows_of(t), after.rows_of(t), snap, st, keys);
        }
    }
}

/// A rollback to a savepoint leaves one record, durable, keeps the savepoint and forgets those taken
/// after it.
pub proof fn law_rollback_to_keeps_the_savepoint(
    m: DiskModel,
    after: DiskModel,
    txn: TxnId,
    sp: SavepointId,
)
    requires
        m.rollback_result(after, txn, sp, Ok(())),
    ensures
        after.journal.log.drop_last() == m.journal.log,
        after.journal.log.last().kind == WalRecordKind::RollbackTo,
        after.journal.log.last().txn == txn,
        after.journal.durable == Lsn(after.journal.log.len() as u64),
        exists|i: int| #[trigger]
            m.journal.savepoint_at(txn, sp, i) && after.journal.savepoint_at(txn, sp, i)
                && after.journal.record(txn).savepoints == m.journal.record(txn).savepoints.take(
                i + 1,
            ),
{
    let j = m.journal;
    let i = choose|i: int| #[trigger]
        j.savepoint_at(txn, sp, i) && j.txns.contains_key(txn.0) && !j.finished(txn)
            && !j.refuses(8) && m.rolled_result(after, txn, sp, i, Ok(()));
    let k = after.journal;
    assert(k == j.rollback_logged(txn, sp).marks_cut(txn, i));
    assert(k.log.drop_last() =~= j.log);
    let cut = j.record(txn).savepoints.take(i + 1);
    assert(k.record(txn).savepoints == cut);
    assert forall|x: int| 0 <= x <= i implies #[trigger] cut[x] == j.record(txn).savepoints[x] by {}
    assert(k.savepoint_at(txn, sp, i));
}

/// A commit leaves the versions of every table as they are.
pub proof fn law_commit_keeps_the_versions(m: DiskModel, n: DiskModel, txn: TxnId)
    requires
        m.end_result(n, txn, WalRecordKind::Commit, Ok(())),
    ensures
        forall|t: u64| #[trigger]
            m.tables.contains_key(t) ==> same_versions(n.rows_of(t), m.rows_of(t)),
{
    let list = choose|list: Seq<u64>| #[trigger]
        m.wrote_in(txn, list) && m.walks(
            n,
            list,
            list.len() as int,
            Step::End(txn, end_status(WalRecordKind::Commit)),
        );
    assert forall|t: u64| #[trigger] m.tables.contains_key(t) implies same_versions(
        n.rows_of(t),
        m.rows_of(t),
    ) by {}
}

/// What a rollback to a savepoint took back stays taken back: once the transaction commits, the tables
/// hold the versions of the savepoint, and a reopen shows the same rows.
pub proof fn law_rolled_back_work_stays_undone(
    taken: DiskModel,
    m: DiskModel,
    after: DiskModel,
    n: DiskModel,
    s: DiskStorage,
    horizon: TxnId,
    txn: TxnId,
    sp: SavepointId,
    writes: Map<u64, Seq<TableWrite>>,
)
    requires
        forall|t: u64| #[trigger] taken.tables.contains_key(t) ==> tidy(taken.rows_of(t)),
        m.grew_from(taken, txn, sp, writes),
        m.durable(horizon),
        m.rollback_result(after, txn, sp, Ok(())),
        after.wf(),
        after.end_result(n, txn, WalRecordKind::Commit, Ok(())),
        n.wf(),
        s.wf(),
        tells_alone(n.journal.log, n.control, s),
        s@.journal.next_savepoint_id == 0,
    ensures
        forall|t: u64| #[trigger]
            taken.tables.contains_key(t) ==> {
                &&& same_versions(n.rows_of(t), taken.rows_of(t))
                &&& s@.tables.contains_key(t)
                &&& reads_alike(n.rows_of(t), n.journal, s@.rows_of(t), s@.journal, horizon)
            },
{
    let j = m.journal;
    let i = choose|i: int| #[trigger]
        j.savepoint_at(txn, sp, i) && j.txns.contains_key(txn.0) && !j.finished(txn)
            && !j.refuses(8) && m.rolled_result(after, txn, sp, i, Ok(()));
    assert(j.savepoint_at(txn, sp, i));
    law_rollback_to_gives_the_savepoint_back(taken, m, after, txn, sp, writes, Ok(()));
    law_rollback_to_is_durable(m, after, horizon, txn, sp);
    law_commit_is_durable(after, n, horizon, txn);
    law_commit_keeps_the_versions(after, n, txn);
    law_reopened_instance_is_durable(n, horizon, s);
    assert forall|t: u64| #[trigger] taken.tables.contains_key(t) implies same_versions(
        n.rows_of(t),
        taken.rows_of(t),
    ) && s@.tables.contains_key(t) && reads_alike(
        n.rows_of(t),
        n.journal,
        s@.rows_of(t),
        s@.journal,
        horizon,
    ) by {
        assert(m.tables.dom().contains(t));
        assert(m.tables.contains_key(t));
        assert(after.tables.dom().contains(t));
        assert(after.tables.contains_key(t));
        assert(n.tables.dom().contains(t));
        assert(n.tables.contains_key(t));
    }
}

} // verus!
