//! What the records of a journal tell by themselves: which transactions committed, and which
//! records a rollback to a savepoint took back. This is all a recovery has to go by.

use vstd::prelude::*;

use super::bytes::{lemma_byte_ranges, lemma_le_len, lemma_le_round_trip};
use super::journal::{mark_in, savepoint_payload, JournalModel, MarkModel, TxnRecordModel};
use super::ledger::{
    accounts, committed, numbered, record_of, stands_behind, standing, Ledger,
};
use super::recover::{
    has_kind, is_cancelled, is_row, payload_ok, savepoint_before, savepoint_of, takes_back,
    takes_savepoint,
};
use super::table_model::HeapTableModel;
use super::wal::{RecordModel, WalRecordKind};
use super::wal_payload::change_of;
use crate::ids::{SavepointId, TableId, TxnId};
use crate::snapshot::TxnStatus;

verus! {

/// Whether a record takes the savepoint `id` of the transaction `x`.
pub open spec fn is_mark(r: RecordModel, x: u64, id: SavepointId) -> bool {
    r.kind == WalRecordKind::Savepoint && r.txn.0 == x && savepoint_of(r) == id.0
}

/// Whether the record at `p` is the last one that takes the savepoint `id` of `x`.
pub open spec fn marked_at(log: Seq<RecordModel>, x: u64, id: SavepointId, p: int) -> bool {
    &&& 0 <= p < log.len()
    &&& is_mark(log[p], x, id)
    &&& forall|q: int| p < q < log.len() ==> !is_mark(#[trigger] log[q], x, id)
}

/// Whether a record is a row record of `table`.
pub open spec fn row_of(r: RecordModel, table: TableId) -> bool {
    is_row(r.kind) && change_of(r.payload).table == table
}

/// Whether the savepoints of a transaction are in the journal, in the order they were taken.
pub open spec fn marks_told(
    log: Seq<RecordModel>,
    next_id: u64,
    x: u64,
    marks: Seq<MarkModel>,
) -> bool {
    &&& forall|i: int|
        0 <= i < marks.len() ==> (#[trigger] marks[i]).id.0 < next_id && exists|p: int|
            marked_at(log, x, marks[i].id, p)
    &&& forall|a: int, b: int, p: int, q: int|
        #![trigger marked_at(log, x, marks[a].id, p), marked_at(log, x, marks[b].id, q)]
        0 <= a < b < marks.len() && marked_at(log, x, marks[a].id, p) && marked_at(
            log,
            x,
            marks[b].id,
            q,
        ) ==> p < q
}

/// Whether the register knows the transaction of a row record, and the journal holds the `Commit`
/// of one that committed.
pub open spec fn writer_told(j: JournalModel, x: u64) -> bool {
    &&& j.txns.contains_key(x)
    &&& j.txns[x].status == TxnStatus::InProgress ==> j.txns[x].began
    &&& j.txns[x].status == TxnStatus::Committed ==> has_kind(j.log, WalRecordKind::Commit, x)
}

/// Whether the register is what the records of the journal tell.
pub open spec fn orderly(j: JournalModel) -> bool {
    &&& numbered(j.log)
    &&& j.log.len() <= u64::MAX
    &&& forall|i: int| 0 <= i < j.log.len() ==> payload_ok(#[trigger] j.log[i])
    &&& forall|i: int|
        0 <= i < j.log.len() && (#[trigger] j.log[i]).kind == WalRecordKind::Commit
            ==> j.txns.contains_key(j.log[i].txn.0) && j.txns[j.log[i].txn.0].status
            == TxnStatus::Committed
    &&& forall|i: int|
        0 <= i < j.log.len() && is_row((#[trigger] j.log[i]).kind) ==> writer_told(
            j,
            j.log[i].txn.0,
        )
    &&& forall|x: u64| #[trigger]
        j.txns.contains_key(x) ==> marks_told(
            j.log,
            j.next_savepoint_id,
            x,
            j.txns[x].savepoints,
        )
}

/// Whether a transaction is running.
pub open spec fn running(j: JournalModel, txn: TxnId) -> bool {
    j.txns.contains_key(txn.0) && j.txns[txn.0].status == TxnStatus::InProgress
}

/// A record of a transaction that was not rolled back stands unless a rollback to a savepoint
/// took it back.
pub open spec fn standing_told(t: HeapTableModel, j: JournalModel, g: Ledger) -> bool {
    forall|l: u64|
        #![trigger stands_behind(t, g, l)]
        #![trigger record_of(j.log, l)]
        1 <= l <= j.log.len() && row_of(record_of(j.log, l), t.table) && standing(
            j,
            record_of(j.log, l).txn,
        ) ==> (stands_behind(t, g, l) <==> !is_cancelled(j.log, j.log.len() as int, l))
}

/// A savepoint splits the records of its transaction: those it noted come before its own record,
/// the others after.
pub open spec fn splits(alive: Seq<u64>, noted: nat, p: int) -> bool {
    &&& noted <= alive.len()
    &&& forall|b: int| 0 <= b < alive.len() ==> (b < noted <==> #[trigger] alive[b] <= p)
}

/// Every savepoint of a running transaction splits its records.
pub open spec fn marks_split(t: HeapTableModel, j: JournalModel, g: Ledger) -> bool {
    forall|txn: TxnId, i: int, p: int|
        #![trigger marked_at(j.log, txn.0, j.txns[txn.0].savepoints[i].id, p)]
        running(j, txn) && 0 <= i < j.txns[txn.0].savepoints.len() && marked_at(
            j.log,
            txn.0,
            j.txns[txn.0].savepoints[i].id,
            p,
        ) ==> splits(g.alive_of(txn), mark_in(j.txns[txn.0].savepoints[i], t.table.0 as u64), p)
}

/// The register knows the table of every running write.
pub open spec fn tables_told(t: HeapTableModel, j: JournalModel, g: Ledger) -> bool {
    forall|txn: TxnId|
        (#[trigger] g.alive_of(txn)).len() > 0 ==> j.record(txn).tables.contains(
            t.table.0 as u64,
        )
}

/// Whether the records of the journal tell what stands in the table.
pub open spec fn told(t: HeapTableModel, j: JournalModel, g: Ledger) -> bool {
    &&& orderly(j)
    &&& standing_told(t, j, g)
    &&& marks_split(t, j, g)
    &&& tables_told(t, j, g)
}

/// Whether the journal accounts for the table and tells what stands in it: what a crash leaves of
/// the table can be rebuilt from the records of the journal alone.
pub open spec fn rebuildable(t: HeapTableModel, j: JournalModel) -> bool {
    exists|g: Ledger| #[trigger] accounts(t, j, g) && told(t, j, g)
}

/// Whether the rollback to a savepoint at the end of the journal takes back the record `l`.
pub open spec fn last_takes_back(log: Seq<RecordModel>, l: u64) -> bool {
    exists|i: int| #[trigger] takes_back(log, log.len() - 1, i) && log[i].lsn.0 == l
}

/// One more record takes back nothing new unless it is a rollback to a savepoint.
pub proof fn lemma_cancelled_grows(log: Seq<RecordModel>, r: RecordModel)
    requires
        numbered(log.push(r)),
        log.len() < u64::MAX,
    ensures
        forall|l: u64|
            #![trigger is_cancelled(log.push(r), log.push(r).len() as int, l)]
            is_cancelled(log.push(r), log.push(r).len() as int, l) <==> is_cancelled(
                log,
                log.len() as int,
                l,
            ) || last_takes_back(log.push(r), l),
        r.kind != WalRecordKind::RollbackTo ==> forall|l: u64|
            !#[trigger] last_takes_back(log.push(r), l),
{
    let more = log.push(r);
    let n = log.len() as int;
    assert forall|i: int| 0 <= i < n implies #[trigger] more[i] == log[i] by {}
    assert forall|k: int, i: int| 0 <= k < n implies #[trigger] takes_back(more, k, i)
        == takes_back(log, k, i) by {
        assert(more[k] == log[k]);
        assert forall|s: int| #[trigger] savepoint_before(more, k, s) == savepoint_before(
            log,
            k,
            s,
        ) by {
            if savepoint_before(more, k, s) {
                assert forall|x: int| s < x < k implies !takes_savepoint(
                    #[trigger] log[x],
                    log[k],
                ) by {
                    assert(more[x] == log[x]);
                }
            }
            if savepoint_before(log, k, s) {
                assert forall|x: int| s < x < k implies !takes_savepoint(
                    #[trigger] more[x],
                    more[k],
                ) by {
                    assert(more[x] == log[x]);
                }
            }
        }
        if takes_back(more, k, i) {
            assert(more[i].lsn.0 == i + 1 && more[k].lsn.0 == k + 1);
            let s = choose|s: int| #[trigger]
                savepoint_before(more, k, s) && more[s].lsn.0 < more[i].lsn.0;
            assert(savepoint_before(log, k, s));
            assert(more[s] == log[s]);
        }
        if takes_back(log, k, i) {
            assert(more[i] == log[i]);
            let s = choose|s: int| #[trigger]
                savepoint_before(log, k, s) && log[s].lsn.0 < log[i].lsn.0;
            assert(savepoint_before(more, k, s));
            assert(more[s] == log[s]);
        }
    }
    assert forall|l: u64| is_cancelled(more, n + 1, l) <==> #[trigger] is_cancelled(log, n, l)
        || last_takes_back(more, l) by {
        if is_cancelled(more, n + 1, l) {
            let (k, i) = choose|k: int, i: int|
                0 <= k < n + 1 && #[trigger] takes_back(more, k, i) && more[i].lsn.0 == l;
            if k < n {
                assert(takes_back(log, k, i));
            } else {
                assert(takes_back(more, more.len() - 1, i));
            }
        }
        if is_cancelled(log, n, l) {
            let (k, i) = choose|k: int, i: int|
                0 <= k < n && #[trigger] takes_back(log, k, i) && log[i].lsn.0 == l;
            assert(takes_back(more, k, i));
        }
        if last_takes_back(more, l) {
            let i = choose|i: int| #[trigger]
                takes_back(more, more.len() - 1, i) && more[i].lsn.0 == l;
            assert(takes_back(more, n, i));
        }
    }
}

/// A record more that takes no savepoint leaves the savepoints where they are.
pub proof fn lemma_marks_stay(log: Seq<RecordModel>, r: RecordModel, x: u64, id: SavepointId)
    requires
        !is_mark(r, x, id),
    ensures
        forall|p: int| #[trigger] marked_at(log.push(r), x, id, p) <==> marked_at(log, x, id, p),
{
    let more = log.push(r);
    assert forall|p: int| #[trigger] marked_at(more, x, id, p) <==> marked_at(log, x, id, p) by {
        assert forall|q: int| 0 <= q < log.len() implies #[trigger] more[q] == log[q] by {}
        if marked_at(more, x, id, p) {
            assert(more[log.len() as int] == r);
            assert(p < log.len());
            assert forall|q: int| p < q < log.len() implies !is_mark(#[trigger] log[q], x, id) by {
                assert(more[q] == log[q]);
            }
        }
        if marked_at(log, x, id, p) {
            assert forall|q: int| p < q < more.len() implies !is_mark(#[trigger] more[q], x, id) by {
                if q < log.len() {
                    assert(more[q] == log[q]);
                }
            }
        }
    }
}

/// How a transaction may move on while the journal grows by a record that takes no savepoint: it
/// does not leave its end, it commits with a `Commit` if it had begun, and it may forget its last
/// savepoints.
pub open spec fn moves_on(a: TxnRecordModel, b: TxnRecordModel, log: Seq<RecordModel>, x: u64) -> bool {
    &&& a.status == TxnStatus::Committed ==> b.status == TxnStatus::Committed
    &&& b.status == TxnStatus::InProgress ==> a.status == TxnStatus::InProgress && (a.began
        ==> b.began)
    &&& b.status == TxnStatus::Committed ==> a.status == TxnStatus::Committed || a.status
        == TxnStatus::InProgress && (a.began ==> has_kind(log, WalRecordKind::Commit, x))
    &&& exists|n: int|
        0 <= n <= a.savepoints.len() && b.savepoints == #[trigger] a.savepoints.take(n)
}

/// Whether `b` is `a`, perhaps with one more record that takes no savepoint, its transactions
/// moved on.
pub open spec fn orderly_step(a: JournalModel, b: JournalModel) -> bool {
    &&& b.next_savepoint_id >= a.next_savepoint_id
    &&& forall|x: u64| #[trigger]
        a.txns.contains_key(x) ==> b.txns.contains_key(x) && moves_on(
            a.txns[x],
            b.txns[x],
            b.log,
            x,
        )
    &&& forall|x: u64| #[trigger]
        b.txns.contains_key(x) && !a.txns.contains_key(x) ==> b.txns[x].savepoints.len() == 0
    &&& b.log == a.log || {
        let r = b.log.last();
        &&& a.log.len() < u64::MAX
        &&& b.log == a.log.push(r)
        &&& r.lsn.0 == a.log.len() + 1
        &&& payload_ok(r)
        &&& r.kind != WalRecordKind::Savepoint
        &&& r.kind == WalRecordKind::Commit ==> b.txns.contains_key(r.txn.0)
            && b.txns[r.txn.0].status == TxnStatus::Committed
        &&& is_row(r.kind) ==> writer_told(b, r.txn.0)
    }
}

/// Such a step keeps the register what the records tell.
pub proof fn lemma_orderly_step(a: JournalModel, b: JournalModel)
    requires
        orderly(a),
        orderly_step(a, b),
    ensures
        orderly(b),
        forall|x: u64, id: SavepointId, p: int| #[trigger]
            marked_at(b.log, x, id, p) <==> marked_at(a.log, x, id, p),
{
    let r = b.log.last();
    if b.log != a.log {
        assert forall|x: u64, id: SavepointId, p: int| #[trigger]
            marked_at(b.log, x, id, p) <==> marked_at(a.log, x, id, p) by {
            lemma_marks_stay(a.log, r, x, id);
        }
    }
    assert forall|i: int| 0 <= i < a.log.len() implies #[trigger] b.log[i] == a.log[i] by {}
    assert forall|i: int| 0 <= i < b.log.len() implies (#[trigger] b.log[i]).lsn.0 == i + 1 by {
        if i < a.log.len() {
            assert(b.log[i] == a.log[i]);
        }
    }
    assert forall|i: int| 0 <= i < b.log.len() implies payload_ok(#[trigger] b.log[i]) by {
        if i < a.log.len() {
            assert(b.log[i] == a.log[i]);
        }
    }
    assert forall|x: u64| has_kind(a.log, WalRecordKind::Commit, x) implies #[trigger] has_kind(
        b.log,
        WalRecordKind::Commit,
        x,
    ) by {
        let i = choose|i: int|
            0 <= i < a.log.len() && (#[trigger] a.log[i]).kind == WalRecordKind::Commit
                && a.log[i].txn.0 == x;
        assert(b.log[i] == a.log[i]);
    }
    assert forall|i: int|
        0 <= i < b.log.len() && (#[trigger] b.log[i]).kind == WalRecordKind::Commit implies
        b.txns.contains_key(b.log[i].txn.0) && b.txns[b.log[i].txn.0].status
        == TxnStatus::Committed by {
        if i < a.log.len() {
            assert(b.log[i] == a.log[i]);
        }
    }
    assert forall|i: int| 0 <= i < b.log.len() && is_row((#[trigger] b.log[i]).kind) implies
        writer_told(b, b.log[i].txn.0) by {
        if i < a.log.len() {
            assert(b.log[i] == a.log[i]);
            assert(writer_told(a, a.log[i].txn.0));
        }
    }
    assert forall|x: u64| #[trigger] b.txns.contains_key(x) implies marks_told(
        b.log,
        b.next_savepoint_id,
        x,
        b.txns[x].savepoints,
    ) by {
        if a.txns.contains_key(x) {
            let old_marks = a.txns[x].savepoints;
            let marks = b.txns[x].savepoints;
            assert(marks_told(a.log, a.next_savepoint_id, x, old_marks));
            assert forall|i: int| 0 <= i < marks.len() implies marks[i] == old_marks[i] by {}
            assert forall|i: int| 0 <= i < marks.len() implies (#[trigger] marks[i]).id.0
                < b.next_savepoint_id && exists|p: int| marked_at(b.log, x, marks[i].id, p) by {
                let p = choose|p: int| marked_at(a.log, x, old_marks[i].id, p);
                assert(marked_at(b.log, x, marks[i].id, p));
            }
            assert forall|c: int, d: int, p: int, q: int|
                #![trigger marked_at(b.log, x, marks[c].id, p), marked_at(b.log, x, marks[d].id, q)]
                0 <= c < d < marks.len() && marked_at(b.log, x, marks[c].id, p) && marked_at(
                    b.log,
                    x,
                    marks[d].id,
                    q,
                ) implies p < q by {
                assert(marked_at(a.log, x, old_marks[c].id, p));
                assert(marked_at(a.log, x, old_marks[d].id, q));
            }
        }
    }
}

/// What the payload of a savepoint record tells.
pub proof fn lemma_savepoint_payload(sp: SavepointId, r: RecordModel)
    requires
        r.payload == savepoint_payload(sp),
    ensures
        r.payload.len() == 8,
        savepoint_of(r) == sp.0,
{
    lemma_byte_ranges();
    lemma_le_len(sp.0 as nat, 8);
    lemma_le_round_trip(sp.0 as nat, 8);
    assert(r.payload.take(8) =~= r.payload);
}

/// Whether `b` is `a` with its transactions moved on and perhaps one more record, which says nothing
/// of `table`, takes no savepoint and rolls back to none.
pub open spec fn quiet_step(a: JournalModel, b: JournalModel, table: TableId) -> bool {
    &&& orderly_step(a, b)
    &&& forall|x: u64| #[trigger]
        a.txns.contains_key(x) ==> a.txns[x].tables.subset_of(b.txns[x].tables)
    &&& b.log != a.log ==> !row_of(b.log.last(), table) && b.log.last().kind
        != WalRecordKind::RollbackTo
}

/// The records of a running transaction that stand behind its undo log are in the journal.
pub proof fn lemma_alive_in_log(t: HeapTableModel, j: JournalModel, g: Ledger, txn: TxnId)
    requires
        accounts(t, j, g),
    ensures
        forall|i: int|
            0 <= i < g.alive_of(txn).len() ==> 1 <= #[trigger] g.alive_of(txn)[i] <= j.log.len()
                && record_of(j.log, g.alive_of(txn)[i]).txn == txn && running(j, txn),
{
    assert forall|i: int| 0 <= i < g.alive_of(txn).len() implies 1 <= #[trigger] g.alive_of(
        txn,
    )[i] <= j.log.len() && record_of(j.log, g.alive_of(txn)[i]).txn == txn && running(
        j,
        txn,
    ) by {
        assert(super::ledger::entry_backed(t, j, g, t.writes_of(txn)[i], g.alive_of(txn)[i]));
    }
}

/// A quiet step keeps the journal telling what stands in the table.
#[verifier::rlimit(40)]
pub proof fn lemma_told_quiet(t: HeapTableModel, a: JournalModel, b: JournalModel, g: Ledger)
    requires
        accounts(t, a, g),
        told(t, a, g),
        quiet_step(a, b, t.table),
    ensures
        told(t, b, g),
{
    lemma_orderly_step(a, b);
    let r = b.log.last();
    if b.log != a.log {
        assert(numbered(a.log.push(r)));
        lemma_cancelled_grows(a.log, r);
    }
    assert forall|l: u64| 1 <= l <= a.log.len() implies #[trigger] record_of(b.log, l) == record_of(
        a.log,
        l,
    ) by {}
    assert forall|l: u64|
        #![trigger stands_behind(t, g, l)]
        #![trigger record_of(b.log, l)]
        1 <= l <= b.log.len() && row_of(record_of(b.log, l), t.table) && standing(
            b,
            record_of(b.log, l).txn,
        ) implies (stands_behind(t, g, l) <==> !is_cancelled(b.log, b.log.len() as int, l)) by {
        assert(l <= a.log.len()) by {
            if l > a.log.len() {
                assert(record_of(b.log, l) == r);
            }
        }
        assert(record_of(b.log, l) == record_of(a.log, l));
        let x = record_of(a.log, l).txn;
        assert(a.log[l - 1] == record_of(a.log, l));
        assert(writer_told(a, x.0));
        assert(moves_on(a.txns[x.0], b.txns[x.0], b.log, x.0));
        assert(standing(a, x));
        assert(stands_behind(t, g, l) <==> !is_cancelled(a.log, a.log.len() as int, l));
        if b.log != a.log {
            assert(is_cancelled(b.log, b.log.len() as int, l) <==> is_cancelled(
                a.log,
                a.log.len() as int,
                l,
            ) || last_takes_back(b.log, l));
        }
    }
    assert forall|txn: TxnId, i: int, p: int|
        #![trigger marked_at(b.log, txn.0, b.txns[txn.0].savepoints[i].id, p)]
        running(b, txn) && 0 <= i < b.txns[txn.0].savepoints.len() && marked_at(
            b.log,
            txn.0,
            b.txns[txn.0].savepoints[i].id,
            p,
        ) implies splits(
        g.alive_of(txn),
        mark_in(b.txns[txn.0].savepoints[i], t.table.0 as u64),
        p,
    ) by {
        assert(a.txns.contains_key(txn.0));
        assert(moves_on(a.txns[txn.0], b.txns[txn.0], b.log, txn.0));
        assert(b.txns[txn.0].savepoints[i] == a.txns[txn.0].savepoints[i]);
        assert(marked_at(a.log, txn.0, a.txns[txn.0].savepoints[i].id, p));
    }
    assert forall|txn: TxnId| (#[trigger] g.alive_of(txn)).len() > 0 implies b.record(
        txn,
    ).tables.contains(t.table.0 as u64) by {
        lemma_alive_in_log(t, a, g, txn);
        assert(1 <= g.alive_of(txn)[0]);
        assert(a.txns.contains_key(txn.0));
        assert(a.record(txn).tables.contains(t.table.0 as u64));
    }
}

/// The journal tells as much of a table with other bookkeeping.
pub proof fn lemma_told_same(t: HeapTableModel, u: HeapTableModel, j: JournalModel, g: Ledger)
    requires
        told(t, j, g),
        u.table == t.table,
        u.contents == t.contents,
    ensures
        told(u, j, g),
{
    assert forall|l: u64| #[trigger] stands_behind(u, g, l) == stands_behind(t, g, l) by {}
}

/// A transaction that is not running any more needs no undo log.
pub proof fn lemma_told_ended(
    t: HeapTableModel,
    u: HeapTableModel,
    j: JournalModel,
    g: Ledger,
    h: Ledger,
    txn: TxnId,
)
    requires
        told(t, j, g),
        !running(j, txn),
        u.table == t.table,
        h.alive_of(txn).len() == 0,
        forall|x: TxnId| x != txn ==> #[trigger] h.alive_of(x) == g.alive_of(x),
        forall|l: u64|
            1 <= l <= j.log.len() && standing(j, record_of(j.log, l).txn) ==> (
            #[trigger] stands_behind(u, h, l) <==> stands_behind(t, g, l)),
    ensures
        told(u, j, h),
{
}

/// A write of a running transaction keeps the journal telling what stands in the table: its record
/// stands, and comes after every savepoint.
#[verifier::rlimit(40)]
pub proof fn lemma_told_write(
    t: HeapTableModel,
    j: JournalModel,
    g: Ledger,
    u: HeapTableModel,
    k: JournalModel,
    h: Ledger,
    txn: TxnId,
)
    requires
        accounts(t, j, g),
        told(t, j, g),
        running(j, txn),
        j.txns[txn.0].began,
        j.txns[txn.0].tables.contains(t.table.0 as u64),
        j.log.len() < u64::MAX,
        k.txns == j.txns,
        k.next_savepoint_id == j.next_savepoint_id,
        k.log == j.log.push(k.log.last()),
        k.log.last().lsn.0 == j.log.len() + 1,
        k.log.last().txn == txn,
        is_row(k.log.last().kind),
        payload_ok(k.log.last()),
        u.table == t.table,
        h.alive_of(txn) == g.alive_of(txn).push(k.log.len() as u64),
        forall|x: TxnId| x != txn ==> #[trigger] h.alive_of(x) == g.alive_of(x),
        forall|l: u64| #[trigger]
            stands_behind(u, h, l) <==> stands_behind(t, g, l) || l == k.log.len(),
    ensures
        told(u, k, h),
{
    let r = k.log.last();
    let n = k.log.len() as u64;
    assert(writer_told(k, txn.0));
    assert forall|x: u64| #[trigger] j.txns.contains_key(x) implies moves_on(
        j.txns[x],
        k.txns[x],
        k.log,
        x,
    ) by {
        let marks = j.txns[x].savepoints;
        assert(marks.take(marks.len() as int) =~= marks);
    }
    lemma_orderly_step(j, k);
    assert(numbered(j.log.push(r)));
    lemma_cancelled_grows(j.log, r);
    lemma_alive_in_log(t, j, g, txn);
    assert forall|l: u64| 1 <= l <= j.log.len() implies #[trigger] record_of(k.log, l) == record_of(
        j.log,
        l,
    ) by {}
    assert forall|l: u64|
        #![trigger stands_behind(u, h, l)]
        #![trigger record_of(k.log, l)]
        1 <= l <= k.log.len() && row_of(record_of(k.log, l), u.table) && standing(
            k,
            record_of(k.log, l).txn,
        ) implies (stands_behind(u, h, l) <==> !is_cancelled(k.log, k.log.len() as int, l)) by {
        assert(is_cancelled(k.log, k.log.len() as int, l) <==> is_cancelled(
            j.log,
            j.log.len() as int,
            l,
        ) || last_takes_back(k.log, l));
        if l == n {
            if is_cancelled(j.log, j.log.len() as int, l) {
                let (a, b) = choose|a: int, b: int|
                    0 <= a < j.log.len() && #[trigger] takes_back(j.log, a, b) && j.log[b].lsn.0
                        == l;
                assert(j.log[b].lsn.0 == b + 1);
            }
        } else {
            assert(record_of(k.log, l) == record_of(j.log, l));
            assert(stands_behind(t, g, l) <==> !is_cancelled(j.log, j.log.len() as int, l));
        }
    }
    assert forall|x: TxnId, i: int, p: int|
        #![trigger marked_at(k.log, x.0, k.txns[x.0].savepoints[i].id, p)]
        running(k, x) && 0 <= i < k.txns[x.0].savepoints.len() && marked_at(
            k.log,
            x.0,
            k.txns[x.0].savepoints[i].id,
            p,
        ) implies splits(
        h.alive_of(x),
        mark_in(k.txns[x.0].savepoints[i], u.table.0 as u64),
        p,
    ) by {
        let noted = mark_in(k.txns[x.0].savepoints[i], u.table.0 as u64);
        assert(marked_at(j.log, x.0, j.txns[x.0].savepoints[i].id, p));
        assert(splits(g.alive_of(x), noted, p));
        if x == txn {
            assert forall|b: int| 0 <= b < h.alive_of(x).len() implies (b < noted <==> #[trigger]
            h.alive_of(x)[b] <= p) by {
                if b < g.alive_of(x).len() {
                    assert(h.alive_of(x)[b] == g.alive_of(x)[b]);
                }
            }
        }
    }
    assert forall|x: TxnId| (#[trigger] h.alive_of(x)).len() > 0 implies k.record(
        x,
    ).tables.contains(u.table.0 as u64) by {
        if x != txn {
            assert(h.alive_of(x) == g.alive_of(x));
        }
    }
}

/// Taking a savepoint keeps the register what the records tell, whether the savepoint is kept or
/// not.
pub proof fn lemma_orderly_savepoint(
    j: JournalModel,
    k: JournalModel,
    txn: TxnId,
    writes: Map<u64, usize>,
    kept: bool,
)
    requires
        orderly(j),
        !j.finished(txn),
        !j.savepoints_exhausted(),
        !j.refuses(8),
        k == if kept {
            j.savepoint_logged(txn).with_mark(
                txn,
                MarkModel { id: SavepointId(j.next_savepoint_id), writes },
            )
        } else {
            j.savepoint_logged(txn)
        },
    ensures
        orderly(k),
        forall|x: u64, m: SavepointId, p: int|
            m.0 < j.next_savepoint_id || x != txn.0 ==> (#[trigger] marked_at(k.log, x, m, p)
                <==> marked_at(j.log, x, m, p)),
        k.log == j.log.push(k.log.last()),
        k.log.last().kind == WalRecordKind::Savepoint,
        is_mark(k.log.last(), txn.0, SavepointId(j.next_savepoint_id)),
{
    let id = SavepointId(j.next_savepoint_id);
    let r = k.log.last();
    let n = j.log.len() as int;
    lemma_savepoint_payload(id, r);
    assert(k.log == j.log.push(r));
    assert(numbered(j.log.push(r)));
    lemma_cancelled_grows(j.log, r);
    assert forall|i: int| 0 <= i < n implies #[trigger] k.log[i] == j.log[i] by {}
    assert(k.log[n] == r);
    assert forall|x: u64| has_kind(j.log, WalRecordKind::Commit, x) implies #[trigger] has_kind(
        k.log,
        WalRecordKind::Commit,
        x,
    ) by {
        let i = choose|i: int|
            0 <= i < j.log.len() && (#[trigger] j.log[i]).kind == WalRecordKind::Commit
                && j.log[i].txn.0 == x;
        assert(k.log[i] == j.log[i]);
    }
    assert forall|i: int| 0 <= i < k.log.len() && is_row((#[trigger] k.log[i]).kind) implies
        writer_told(k, k.log[i].txn.0) by {
        assert(i < n);
        assert(k.log[i] == j.log[i]);
        assert(writer_told(j, j.log[i].txn.0));
    }
    assert forall|i: int|
        0 <= i < k.log.len() && (#[trigger] k.log[i]).kind == WalRecordKind::Commit implies
        k.txns.contains_key(k.log[i].txn.0) && k.txns[k.log[i].txn.0].status
        == TxnStatus::Committed by {
        assert(k.log[i] == j.log[i]);
    }
    // The savepoints taken before are where they were.
    assert forall|x: u64, m: SavepointId, p: int| m.0 < id.0 || x != txn.0 implies (
    #[trigger] marked_at(k.log, x, m, p) <==> marked_at(j.log, x, m, p)) by {
        lemma_marks_stay(j.log, r, x, m);
    }
    assert(marked_at(k.log, txn.0, id, n));
    let old_marks = j.record(txn).savepoints;
    assert(j.txns.contains_key(txn.0) ==> marks_told(
        j.log,
        j.next_savepoint_id,
        txn.0,
        old_marks,
    ));
    assert forall|x: u64| #[trigger] k.txns.contains_key(x) implies marks_told(
        k.log,
        k.next_savepoint_id,
        x,
        k.txns[x].savepoints,
    ) by {
        let marks = k.txns[x].savepoints;
        let before = j.record(TxnId(x)).savepoints;
        assert(marks_told(j.log, j.next_savepoint_id, x, before));
        assert forall|i: int| 0 <= i < marks.len() implies (#[trigger] marks[i]).id.0
            < k.next_savepoint_id && exists|p: int| marked_at(k.log, x, marks[i].id, p) by {
            if i < before.len() {
                assert(marks[i] == before[i]);
                let p = choose|p: int| marked_at(j.log, x, before[i].id, p);
                assert(marked_at(k.log, x, marks[i].id, p));
            } else {
                assert(marked_at(k.log, x, marks[i].id, n));
            }
        }
        assert forall|c: int, d: int, p: int, q: int|
            #![trigger marked_at(k.log, x, marks[c].id, p), marked_at(k.log, x, marks[d].id, q)]
            0 <= c < d < marks.len() && marked_at(k.log, x, marks[c].id, p) && marked_at(
                k.log,
                x,
                marks[d].id,
                q,
            ) implies p < q by {
            assert(marks[c] == before[c]);
            assert(marked_at(j.log, x, before[c].id, p));
            if d < before.len() {
                assert(marked_at(j.log, x, before[d].id, q));
            } else {
                if q < n {
                    assert(!is_mark(k.log[n], x, marks[d].id));
                }
            }
        }
    }
}

/// Taking a savepoint keeps the journal telling what stands in the table, whether the savepoint is
/// kept or not.
#[verifier::rlimit(40)]
pub proof fn lemma_told_savepoint(
    t: HeapTableModel,
    j: JournalModel,
    g: Ledger,
    k: JournalModel,
    txn: TxnId,
    writes: Map<u64, usize>,
    kept: bool,
)
    requires
        accounts(t, j, g),
        told(t, j, g),
        !j.finished(txn),
        !j.savepoints_exhausted(),
        !j.refuses(8),
        k == if kept {
            j.savepoint_logged(txn).with_mark(
                txn,
                MarkModel { id: SavepointId(j.next_savepoint_id), writes },
            )
        } else {
            j.savepoint_logged(txn)
        },
        kept ==> mark_in(
            MarkModel { id: SavepointId(j.next_savepoint_id), writes },
            t.table.0 as u64,
        ) == t.writes_of(txn).len(),
    ensures
        told(t, k, g),
{
    let id = SavepointId(j.next_savepoint_id);
    let r = k.log.last();
    let n = j.log.len() as int;
    lemma_orderly_savepoint(j, k, txn, writes, kept);
    assert(numbered(j.log.push(r)));
    lemma_cancelled_grows(j.log, r);
    assert forall|i: int| 0 <= i < n implies #[trigger] k.log[i] == j.log[i] by {}
    assert(k.log[n] == r);
    assert forall|l: u64|
        #![trigger stands_behind(t, g, l)]
        #![trigger record_of(k.log, l)]
        1 <= l <= k.log.len() && row_of(record_of(k.log, l), t.table) && standing(
            k,
            record_of(k.log, l).txn,
        ) implies (stands_behind(t, g, l) <==> !is_cancelled(k.log, k.log.len() as int, l)) by {
        assert(record_of(k.log, l) == k.log[l - 1]);
        assert(l <= n);
        assert(record_of(k.log, l) == record_of(j.log, l));
        let x = record_of(j.log, l).txn;
        assert(writer_told(j, j.log[l - 1].txn.0));
        assert(standing(j, x));
        assert(is_cancelled(k.log, k.log.len() as int, l) <==> is_cancelled(
            j.log,
            j.log.len() as int,
            l,
        ) || last_takes_back(k.log, l));
    }
    lemma_alive_in_log(t, j, g, txn);
    assert(g.alive_of(txn).len() == t.writes_of(txn).len());
    assert forall|x: TxnId, i: int, p: int|
        #![trigger marked_at(k.log, x.0, k.txns[x.0].savepoints[i].id, p)]
        running(k, x) && 0 <= i < k.txns[x.0].savepoints.len() && marked_at(
            k.log,
            x.0,
            k.txns[x.0].savepoints[i].id,
            p,
        ) implies splits(
        g.alive_of(x),
        mark_in(k.txns[x.0].savepoints[i], t.table.0 as u64),
        p,
    ) by {
        let marks = k.txns[x.0].savepoints;
        let before = j.record(x).savepoints;
        if i < before.len() {
            assert(marks[i] == before[i]);
            assert(j.txns.contains_key(x.0));
            assert(marks_told(j.log, j.next_savepoint_id, x.0, before));
            assert(before[i].id.0 < id.0);
            assert(marked_at(j.log, x.0, j.txns[x.0].savepoints[i].id, p));
        } else {
            assert(x == txn);
            if p < n {
                assert(!is_mark(k.log[n], x.0, marks[i].id));
            }
            assert(p == n);
        }
    }
    assert forall|x: TxnId| (#[trigger] g.alive_of(x)).len() > 0 implies k.record(
        x,
    ).tables.contains(t.table.0 as u64) by {
        assert(j.record(x).tables.contains(t.table.0 as u64));
    }
}

/// Whether `u`, `k` and `h` are what rolling `txn` back to its `i`-th savepoint leaves of `t`, `j`
/// and `g`.
spec fn rolls(
    t: HeapTableModel,
    j: JournalModel,
    g: Ledger,
    u: HeapTableModel,
    k: JournalModel,
    h: Ledger,
    txn: TxnId,
    sp: SavepointId,
    i: int,
) -> bool {
    let noted = mark_in(j.record(txn).savepoints[i], t.table.0 as u64);
    &&& accounts(t, j, g)
    &&& told(t, j, g)
    &&& running(j, txn)
    &&& j.savepoint_at(txn, sp, i)
    &&& !j.refuses(8)
    &&& k == j.rollback_logged(txn, sp).marks_cut(txn, i)
    &&& u.table == t.table
    &&& h.alive_of(txn) == g.alive_of(txn).take(noted as int)
    &&& forall|x: TxnId| x != txn ==> #[trigger] h.alive_of(x) == g.alive_of(x)
    &&& forall|l: u64| #[trigger]
        stands_behind(u, h, l) <==> stands_behind(t, g, l) && !g.alive_of(txn).skip(
            noted as int,
        ).contains(l)
}

/// Rolling back to a savepoint keeps the register what the records tell.
proof fn lemma_rolled_orderly(
    t: HeapTableModel,
    j: JournalModel,
    g: Ledger,
    u: HeapTableModel,
    k: JournalModel,
    h: Ledger,
    txn: TxnId,
    sp: SavepointId,
    i: int,
)
    requires
        rolls(t, j, g, u, k, h, txn, sp, i),
    ensures
        orderly(k),
        k.log == j.log.push(k.log.last()),
        savepoint_of(k.log.last()) == sp.0,
        forall|x: u64, id: SavepointId, p: int| #[trigger]
            marked_at(k.log, x, id, p) <==> marked_at(j.log, x, id, p),
{
    lemma_savepoint_payload(sp, k.log.last());
    assert(k.log == j.log.push(k.log.last()));
    assert forall|x: u64| #[trigger] j.txns.contains_key(x) implies moves_on(
        j.txns[x],
        k.txns[x],
        k.log,
        x,
    ) by {
        let all = j.txns[x].savepoints;
        if x == txn.0 {
            assert(k.txns[x].savepoints == all.take(i + 1));
        } else {
            assert(all.take(all.len() as int) =~= all);
        }
    }
    lemma_orderly_step(j, k);
}

/// The savepoint a rollback names is at one place in the journal.
proof fn lemma_rolled_place(
    t: HeapTableModel,
    j: JournalModel,
    g: Ledger,
    u: HeapTableModel,
    k: JournalModel,
    h: Ledger,
    txn: TxnId,
    sp: SavepointId,
    i: int,
) -> (p: int)
    requires
        rolls(t, j, g, u, k, h, txn, sp, i),
    ensures
        marked_at(j.log, txn.0, j.txns[txn.0].savepoints[i].id, p),
        splits(
            g.alive_of(txn),
            mark_in(j.txns[txn.0].savepoints[i], t.table.0 as u64),
            p,
        ),
        savepoint_before(k.log, j.log.len() as int, p),
        forall|s: int| #[trigger] savepoint_before(k.log, j.log.len() as int, s) ==> s == p,
{
    let marks = j.txns[txn.0].savepoints;
    let n = j.log.len() as int;
    lemma_rolled_orderly(t, j, g, u, k, h, txn, sp, i);
    assert(k.log[n] == k.log.last());
    assert(marks_told(j.log, j.next_savepoint_id, txn.0, marks));
    assert(marks[i].id == sp);
    let p = choose|p: int| marked_at(j.log, txn.0, marks[i].id, p);
    assert(marked_at(j.log, txn.0, j.txns[txn.0].savepoints[i].id, p));
    assert(savepoint_before(k.log, n, p)) by {
        assert(k.log[p] == j.log[p]);
        assert forall|x: int| p < x < n implies !takes_savepoint(#[trigger] k.log[x], k.log[n]) by {
            assert(k.log[x] == j.log[x]);
            assert(!is_mark(j.log[x], txn.0, marks[i].id));
        }
    }
    assert forall|s: int| #[trigger] savepoint_before(k.log, n, s) implies s == p by {
        assert(k.log[s] == j.log[s]);
        if s < p {
            assert(!takes_savepoint(k.log[p], k.log[n]));
        }
        if s > p {
            assert(is_mark(j.log[s], txn.0, marks[i].id));
        }
    }
    p
}

/// What the record of the rollback takes back is what is undone.
proof fn lemma_rolled_record(
    t: HeapTableModel,
    j: JournalModel,
    g: Ledger,
    u: HeapTableModel,
    k: JournalModel,
    h: Ledger,
    txn: TxnId,
    sp: SavepointId,
    i: int,
    l: u64,
)
    requires
        rolls(t, j, g, u, k, h, txn, sp, i),
        1 <= l <= k.log.len(),
        row_of(record_of(k.log, l), u.table),
        standing(k, record_of(k.log, l).txn),
    ensures
        stands_behind(u, h, l) <==> !is_cancelled(k.log, k.log.len() as int, l),
{
    let n = j.log.len() as int;
    let r = k.log.last();
    let noted = mark_in(j.txns[txn.0].savepoints[i], t.table.0 as u64);
    let alive = g.alive_of(txn);
    lemma_rolled_orderly(t, j, g, u, k, h, txn, sp, i);
    let p = lemma_rolled_place(t, j, g, u, k, h, txn, sp, i);
    lemma_alive_in_log(t, j, g, txn);
    assert(numbered(j.log.push(r)));
    lemma_cancelled_grows(j.log, r);
    assert(k.log[n] == r);
    assert(record_of(k.log, l) == k.log[l - 1]);
    assert(l <= n);
    assert(record_of(k.log, l) == record_of(j.log, l));
    let x = record_of(j.log, l).txn;
    assert(standing(j, x));
    assert(stands_behind(t, g, l) <==> !is_cancelled(j.log, n, l));
    assert(is_cancelled(k.log, k.log.len() as int, l) <==> is_cancelled(j.log, n, l)
        || last_takes_back(k.log, l));
    assert(k.log[p].lsn.0 == p + 1);
    let gone = alive.skip(noted as int);
    if gone.contains(l) {
        let b = choose|b: int| 0 <= b < gone.len() && gone[b] == l;
        assert(alive[b + noted] == l);
        assert(x == txn && l > p);
        assert(p + 1 != l) by {
            assert(k.log[p].kind == WalRecordKind::Savepoint);
        }
        assert(takes_back(k.log, n, l - 1));
        assert(last_takes_back(k.log, l));
    }
    if last_takes_back(k.log, l) {
        let b = choose|b: int| #[trigger]
            takes_back(k.log, k.log.len() - 1, b) && k.log[b].lsn.0 == l;
        assert(k.log[b].lsn.0 == b + 1);
        let s = choose|s: int| #[trigger]
            savepoint_before(k.log, n, s) && k.log[s].lsn.0 < k.log[b].lsn.0;
        assert(s == p);
        assert(x == txn);
        if stands_behind(t, g, l) {
            lemma_standing_alive(t, j, g, txn, l);
            let c = choose|c: int| 0 <= c < alive.len() && alive[c] == l;
            assert(alive[c] > p);
            assert(gone[c - noted] == l);
        }
    }
}

/// The savepoints that stay split what stays.
proof fn lemma_rolled_split(
    t: HeapTableModel,
    j: JournalModel,
    g: Ledger,
    u: HeapTableModel,
    k: JournalModel,
    h: Ledger,
    txn: TxnId,
    sp: SavepointId,
    i: int,
    x: TxnId,
    c: int,
    q: int,
)
    requires
        rolls(t, j, g, u, k, h, txn, sp, i),
        running(k, x),
        0 <= c < k.txns[x.0].savepoints.len(),
        marked_at(k.log, x.0, k.txns[x.0].savepoints[c].id, q),
    ensures
        splits(h.alive_of(x), mark_in(k.txns[x.0].savepoints[c], u.table.0 as u64), q),
{
    let marks = j.txns[txn.0].savepoints;
    let noted = mark_in(marks[i], t.table.0 as u64);
    let alive = g.alive_of(txn);
    lemma_rolled_orderly(t, j, g, u, k, h, txn, sp, i);
    let p = lemma_rolled_place(t, j, g, u, k, h, txn, sp, i);
    assert(k.txns[x.0].savepoints[c] == j.txns[x.0].savepoints[c]);
    assert(marked_at(j.log, x.0, j.txns[x.0].savepoints[c].id, q));
    let m = mark_in(j.txns[x.0].savepoints[c], t.table.0 as u64);
    assert(splits(g.alive_of(x), m, q));
    if x == txn {
        if c < i {
            assert(marks_told(j.log, j.next_savepoint_id, txn.0, marks));
            assert(marked_at(j.log, txn.0, marks[c].id, q));
            assert(marked_at(j.log, txn.0, marks[i].id, p));
            assert(q < p);
            if m > noted {
                assert(alive[noted as int] <= q);
                assert(alive[noted as int] > p);
            }
        }
        assert(m <= noted);
        assert forall|b: int| 0 <= b < h.alive_of(x).len() implies (b < m <==> #[trigger]
        h.alive_of(x)[b] <= q) by {
            assert(h.alive_of(x)[b] == alive[b]);
        }
    }
}

/// Rolling back to a savepoint keeps the journal telling what stands in the table: what its record
/// takes back is what is undone.
pub proof fn lemma_told_rolled(
    t: HeapTableModel,
    j: JournalModel,
    g: Ledger,
    u: HeapTableModel,
    k: JournalModel,
    h: Ledger,
    txn: TxnId,
    sp: SavepointId,
    i: int,
)
    requires
        accounts(t, j, g),
        told(t, j, g),
        running(j, txn),
        j.savepoint_at(txn, sp, i),
        !j.refuses(8),
        k == j.rollback_logged(txn, sp).marks_cut(txn, i),
        u.table == t.table,
        ({
            let noted = mark_in(j.record(txn).savepoints[i], t.table.0 as u64);
            &&& h.alive_of(txn) == g.alive_of(txn).take(noted as int)
            &&& forall|x: TxnId| x != txn ==> #[trigger] h.alive_of(x) == g.alive_of(x)
            &&& forall|l: u64| #[trigger]
                stands_behind(u, h, l) <==> stands_behind(t, g, l) && !g.alive_of(txn).skip(
                    noted as int,
                ).contains(l)
        }),
    ensures
        told(u, k, h),
{
    assert(rolls(t, j, g, u, k, h, txn, sp, i));
    lemma_rolled_orderly(t, j, g, u, k, h, txn, sp, i);
    let p = lemma_rolled_place(t, j, g, u, k, h, txn, sp, i);
    assert(standing_told(u, k, h)) by {
        assert forall|l: u64|
            #![trigger stands_behind(u, h, l)]
            #![trigger record_of(k.log, l)]
            1 <= l <= k.log.len() && row_of(record_of(k.log, l), u.table) && standing(
                k,
                record_of(k.log, l).txn,
            ) implies (stands_behind(u, h, l) <==> !is_cancelled(k.log, k.log.len() as int, l)) by {
            lemma_rolled_record(t, j, g, u, k, h, txn, sp, i, l);
        }
    }
    assert(marks_split(u, k, h)) by {
        assert forall|x: TxnId, c: int, q: int|
            #![trigger marked_at(k.log, x.0, k.txns[x.0].savepoints[c].id, q)]
            running(k, x) && 0 <= c < k.txns[x.0].savepoints.len() && marked_at(
                k.log,
                x.0,
                k.txns[x.0].savepoints[c].id,
                q,
            ) implies splits(
            h.alive_of(x),
            mark_in(k.txns[x.0].savepoints[c], u.table.0 as u64),
            q,
        ) by {
            lemma_rolled_split(t, j, g, u, k, h, txn, sp, i, x, c, q);
        }
    }
    assert(tables_told(u, k, h)) by {
        assert forall|x: TxnId| (#[trigger] h.alive_of(x)).len() > 0 implies k.record(
            x,
        ).tables.contains(u.table.0 as u64) by {
            assert(g.alive_of(x).len() > 0);
        }
    }
}

/// A record of a running transaction that stands is one of its undo log.
proof fn lemma_standing_alive(
    t: HeapTableModel,
    j: JournalModel,
    g: Ledger,
    txn: TxnId,
    l: u64,
)
    requires
        accounts(t, j, g),
        running(j, txn),
        stands_behind(t, g, l),
        record_of(j.log, l).txn == txn,
    ensures
        g.alive_of(txn).contains(l),
{
    assert(!committed(j, txn));
    if exists|k: (u64, u64)| #[trigger] t.contents.contains_key(k) && g.born[k] == l {
        let k = choose|k: (u64, u64)| #[trigger] t.contents.contains_key(k) && g.born[k] == l;
        assert(t.contents.contains_key(k));
    } else {
        let k = choose|k: (u64, u64)| #[trigger] g.hid.contains_key(k) && g.hid[k] == l;
        assert(g.hid.contains_key(k));
    }
}

} // verus!
