//! What a transaction reads after a rollback to a savepoint is what it read when the savepoint was
//! taken, whatever other transactions wrote meanwhile: the records of the journal tell both states.

use vstd::prelude::*;

use super::durability::{at_or_past, lemma_reads_full, pruned, recoverable};
use super::encode::parse_row;
use super::heap_reads::{first_seen, seen_keys, shows_row};
use super::instance_laws::{
    law_commit_is_durable, law_reopened_instance_is_durable, law_rollback_to_is_durable,
};
use super::journal::JournalModel;
use super::ledger::{
    accounts, admissible, committed, entry_backed, numbered, project, record_of, standing,
    stands_behind, table_redo, writes_key, Ledger,
};
use super::open::tells_alone;
use super::recover::{
    is_cancelled, is_row, savepoint_before, savepoint_of, takes_back, takes_savepoint,
};
use super::redo::{change_key, is_previous, previous};
use super::reopening::reads_alike;
use super::restore_laws::law_commit_keeps_the_versions;
use super::storage::{DiskModel, DiskStorage};
use super::table_model::{data_of, HeapTableModel};
use super::told::{
    is_mark, lemma_savepoint_payload, orderly, rebuildable, row_of, told, writer_told,
};
use super::wal::{RecordModel, WalRecordKind};
use super::wal_payload::change_of;
use crate::ids::{RowId, SavepointId, TableId, TxnId};
use crate::snapshot::{status_of, Snapshot, TxnStatus};
use crate::value::ValueModel;

verus! {

/// Whether a record writes a row or takes writes back.
pub open spec fn works(r: RecordModel) -> bool {
    is_row(r.kind) || r.kind == WalRecordKind::RollbackTo
}

/// Whether `j` comes from `taken`, the journal right after `txn` took the savepoint `sp`: since then,
/// `txn` rolled back to no savepoint before `sp`, its identifier was not handed out again, and only
/// `txn` and transactions of `others`, none of which was over, wrote, took writes back or ended.
pub open spec fn since(
    taken: JournalModel,
    j: JournalModel,
    txn: TxnId,
    sp: SavepointId,
    others: Set<TxnId>,
) -> bool {
    let n = taken.log.len() as int;
    &&& 0 < n <= j.log.len()
    &&& forall|k: int| 0 <= k < n ==> #[trigger] j.log[k] == taken.log[k]
    &&& is_mark(taken.log[n - 1], txn.0, sp)
    &&& !taken.finished(txn)
    &&& forall|k: int|
        n <= k < j.log.len() && works(#[trigger] j.log[k]) && j.log[k].txn != txn
            ==> others.contains(j.log[k].txn)
    &&& forall|k: int| n <= k < j.log.len() ==> !is_mark(#[trigger] j.log[k], txn.0, sp)
    &&& forall|k: int, i: int| #[trigger]
        savepoint_before(j.log, k, i) && n <= k && j.log[k].kind == WalRecordKind::RollbackTo
            && j.log[k].txn == txn ==> i >= n - 1
    &&& forall|o: TxnId| #[trigger] others.contains(o) ==> o != txn && !taken.finished(o)
    &&& forall|y: TxnId|
        y != txn && !others.contains(y) ==> #[trigger] status_of(j.st(), y) == status_of(
            taken.st(),
            y,
        )
}

/// Whether `b` is the journal `a` with the record of the rollback of `txn` to `sp` at its end.
spec fn rolled(
    a: Seq<RecordModel>,
    b: Seq<RecordModel>,
    txn: TxnId,
    sp: SavepointId,
) -> bool {
    &&& b.len() == a.len() + 1
    &&& forall|k: int| 0 <= k < a.len() ==> #[trigger] b[k] == a[k]
    &&& b.last().kind == WalRecordKind::RollbackTo
    &&& b.last().txn == txn
    &&& savepoint_of(b.last()) == sp.0
}

/// A savepoint found before a record is found in every journal that starts the same.
proof fn lemma_before_same(a: Seq<RecordModel>, b: Seq<RecordModel>, k: int, i: int)
    requires
        0 <= k < a.len(),
        k < b.len(),
        forall|x: int| 0 <= x <= k ==> #[trigger] a[x] == b[x],
        savepoint_before(a, k, i),
    ensures
        savepoint_before(b, k, i),
{
    assert(a[i] == b[i]);
    assert(a[k] == b[k]);
    assert forall|x: int| i < x < k implies !takes_savepoint(#[trigger] b[x], b[k]) by {
        assert(a[x] == b[x]);
        assert(!takes_savepoint(a[x], a[k]));
    }
}

/// What a rollback takes back it takes back in every journal that starts the same.
pub proof fn lemma_takes_same(a: Seq<RecordModel>, b: Seq<RecordModel>, k: int, i: int)
    requires
        0 <= k < a.len(),
        k < b.len(),
        0 <= i < k,
        forall|x: int| 0 <= x <= k ==> #[trigger] a[x] == b[x],
        takes_back(a, k, i),
    ensures
        takes_back(b, k, i),
{
    let p = choose|p: int| #[trigger]
        savepoint_before(a, k, p) && a[p].lsn.0 < a[i].lsn.0;
    lemma_before_same(a, b, k, p);
    assert(a[k] == b[k] && a[i] == b[i] && a[p] == b[p]);
}

/// A record of the journal of the savepoint that was taken back then stays taken back.
proof fn lemma_stays_cancelled(
    taken: JournalModel,
    j: JournalModel,
    log: Seq<RecordModel>,
    txn: TxnId,
    sp: SavepointId,
    others: Set<TxnId>,
    l: u64,
)
    requires
        since(taken, j, txn, sp, others),
        rolled(j.log, log, txn, sp),
        numbered(taken.log),
        is_cancelled(taken.log, taken.log.len() as int, l),
    ensures
        is_cancelled(log, log.len() as int, l),
{
    let (k, i) = choose|k: int, i: int|
        0 <= k < taken.log.len() && #[trigger] takes_back(taken.log, k, i)
            && taken.log[i].lsn.0 == l;
    assert(taken.log[k].lsn.0 == k + 1 && taken.log[i].lsn.0 == i + 1);
    assert forall|x: int| 0 <= x <= k implies #[trigger] taken.log[x] == log[x] by {
        assert(j.log[x] == taken.log[x]);
    }
    lemma_takes_same(taken.log, log, k, i);
    assert(log[i] == taken.log[i]);
}

/// A record of the journal of the savepoint, by `txn` or by a transaction that did nothing since, that
/// is taken back was taken back then.
proof fn lemma_was_cancelled(
    taken: JournalModel,
    j: JournalModel,
    log: Seq<RecordModel>,
    txn: TxnId,
    sp: SavepointId,
    others: Set<TxnId>,
    l: u64,
)
    requires
        since(taken, j, txn, sp, others),
        rolled(j.log, log, txn, sp),
        numbered(log),
        1 <= l <= taken.log.len(),
        !others.contains(record_of(taken.log, l).txn),
        is_cancelled(log, log.len() as int, l),
    ensures
        is_cancelled(taken.log, taken.log.len() as int, l),
{
    let n = taken.log.len() as int;
    let (k, i) = choose|k: int, i: int|
        0 <= k < log.len() && #[trigger] takes_back(log, k, i) && log[i].lsn.0 == l;
    assert(log[k].lsn.0 == k + 1 && log[i].lsn.0 == i + 1);
    assert(log[i] == j.log[i] && j.log[i] == taken.log[i]);
    let p = choose|p: int| #[trigger]
        savepoint_before(log, k, p) && log[p].lsn.0 < log[i].lsn.0;
    assert(log[p].lsn.0 == p + 1);
    if k < n {
        assert forall|x: int| 0 <= x <= k implies #[trigger] log[x] == taken.log[x] by {
            assert(log[x] == j.log[x]);
            assert(j.log[x] == taken.log[x]);
        }
        lemma_takes_same(log, taken.log, k, i);
    } else if k < j.log.len() {
        assert(log[k] == j.log[k]);
        assert(works(j.log[k]));
        assert(j.log[k].txn == txn);
        assert forall|x: int| 0 <= x <= k implies #[trigger] log[x] == j.log[x] by {}
        lemma_before_same(log, j.log, k, p);
        assert(p >= n - 1);
        assert(false);
    } else {
        assert(log[n - 1] == j.log[n - 1] && j.log[n - 1] == taken.log[n - 1]);
        assert(takes_savepoint(log[n - 1], log[k]));
        assert(p >= n - 1);
        assert(false);
    }
}

/// What `txn` wrote since the savepoint is taken back.
proof fn lemma_since_cancelled(
    taken: JournalModel,
    j: JournalModel,
    log: Seq<RecordModel>,
    txn: TxnId,
    sp: SavepointId,
    others: Set<TxnId>,
    l: u64,
)
    requires
        since(taken, j, txn, sp, others),
        rolled(j.log, log, txn, sp),
        numbered(log),
        taken.log.len() < l <= log.len(),
        is_row(record_of(log, l).kind),
        record_of(log, l).txn == txn,
    ensures
        is_cancelled(log, log.len() as int, l),
{
    let n = taken.log.len() as int;
    let k = log.len() - 1;
    let i = l - 1;
    assert(i < k);
    assert(log[n - 1] == j.log[n - 1] && j.log[n - 1] == taken.log[n - 1]);
    assert(takes_savepoint(log[n - 1], log[k]));
    assert forall|x: int| n - 1 < x < k implies !takes_savepoint(#[trigger] log[x], log[k]) by {
        assert(log[x] == j.log[x]);
        assert(!is_mark(j.log[x], txn.0, sp));
    }
    assert(savepoint_before(log, k, n - 1));
    assert(log[n - 1].lsn.0 == n && log[i].lsn.0 == i + 1 && log[k].lsn.0 == k + 1);
    assert(takes_back(log, k, i));
}

/// A record that creates a version and was not taken back has its version in the table.
pub proof fn lemma_created_is_there(
    t: HeapTableModel,
    j: JournalModel,
    g: Ledger,
    l: u64,
    k: (u64, u64),
)
    requires
        accounts(t, j, g),
        told(t, j, g),
        writes_key(j.log, t.table, l, WalRecordKind::Insert, k) || writes_key(
            j.log,
            t.table,
            l,
            WalRecordKind::Update,
            k,
        ),
        standing(j, record_of(j.log, l).txn),
        !is_cancelled(j.log, j.log.len() as int, l),
    ensures
        t.contents.contains_key(k),
        g.born[k] == l,
{
    assert(row_of(record_of(j.log, l), t.table));
    assert(stands_behind(t, g, l));
    if exists|q: (u64, u64)| #[trigger] t.contents.contains_key(q) && g.born[q] == l {
        let q = choose|q: (u64, u64)| #[trigger] t.contents.contains_key(q) && g.born[q] == l;
        assert(q == k);
    } else {
        let q = choose|q: (u64, u64)| #[trigger] g.hid.contains_key(q) && g.hid[q] == l;
        assert(t.contents.contains_key(q));
    }
}

/// The records behind a version were not taken back.
pub proof fn lemma_not_cancelled(t: HeapTableModel, j: JournalModel, g: Ledger, k: (u64, u64))
    requires
        accounts(t, j, g),
        told(t, j, g),
        t.contents.contains_key(k),
    ensures
        1 <= g.born[k] <= j.log.len(),
        !is_cancelled(j.log, j.log.len() as int, g.born[k]),
        g.hid.contains_key(k) ==> 1 <= g.hid[k] <= j.log.len() && !is_cancelled(
            j.log,
            j.log.len() as int,
            g.hid[k],
        ),
{
    let l = g.born[k];
    assert(row_of(record_of(j.log, l), t.table));
    assert(stands_behind(t, g, l));
    if g.hid.contains_key(k) {
        let h = g.hid[k];
        assert(row_of(record_of(j.log, h), t.table));
        assert(stands_behind(t, g, h));
    }
}

/// A record that hides a version in one state of a table hides it in another, if it was not taken back
/// there and the versions in between that could have been replaced first are in both.
pub proof fn lemma_hidden_alike(
    a: HeapTableModel,
    ja: JournalModel,
    ga: Ledger,
    b: HeapTableModel,
    jb: JournalModel,
    gb: Ledger,
    k: (u64, u64),
)
    requires
        accounts(a, ja, ga),
        accounts(b, jb, gb),
        told(b, jb, gb),
        a.table == b.table,
        a.contents.contains_key(k),
        b.contents.contains_key(k),
        ga.hid.contains_key(k),
        ga.hid[k] <= jb.log.len(),
        record_of(jb.log, ga.hid[k]) == record_of(ja.log, ga.hid[k]),
        standing(jb, record_of(jb.log, ga.hid[k]).txn),
        !is_cancelled(jb.log, jb.log.len() as int, ga.hid[k]),
        forall|v: (u64, u64)| #[trigger]
            b.contents.contains_key(v) && v.0 == k.0 && gb.born[v] < ga.hid[k] && (
            b.contents[v].header.xmin == record_of(ja.log, ga.hid[k]).txn || committed(
                jb,
                b.contents[v].header.xmin,
            )) ==> a.contents.contains_key(v) && ga.born[v] == gb.born[v],
    ensures
        gb.hid.contains_key(k),
        gb.hid[k] == ga.hid[k],
{
    let l = ga.hid[k];
    let r = record_of(ja.log, l);
    assert(row_of(record_of(jb.log, l), b.table));
    assert(stands_behind(b, gb, l));
    if r.kind == WalRecordKind::Delete {
        assert(change_key(change_of(r.payload)) == k);
        if exists|q: (u64, u64)| #[trigger] b.contents.contains_key(q) && gb.born[q] == l {
            let q = choose|q: (u64, u64)| #[trigger] b.contents.contains_key(q) && gb.born[q] == l;
            assert(false);
        }
        let q = choose|q: (u64, u64)| #[trigger] gb.hid.contains_key(q) && gb.hid[q] == l;
        assert(q == k);
    } else {
        let next = change_key(change_of(r.payload));
        assert(writes_key(ja.log, a.table, l, WalRecordKind::Update, next));
        assert(writes_key(jb.log, b.table, l, WalRecordKind::Update, next));
        lemma_created_is_there(b, jb, gb, l, next);
        assert(b.contents.contains_key(k) && b.contents.contains_key(next));
        assert(gb.hid.contains_key(k) && gb.hid[k] <= l);
        let h = gb.hid[k];
        if h < l {
            assert(b.current.contains_key(k.0) && next.1 <= b.current[k.0]);
            let v = change_key(change_of(record_of(jb.log, h).payload));
            assert(b.contents.contains_key(v) && gb.born[v] == h);
            assert(v.0 == k.0 && k.1 < v.1);
            if v.1 >= next.1 {
                assert(v != next);
                assert(b.contents.contains_key(next) && b.contents.contains_key(v));
                assert(gb.born[next] < gb.born[v]);
            }
            assert(b.contents.contains_key(v) && b.contents.contains_key(next));
            assert(b.contents[next].header.xmin == r.txn);
            assert(a.contents.contains_key(v) && ga.born[v] == h);
            assert(a.contents.contains_key(k) && a.contents.contains_key(v));
            assert(ga.hid[k] <= ga.born[v]);
        }
    }
}

/// The records the journal of the savepoint holds are those of the later one.
proof fn lemma_same_record(
    taken: JournalModel,
    j: JournalModel,
    log: Seq<RecordModel>,
    txn: TxnId,
    sp: SavepointId,
    others: Set<TxnId>,
    l: u64,
)
    requires
        since(taken, j, txn, sp, others),
        rolled(j.log, log, txn, sp),
        1 <= l <= taken.log.len(),
    ensures
        record_of(log, l) == record_of(taken.log, l),
{
    assert(log[l - 1] == j.log[l - 1]);
    assert(j.log[l - 1] == taken.log[l - 1]);
}

/// A version that was there when the savepoint was taken is there after the rollback, unless one of
/// `others` created it.
proof fn lemma_version_stays(
    t: HeapTableModel,
    taken: JournalModel,
    g: Ledger,
    u: HeapTableModel,
    after: JournalModel,
    h: Ledger,
    j: JournalModel,
    txn: TxnId,
    sp: SavepointId,
    others: Set<TxnId>,
    k: (u64, u64),
)
    requires
        accounts(t, taken, g),
        told(t, taken, g),
        accounts(u, after, h),
        told(u, after, h),
        t.table == u.table,
        since(taken, j, txn, sp, others),
        rolled(j.log, after.log, txn, sp),
        after.st() == j.st(),
        !after.finished(txn),
        after.txns.contains_key(txn.0),
        t.contents.contains_key(k),
        !others.contains(t.contents[k].header.xmin),
    ensures
        u.contents.contains_key(k),
        h.born[k] == g.born[k],
        u.contents[k].header.xmin == t.contents[k].header.xmin,
{
    let l = g.born[k];
    let x = t.contents[k].header.xmin;
    lemma_not_cancelled(t, taken, g, k);
    lemma_same_record(taken, j, after.log, txn, sp, others, l);
    if is_cancelled(after.log, after.log.len() as int, l) {
        lemma_was_cancelled(taken, j, after.log, txn, sp, others, l);
    }
    assert(standing(after, x)) by {
        assert(is_row(after.log[l - 1].kind));
        assert(writer_told(after, x.0));
        if x != txn {
            assert(status_of(j.st(), x) == status_of(taken.st(), x));
            assert(status_of(after.st(), x) == after.txns[x.0].status);
            assert(status_of(taken.st(), x) == taken.txns[x.0].status);
        }
    }
    lemma_created_is_there(u, after, h, l, k);
}

/// A version that is there after the rollback was there when the savepoint was taken, if its record
/// had been written.
proof fn lemma_version_was(
    t: HeapTableModel,
    taken: JournalModel,
    g: Ledger,
    u: HeapTableModel,
    after: JournalModel,
    h: Ledger,
    j: JournalModel,
    txn: TxnId,
    sp: SavepointId,
    others: Set<TxnId>,
    k: (u64, u64),
)
    requires
        accounts(t, taken, g),
        told(t, taken, g),
        accounts(u, after, h),
        told(u, after, h),
        t.table == u.table,
        since(taken, j, txn, sp, others),
        rolled(j.log, after.log, txn, sp),
        after.st() == j.st(),
        u.contents.contains_key(k),
        h.born[k] <= taken.log.len(),
    ensures
        t.contents.contains_key(k),
        g.born[k] == h.born[k],
        t.contents[k].header.xmin == u.contents[k].header.xmin,
{
    let l = h.born[k];
    let x = u.contents[k].header.xmin;
    lemma_not_cancelled(u, after, h, k);
    lemma_same_record(taken, j, after.log, txn, sp, others, l);
    if is_cancelled(taken.log, taken.log.len() as int, l) {
        lemma_stays_cancelled(taken, j, after.log, txn, sp, others, l);
    }
    lemma_was_standing(taken, j, after, txn, sp, others, x, l);
    lemma_created_is_there(t, taken, g, l, k);
}

/// The writer of a record of the journal of the savepoint that stands after the rollback stood then.
proof fn lemma_was_standing(
    taken: JournalModel,
    j: JournalModel,
    after: JournalModel,
    txn: TxnId,
    sp: SavepointId,
    others: Set<TxnId>,
    x: TxnId,
    l: u64,
)
    requires
        orderly(taken),
        since(taken, j, txn, sp, others),
        rolled(j.log, after.log, txn, sp),
        after.st() == j.st(),
        standing(after, x),
        1 <= l <= taken.log.len(),
        is_row(record_of(taken.log, l).kind),
        record_of(taken.log, l).txn == x,
    ensures
        standing(taken, x),
{
    assert(is_row(taken.log[l - 1].kind));
    assert(writer_told(taken, x.0));
    if x != txn && !others.contains(x) {
        assert(status_of(j.st(), x) == status_of(taken.st(), x));
        assert(status_of(after.st(), x) == after.txns[x.0].status);
        assert(status_of(taken.st(), x) == taken.txns[x.0].status);
    }
}

/// Whether a snapshot of `txn` settles none of `others`.
pub open spec fn settles_none(snap: Snapshot, j: JournalModel, others: Set<TxnId>) -> bool {
    forall|o: TxnId| #[trigger]
        others.contains(o) ==> !snap.settled(o, status_of(j.st(), o))
}

/// Whether a transaction is settled did not change since the savepoint, and none of `others` is.
proof fn lemma_settled_alike(
    taken: JournalModel,
    j: JournalModel,
    txn: TxnId,
    sp: SavepointId,
    others: Set<TxnId>,
    snap: Snapshot,
    x: TxnId,
)
    requires
        since(taken, j, txn, sp, others),
        snap.own == txn,
        settles_none(snap, j, others),
        taken.txns.contains_key(x.0) || !others.contains(x),
    ensures
        snap.settled(x, status_of(taken.st(), x)) == snap.settled(x, status_of(j.st(), x)),
        snap.settled(x, status_of(j.st(), x)) ==> !others.contains(x),
{
    if x != txn && !others.contains(x) {
        assert(status_of(j.st(), x) == status_of(taken.st(), x));
    }
}

/// A version is seen after the rollback exactly if it was seen when the savepoint was taken, and holds
/// what it held.
#[verifier::rlimit(40)]
proof fn lemma_sees_alike(
    t: HeapTableModel,
    taken: JournalModel,
    g: Ledger,
    u: HeapTableModel,
    after: JournalModel,
    h: Ledger,
    j: JournalModel,
    txn: TxnId,
    sp: SavepointId,
    others: Set<TxnId>,
    snap: Snapshot,
    k: (u64, u64),
)
    requires
        accounts(t, taken, g),
        told(t, taken, g),
        accounts(u, after, h),
        told(u, after, h),
        t.table == u.table,
        since(taken, j, txn, sp, others),
        rolled(j.log, after.log, txn, sp),
        after.st() == j.st(),
        !after.finished(txn),
        after.txns.contains_key(txn.0),
        snap.own == txn,
        settles_none(snap, j, others),
    ensures
        u.sees(snap, after.st(), k) <==> t.sees(snap, taken.st(), k),
        u.sees(snap, after.st(), k) ==> t.contents.contains_key(k) && u.contents.contains_key(k)
            && h.born[k] == g.born[k] && h.born[k] <= taken.log.len(),
{
    if u.sees(snap, after.st(), k) {
        let x = u.contents[k].header.xmin;
        let l = h.born[k];
        lemma_not_cancelled(u, after, h, k);
        assert(!others.contains(x));
        assert(l <= taken.log.len()) by {
            if l > taken.log.len() {
                if x == txn {
                    lemma_since_cancelled(taken, j, after.log, txn, sp, others, l);
                } else if l < after.log.len() {
                    assert(after.log[l - 1] == j.log[l - 1]);
                    assert(works(j.log[l - 1]));
                }
            }
        }
        lemma_version_was(t, taken, g, u, after, h, j, txn, sp, others, k);
        lemma_settled_alike(taken, j, txn, sp, others, snap, x);
        if t.contents[k].header.xmax is Some {
            let y = t.contents[k].header.xmax->0;
            assert(g.hid.contains_key(k));
            lemma_settled_alike(taken, j, txn, sp, others, snap, y);
            if snap.settled(y, status_of(taken.st(), y)) {
                lemma_hider_stays(t, taken, g, u, after, h, j, txn, sp, others, k);
                assert(false);
            }
        }
    }
    if t.sees(snap, taken.st(), k) {
        let x = t.contents[k].header.xmin;
        lemma_not_cancelled(t, taken, g, k);
        lemma_settled_alike(taken, j, txn, sp, others, snap, x);
        lemma_version_stays(t, taken, g, u, after, h, j, txn, sp, others, k);
        if u.contents[k].header.xmax is Some {
            let y = u.contents[k].header.xmax->0;
            if snap.settled(y, status_of(after.st(), y)) {
                assert(!others.contains(y));
                lemma_hider_was(t, taken, g, u, after, h, j, txn, sp, others, k);
                lemma_settled_alike(taken, j, txn, sp, others, snap, y);
                assert(false);
            }
        }
    }
}

/// What hid a version when the savepoint was taken hides it after the rollback, unless it is the work
/// of one of `others`.
proof fn lemma_hider_stays(
    t: HeapTableModel,
    taken: JournalModel,
    g: Ledger,
    u: HeapTableModel,
    after: JournalModel,
    h: Ledger,
    j: JournalModel,
    txn: TxnId,
    sp: SavepointId,
    others: Set<TxnId>,
    k: (u64, u64),
)
    requires
        accounts(t, taken, g),
        told(t, taken, g),
        accounts(u, after, h),
        told(u, after, h),
        t.table == u.table,
        since(taken, j, txn, sp, others),
        rolled(j.log, after.log, txn, sp),
        after.st() == j.st(),
        !after.finished(txn),
        after.txns.contains_key(txn.0),
        t.contents.contains_key(k),
        u.contents.contains_key(k),
        t.contents[k].header.xmax is Some,
        !others.contains(t.contents[k].header.xmax->0),
    ensures
        u.contents[k].header.xmax == t.contents[k].header.xmax,
{
    let y = t.contents[k].header.xmax->0;
    assert(g.hid.contains_key(k));
    let l = g.hid[k];
    lemma_not_cancelled(t, taken, g, k);
    lemma_same_record(taken, j, after.log, txn, sp, others, l);
    if is_cancelled(after.log, after.log.len() as int, l) {
        lemma_was_cancelled(taken, j, after.log, txn, sp, others, l);
    }
    assert(standing(after, y)) by {
        assert(is_row(after.log[l - 1].kind));
        assert(writer_told(after, y.0));
        if y != txn {
            assert(status_of(j.st(), y) == status_of(taken.st(), y));
            assert(status_of(after.st(), y) == after.txns[y.0].status);
            assert(status_of(taken.st(), y) == taken.txns[y.0].status);
        }
    }
    assert forall|v: (u64, u64)| #[trigger]
        u.contents.contains_key(v) && v.0 == k.0 && h.born[v] < l && (u.contents[v].header.xmin
            == record_of(taken.log, l).txn || committed(
            after,
            u.contents[v].header.xmin,
        )) implies t.contents.contains_key(v) && g.born[v] == h.born[v] by {
        lemma_version_was(t, taken, g, u, after, h, j, txn, sp, others, v);
    }
    lemma_hidden_alike(t, taken, g, u, after, h, k);
    assert(u.contents[k].header.xmax == Some(record_of(after.log, h.hid[k]).txn));
}

/// What hides a version after the rollback hid it when the savepoint was taken, unless it is the work
/// of one of `others`.
proof fn lemma_hider_was(
    t: HeapTableModel,
    taken: JournalModel,
    g: Ledger,
    u: HeapTableModel,
    after: JournalModel,
    h: Ledger,
    j: JournalModel,
    txn: TxnId,
    sp: SavepointId,
    others: Set<TxnId>,
    k: (u64, u64),
)
    requires
        accounts(t, taken, g),
        told(t, taken, g),
        accounts(u, after, h),
        told(u, after, h),
        t.table == u.table,
        since(taken, j, txn, sp, others),
        rolled(j.log, after.log, txn, sp),
        after.st() == j.st(),
        !after.finished(txn),
        after.txns.contains_key(txn.0),
        t.contents.contains_key(k),
        u.contents.contains_key(k),
        u.contents[k].header.xmax is Some,
        !others.contains(u.contents[k].header.xmax->0),
    ensures
        t.contents[k].header.xmax == u.contents[k].header.xmax,
{
    let y = u.contents[k].header.xmax->0;
    assert(h.hid.contains_key(k));
    let l = h.hid[k];
    lemma_not_cancelled(u, after, h, k);
    assert(record_of(after.log, l).txn == y);
    assert(l <= taken.log.len()) by {
        if l > taken.log.len() {
            if y == txn {
                lemma_since_cancelled(taken, j, after.log, txn, sp, others, l);
            } else if l < after.log.len() {
                assert(after.log[l - 1] == j.log[l - 1]);
                assert(works(j.log[l - 1]));
            }
        }
    }
    lemma_same_record(taken, j, after.log, txn, sp, others, l);
    if is_cancelled(taken.log, taken.log.len() as int, l) {
        lemma_stays_cancelled(taken, j, after.log, txn, sp, others, l);
    }
    lemma_was_standing(taken, j, after, txn, sp, others, y, l);
    assert forall|v: (u64, u64)| #[trigger]
        t.contents.contains_key(v) && v.0 == k.0 && g.born[v] < l && (t.contents[v].header.xmin
            == record_of(after.log, l).txn || committed(
            taken,
            t.contents[v].header.xmin,
        )) implies u.contents.contains_key(v) && h.born[v] == g.born[v] by {
        let x = t.contents[v].header.xmin;
        assert(standing(taken, x));
        assert(!others.contains(x));
        lemma_version_stays(t, taken, g, u, after, h, j, txn, sp, others, v);
    }
    lemma_hidden_alike(u, after, h, t, taken, g, k);
    assert(t.contents[k].header.xmax == Some(record_of(taken.log, g.hid[k]).txn));
}

/// What a replay leaves under a key has the columns of a record it replayed, and was created without a
/// mark if it carries none.
pub proof fn lemma_redo_columns(
    log: Seq<RecordModel>,
    n: int,
    table: TableId,
    kept: Set<u64>,
    k: (u64, u64),
) -> (at: int)
    requires
        0 <= n <= log.len(),
        table_redo(log, n, table, kept) matches Some(c) && c.contains_key(k),
    ensures
        0 <= at < n,
        log[at].kind == WalRecordKind::Insert || log[at].kind == WalRecordKind::Update,
        change_of(log[at].payload).table == table,
        kept.contains(log[at].lsn.0),
        change_key(change_of(log[at].payload)) == k,
        table_redo(log, n, table, kept)->0[k].columns == change_of(log[at].payload).columns,
        table_redo(log, n, table, kept)->0[k].header.xmax is None ==> change_of(
            log[at].payload,
        ).header.xmax is None,
    decreases n,
{
    let before = table_redo(log, n - 1, table, kept)->0;
    let r = log[n - 1];
    let change = change_of(r.payload);
    let key = change_key(change);
    if before.contains_key(k) {
        if r.kind == WalRecordKind::Update && previous(before, key.0, key.1) is Some {
            let p = previous(before, key.0, key.1)->0;
            assert(is_previous(before, key.0, key.1, p));
        }
        lemma_redo_columns(log, n - 1, table, kept, k)
    } else {
        if r.kind == WalRecordKind::Update && previous(before, key.0, key.1) is Some {
            let p = previous(before, key.0, key.1)->0;
            assert(is_previous(before, key.0, key.1, p));
        }
        n - 1
    }
}

/// A version has the columns of the record that created it, and was created without a mark if it
/// carries none.
pub proof fn lemma_columns_told(t: HeapTableModel, j: JournalModel, g: Ledger, k: (u64, u64))
    requires
        accounts(t, j, g),
        t.contents.contains_key(k),
    ensures
        t.contents[k].columns == change_of(record_of(j.log, g.born[k]).payload).columns,
        t.contents[k].header.xmax is None ==> change_of(
            record_of(j.log, g.born[k]).payload,
        ).header.xmax is None,
{
    let all = Set::new(|l: u64| stands_behind(t, g, l));
    assert(admissible(t, j, g, all)) by {
        assert forall|q: (u64, u64)| #[trigger]
            t.contents.contains_key(q) && committed(
                j,
                t.contents[q].header.xmin,
            ) implies all.contains(g.born[q]) by {}
        assert forall|txn: TxnId, a: int, b: int|
            #![trigger g.alive_of(txn)[a], g.alive_of(txn)[b]]
            0 <= a < b < g.alive_of(txn).len() && all.contains(
                g.alive_of(txn)[b],
            ) implies all.contains(g.alive_of(txn)[a]) by {
            let l = g.alive_of(txn)[a];
            let key = change_key(change_of(record_of(j.log, l).payload));
            assert(entry_backed(t, j, g, t.writes_of(txn)[a], l));
            assert(t.contents.contains_key(key) && g.born[key] == l || g.hid.contains_key(key)
                && g.hid[key] == l);
        }
    }
    assert(stands_behind(t, g, g.born[k]));
    let n = j.log.len() as int;
    let c = project(t.contents, g, all);
    assert(table_redo(j.log, n, t.table, all) == Some(c));
    assert(c.contains_key(k));
    let at = lemma_redo_columns(j.log, n, t.table, all, k);
    let l = j.log[at].lsn.0;
    assert(l == at + 1);
    assert(record_of(j.log, l) == j.log[at]);
    if exists|q: (u64, u64)| #[trigger] t.contents.contains_key(q) && g.born[q] == l {
        let q = choose|q: (u64, u64)| #[trigger] t.contents.contains_key(q) && g.born[q] == l;
        assert(q == k);
    } else {
        let q = choose|q: (u64, u64)| #[trigger] g.hid.contains_key(q) && g.hid[q] == l;
        assert(t.contents.contains_key(q));
    }
}

/// Whether two tables show a snapshot the same versions.
spec fn shown_alike(
    a: HeapTableModel,
    sa: Map<u64, TxnStatus>,
    b: HeapTableModel,
    sb: Map<u64, TxnStatus>,
    snap: Snapshot,
) -> bool {
    forall|k: (u64, u64)|
        #![trigger a.sees(snap, sa, k)]
        #![trigger b.sees(snap, sb, k)]
        (a.sees(snap, sa, k) <==> b.sees(snap, sb, k)) && (a.sees(snap, sa, k)
            ==> a.contents[k].columns == b.contents[k].columns)
}

/// The version of a row that is seen first is the same in both.
proof fn lemma_first_there(
    a: HeapTableModel,
    sa: Map<u64, TxnStatus>,
    b: HeapTableModel,
    sb: Map<u64, TxnStatus>,
    snap: Snapshot,
    row: RowId,
    seq: u64,
)
    requires
        shown_alike(a, sa, b, sb, snap),
        first_seen(a, snap, sa, row, seq),
    ensures
        first_seen(b, snap, sb, row, seq),
{
    assert(a.sees(snap, sa, (row.0, seq)));
    assert forall|s: u64| s < seq implies !#[trigger] b.sees(snap, sb, (row.0, s)) by {
        assert(!a.sees(snap, sa, (row.0, s)));
    }
}

/// A row shown in one is shown in the other.
proof fn lemma_shown_there(
    a: HeapTableModel,
    sa: Map<u64, TxnStatus>,
    b: HeapTableModel,
    sb: Map<u64, TxnStatus>,
    snap: Snapshot,
    row: RowId,
    data: Seq<ValueModel>,
)
    requires
        shown_alike(a, sa, b, sb, snap),
        shows_row(a, snap, sa, row, data),
    ensures
        shows_row(b, snap, sb, row, data),
{
    let seq = choose|seq: u64| #[trigger]
        first_seen(a, snap, sa, row, seq) && parse_row(a.contents[(row.0, seq)].columns) == Some(
            data,
        );
    assert(a.sees(snap, sa, (row.0, seq)));
    lemma_first_there(a, sa, b, sb, snap, row, seq);
}

/// The versions seen in one are those seen in the other.
proof fn lemma_keys_there(
    a: HeapTableModel,
    sa: Map<u64, TxnStatus>,
    b: HeapTableModel,
    sb: Map<u64, TxnStatus>,
    snap: Snapshot,
    keys: Seq<(u64, u64)>,
)
    requires
        shown_alike(a, sa, b, sb, snap),
        seen_keys(a, snap, sa, keys),
    ensures
        seen_keys(b, snap, sb, keys),
{
    assert(shown_alike(b, sb, a, sa, snap));
    assert forall|k: (u64, u64)| #[trigger] keys.contains(k) <==> first_seen(
        b,
        snap,
        sb,
        RowId(k.0),
        k.1,
    ) by {
        if keys.contains(k) {
            lemma_first_there(a, sa, b, sb, snap, RowId(k.0), k.1);
        }
        if first_seen(b, snap, sb, RowId(k.0), k.1) {
            lemma_first_there(b, sb, a, sa, snap, RowId(k.0), k.1);
        }
    }
}

/// A table shows `txn` after the rollback what it showed when the savepoint was taken.
proof fn lemma_tables_alike(
    a: HeapTableModel,
    taken: JournalModel,
    b: HeapTableModel,
    after: JournalModel,
    j: JournalModel,
    horizon: TxnId,
    txn: TxnId,
    sp: SavepointId,
    others: Set<TxnId>,
    snap: Snapshot,
)
    requires
        recoverable(a, taken, horizon),
        recoverable(b, after, horizon),
        a.table == b.table,
        since(taken, j, txn, sp, others),
        rolled(j.log, after.log, txn, sp),
        after.st() == j.st(),
        !after.finished(txn),
        after.txns.contains_key(txn.0),
        snap.own == txn,
        at_or_past(snap, horizon),
        settles_none(snap, j, others),
    ensures
        shown_alike(b, after.st(), a, taken.st(), snap),
{
    let fa = choose|full: HeapTableModel| #[trigger]
        rebuildable(full, taken) && pruned(full, a, taken, horizon);
    let g = choose|g: Ledger| #[trigger] accounts(fa, taken, g) && told(fa, taken, g);
    let fb = choose|full: HeapTableModel| #[trigger]
        rebuildable(full, after) && pruned(full, b, after, horizon);
    let h = choose|h: Ledger| #[trigger] accounts(fb, after, h) && told(fb, after, h);
    assert forall|q: (u64, u64)|
        #![trigger b.sees(snap, after.st(), q)]
        #![trigger a.sees(snap, taken.st(), q)]
        (b.sees(snap, after.st(), q) <==> a.sees(snap, taken.st(), q)) && (b.sees(
            snap,
            after.st(),
            q,
        ) ==> b.contents[q].columns == a.contents[q].columns) by {
        lemma_reads_full(fa, a, taken, horizon, snap, q);
        lemma_reads_full(fb, b, after, horizon, snap, q);
        lemma_sees_alike(fa, taken, g, fb, after, h, j, txn, sp, others, snap, q);
        if fb.sees(snap, after.st(), q) {
            lemma_columns_told(fa, taken, g, q);
            lemma_columns_told(fb, after, h, q);
            lemma_not_cancelled(fa, taken, g, q);
            lemma_same_record(taken, j, after.log, txn, sp, others, g.born[q]);
        }
    }
}

/// A rollback to a savepoint gives a transaction back what it read when the savepoint was taken,
/// whatever other transactions wrote in between: its snapshot, which settles none of them, sees the
/// same versions of every table, and the same columns in them. A vacuum up to a horizon the snapshot
/// is past changes nothing of it.
pub proof fn law_rollback_to_gives_back_what_was_read(
    taken: DiskModel,
    m: DiskModel,
    after: DiskModel,
    horizon: TxnId,
    txn: TxnId,
    sp: SavepointId,
    others: Set<TxnId>,
    snap: Snapshot,
    t: u64,
)
    requires
        taken.durable(horizon),
        m.durable(horizon),
        since(taken.journal, m.journal, txn, sp, others),
        m.rollback_result(after, txn, sp, Ok(())),
        after.wf(),
        taken.tables.contains_key(t),
        m.tables.contains_key(t),
        snap.own == txn,
        at_or_past(snap, horizon),
        settles_none(snap, m.journal, others),
    ensures
        forall|k: (u64, u64)|
            #![trigger after.rows_of(t).sees(snap, after.journal.st(), k)]
            #![trigger taken.rows_of(t).sees(snap, taken.journal.st(), k)]
            (after.rows_of(t).sees(snap, after.journal.st(), k) <==> taken.rows_of(t).sees(
                snap,
                taken.journal.st(),
                k,
            )) && (after.rows_of(t).sees(snap, after.journal.st(), k) ==> after.rows_of(
                t,
            ).contents[k].columns == taken.rows_of(t).contents[k].columns),
        forall|row: RowId, data: Seq<ValueModel>| #[trigger]
            shows_row(after.rows_of(t), snap, after.journal.st(), row, data) <==> shows_row(
                taken.rows_of(t),
                snap,
                taken.journal.st(),
                row,
                data,
            ),
        forall|keys: Seq<(u64, u64)>| #[trigger]
            seen_keys(after.rows_of(t), snap, after.journal.st(), keys) <==> seen_keys(
                taken.rows_of(t),
                snap,
                taken.journal.st(),
                keys,
            ),
{
    let j = m.journal;
    let i = choose|i: int| #[trigger]
        j.savepoint_at(txn, sp, i) && j.txns.contains_key(txn.0) && !j.finished(txn)
            && !j.refuses(8) && m.rolled_result(after, txn, sp, i, Ok(()));
    law_rollback_to_is_durable(m, after, horizon, txn, sp);
    let k = after.journal;
    assert(k == j.rollback_logged(txn, sp).marks_cut(txn, i));
    lemma_savepoint_payload(sp, k.log.last());
    assert(rolled(j.log, k.log, txn, sp));
    assert(k.st() =~= j.st());
    assert(after.tables.dom().contains(t)) by {
        assert(m.tables.dom().contains(t));
    }
    let a = taken.rows_of(t);
    let b = after.rows_of(t);
    assert(a.table == b.table) by {
        assert(taken.tables[t].store.table.0 as u64 == t);
        assert(after.tables.contains_key(t));
        assert(after.tables[t].store.table.0 as u64 == t);
    }
    assert(recoverable(a, taken.journal, horizon));
    assert(recoverable(b, k, horizon));
    lemma_tables_alike(a, taken.journal, b, k, j, horizon, txn, sp, others, snap);
    assert forall|row: RowId, data: Seq<ValueModel>| #[trigger]
        shows_row(b, snap, k.st(), row, data) <==> shows_row(
            a,
            snap,
            taken.journal.st(),
            row,
            data,
        ) by {
        if shows_row(b, snap, k.st(), row, data) {
            lemma_shown_there(b, k.st(), a, taken.journal.st(), snap, row, data);
        }
        if shows_row(a, snap, taken.journal.st(), row, data) {
            lemma_shown_there(a, taken.journal.st(), b, k.st(), snap, row, data);
        }
    }
    assert forall|keys: Seq<(u64, u64)>| #[trigger]
        seen_keys(b, snap, k.st(), keys) <==> seen_keys(a, snap, taken.journal.st(), keys) by {
        if seen_keys(b, snap, k.st(), keys) {
            lemma_keys_there(b, k.st(), a, taken.journal.st(), snap, keys);
        }
        if seen_keys(a, snap, taken.journal.st(), keys) {
            lemma_keys_there(a, taken.journal.st(), b, k.st(), snap, keys);
        }
    }
}

/// A transaction that committed has nothing left to undo.
proof fn lemma_nothing_to_undo(t: HeapTableModel, j: JournalModel, horizon: TxnId, txn: TxnId)
    requires
        recoverable(t, j, horizon),
        committed(j, txn),
    ensures
        t.writes_of(txn).len() == 0,
{
    let full = choose|full: HeapTableModel| #[trigger]
        rebuildable(full, j) && pruned(full, t, j, horizon);
    let g = choose|g: Ledger| #[trigger] accounts(full, j, g) && told(full, j, g);
    assert(t.writes == full.writes);
    assert(g.alive_of(txn).len() == full.writes_of(txn).len());
    if g.alive_of(txn).len() > 0 {
        assert(entry_backed(full, j, g, full.writes_of(txn)[0], g.alive_of(txn)[0]));
    }
}

/// What the snapshot of a transaction sees of an instance is what it sees once the transaction
/// committed and the instance was opened again.
proof fn lemma_commit_shows(
    after: DiskModel,
    n: DiskModel,
    s: DiskStorage,
    horizon: TxnId,
    txn: TxnId,
    snap: Snapshot,
    t: u64,
    k: (u64, u64),
)
    requires
        after.durable(horizon),
        after.end_result(n, txn, WalRecordKind::Commit, Ok(())),
        n.wf(),
        s.wf(),
        tells_alone(n.journal.log, n.control, s),
        s@.journal.next_savepoint_id == 0,
        after.tables.contains_key(t),
        snap.own == txn,
        at_or_past(snap, horizon),
    ensures
        s@.rows_of(t).sees(snap, s@.journal.st(), k) <==> after.rows_of(t).sees(
            snap,
            after.journal.st(),
            k,
        ),
        s@.rows_of(t).sees(snap, s@.journal.st(), k) ==> data_of(s@.rows_of(t).contents[k])
            == data_of(after.rows_of(t).contents[k]),
{
    law_commit_is_durable(after, n, horizon, txn);
    law_commit_keeps_the_versions(after, n, txn);
    law_reopened_instance_is_durable(n, horizon, s);
    assert(n.tables.contains_key(t)) by {
        assert(n.tables.dom().contains(t));
    }
    let a = after.rows_of(t);
    let b = n.rows_of(t);
    assert(n.journal == after.journal.ended(txn, WalRecordKind::Commit));
    assert(committed(n.journal, txn));
    lemma_nothing_to_undo(b, n.journal, horizon, txn);
    assert(reads_alike(b, n.journal, s@.rows_of(t), s@.journal, horizon));
    assert(b.sees(snap, n.journal.st(), k) <==> s@.rows_of(t).sees(snap, s@.journal.st(), k));
    if a.contents.contains_key(k) {
        let xmin = a.contents[k].header.xmin;
        lemma_end_settles(after.journal, n.journal, txn, snap, xmin);
        if a.contents[k].header.xmax is Some {
            lemma_end_settles(after.journal, n.journal, txn, snap, a.contents[k].header.xmax->0);
        }
    }
    assert(b.sees(snap, n.journal.st(), k) == a.sees(snap, after.journal.st(), k));
}

/// The commit of a transaction changes nothing of what its own snapshot settles.
proof fn lemma_end_settles(
    a: JournalModel,
    b: JournalModel,
    txn: TxnId,
    snap: Snapshot,
    x: TxnId,
)
    requires
        b == a.ended(txn, WalRecordKind::Commit),
        snap.own == txn,
    ensures
        snap.settled(x, status_of(b.st(), x)) == snap.settled(x, status_of(a.st(), x)),
{
    if x != txn {
        assert(b.txns.contains_key(x.0) <==> a.txns.contains_key(x.0));
    }
}

/// What a transaction read when it took a savepoint is what it reads once it rolled back to it,
/// committed, and the instance was opened again, whatever other transactions wrote in between.
pub proof fn law_what_was_read_survives(
    taken: DiskModel,
    m: DiskModel,
    after: DiskModel,
    n: DiskModel,
    s: DiskStorage,
    horizon: TxnId,
    txn: TxnId,
    sp: SavepointId,
    others: Set<TxnId>,
    snap: Snapshot,
    t: u64,
)
    requires
        taken.durable(horizon),
        m.durable(horizon),
        since(taken.journal, m.journal, txn, sp, others),
        m.rollback_result(after, txn, sp, Ok(())),
        after.wf(),
        after.end_result(n, txn, WalRecordKind::Commit, Ok(())),
        n.wf(),
        s.wf(),
        tells_alone(n.journal.log, n.control, s),
        s@.journal.next_savepoint_id == 0,
        taken.tables.contains_key(t),
        m.tables.contains_key(t),
        snap.own == txn,
        at_or_past(snap, horizon),
        settles_none(snap, m.journal, others),
    ensures
        forall|k: (u64, u64)|
            #![trigger s@.rows_of(t).sees(snap, s@.journal.st(), k)]
            #![trigger taken.rows_of(t).sees(snap, taken.journal.st(), k)]
            (s@.rows_of(t).sees(snap, s@.journal.st(), k) <==> taken.rows_of(t).sees(
                snap,
                taken.journal.st(),
                k,
            )) && (s@.rows_of(t).sees(snap, s@.journal.st(), k) ==> data_of(
                s@.rows_of(t).contents[k],
            ) == data_of(taken.rows_of(t).contents[k])),
{
    law_rollback_to_gives_back_what_was_read(
        taken,
        m,
        after,
        horizon,
        txn,
        sp,
        others,
        snap,
        t,
    );
    law_rollback_to_is_durable(m, after, horizon, txn, sp);
    assert(after.tables.contains_key(t)) by {
        assert(m.tables.dom().contains(t));
        assert(after.tables.dom().contains(t));
    }
    assert forall|k: (u64, u64)|
        #![trigger s@.rows_of(t).sees(snap, s@.journal.st(), k)]
        #![trigger taken.rows_of(t).sees(snap, taken.journal.st(), k)]
        (s@.rows_of(t).sees(snap, s@.journal.st(), k) <==> taken.rows_of(t).sees(
            snap,
            taken.journal.st(),
            k,
        )) && (s@.rows_of(t).sees(snap, s@.journal.st(), k) ==> data_of(
            s@.rows_of(t).contents[k],
        ) == data_of(taken.rows_of(t).contents[k])) by {
        lemma_commit_shows(after, n, s, horizon, txn, snap, t, k);
        assert(after.rows_of(t).sees(snap, after.journal.st(), k) <==> taken.rows_of(t).sees(
            snap,
            taken.journal.st(),
            k,
        ));
    }
}

} // verus!
