//! One `Begin` per transaction: it comes before any row record and before the end of its
//! transaction, and no other follows it.

use vstd::prelude::*;

use super::journal::{JournalModel, MarkModel};
use super::open::{settled_txns, tells_alone};
use super::recover::{has_seen, is_row, shows_txn};
use super::reopening::lemma_register;
use super::storage::DiskStorage;
use super::told::running;
use super::wal::{RecordModel, WalRecordKind};
use crate::ids::{SavepointId, TableId, TxnId};

verus! {

/// Whether a record is a write or the end of a transaction.
pub open spec fn writes_or_ends(kind: WalRecordKind) -> bool {
    is_row(kind) || kind == WalRecordKind::Commit || kind == WalRecordKind::Abort
}

/// Whether the record at `b` is a `Begin` of `txn`.
pub open spec fn begins_at(log: Seq<RecordModel>, txn: TxnId, b: int) -> bool {
    0 <= b < log.len() && log[b].kind == WalRecordKind::Begin && log[b].txn == txn
}

/// Whether the journal holds at most one `Begin` of each transaction, one before every write and
/// every end of a transaction, and whether the register knows which transactions have theirs.
pub open spec fn begins_once(j: JournalModel) -> bool {
    &&& forall|txn: TxnId, a: int, b: int| #[trigger]
        begins_at(j.log, txn, a) && #[trigger] begins_at(j.log, txn, b) ==> a == b
    &&& forall|i: int|
        0 <= i < j.log.len() && writes_or_ends((#[trigger] j.log[i]).kind) ==> exists|b: int|
            b < i && begins_at(j.log, j.log[i].txn, b)
    &&& forall|txn: TxnId, b: int| #[trigger]
        begins_at(j.log, txn, b) ==> j.txns.contains_key(txn.0) && (running(j, txn)
            ==> j.txns[txn.0].began)
    &&& forall|x: u64| #[trigger]
        j.txns.contains_key(x) && running(j, TxnId(x)) && j.txns[x].began ==> exists|b: int|
            begins_at(j.log, TxnId(x), b)
}

/// How a journal may grow: by a `Begin` of a transaction that has none, by a write or an end of one
/// that has, or by a record that is neither; and how its transactions move on.
pub open spec fn begin_step(a: JournalModel, b: JournalModel) -> bool {
    &&& forall|x: u64| #[trigger]
        a.txns.contains_key(x) ==> b.txns.contains_key(x) && (running(b, TxnId(x)) ==> running(
            a,
            TxnId(x),
        ) && (a.txns[x].began ==> b.txns[x].began))
    &&& if b.log == a.log {
        forall|x: u64| #[trigger]
            b.txns.contains_key(x) && running(b, TxnId(x)) && b.txns[x].began
                ==> a.txns.contains_key(x) && running(a, TxnId(x)) && a.txns[x].began
    } else {
        let r = b.log.last();
        &&& b.log == a.log.push(r)
        &&& forall|x: u64| #[trigger]
            b.txns.contains_key(x) && running(b, TxnId(x)) && b.txns[x].began ==> (r.kind
                == WalRecordKind::Begin && r.txn.0 == x) || (a.txns.contains_key(x) && running(
                a,
                TxnId(x),
            ) && a.txns[x].began)
        &&& r.kind == WalRecordKind::Begin ==> running(b, r.txn) && b.txns[r.txn.0].began && !(
        a.txns.contains_key(r.txn.0) && (!running(a, r.txn) || a.txns[r.txn.0].began))
        &&& writes_or_ends(r.kind) ==> running(a, r.txn) && a.txns[r.txn.0].began
    }
}

/// Such a step keeps one `Begin` per transaction.
pub proof fn lemma_begin_step(a: JournalModel, b: JournalModel)
    requires
        begins_once(a),
        begin_step(a, b),
    ensures
        begins_once(b),
{
    let n = a.log.len() as int;
    let r = b.log.last();
    let grown = b.log != a.log;
    assert forall|i: int| 0 <= i < n implies #[trigger] b.log[i] == a.log[i] by {}
    assert forall|txn: TxnId, p: int| #[trigger] begins_at(b.log, txn, p) <==> begins_at(
        a.log,
        txn,
        p,
    ) || (grown && p == n && r.kind == WalRecordKind::Begin && r.txn == txn) by {
        if grown {
            assert(b.log[n] == r);
        }
        if 0 <= p < n {
            assert(b.log[p] == a.log[p]);
        }
    }
    assert forall|txn: TxnId, p: int, q: int| #[trigger]
        begins_at(b.log, txn, p) && #[trigger] begins_at(b.log, txn, q) implies p == q by {
        if p != q {
            if begins_at(a.log, txn, p) && begins_at(a.log, txn, q) {
            } else if begins_at(a.log, txn, p) {
                assert(a.txns.contains_key(txn.0));
            } else {
                assert(begins_at(a.log, txn, q));
                assert(a.txns.contains_key(txn.0));
            }
        }
    }
    assert forall|i: int|
        0 <= i < b.log.len() && writes_or_ends((#[trigger] b.log[i]).kind) implies exists|p: int|
        p < i && begins_at(b.log, b.log[i].txn, p) by {
        if i < n {
            assert(b.log[i] == a.log[i]);
            let p = choose|p: int| p < i && begins_at(a.log, a.log[i].txn, p);
            assert(begins_at(b.log, b.log[i].txn, p));
        } else {
            assert(b.log[i] == r);
            assert(TxnId(r.txn.0) == r.txn);
            let p = choose|p: int| begins_at(a.log, TxnId(r.txn.0), p);
            assert(begins_at(b.log, b.log[i].txn, p));
        }
    }
    assert forall|txn: TxnId, p: int| #[trigger] begins_at(b.log, txn, p) implies
        b.txns.contains_key(txn.0) && (running(b, txn) ==> b.txns[txn.0].began) by {
        if begins_at(a.log, txn, p) {
            assert(a.txns.contains_key(txn.0));
            assert(TxnId(txn.0) == txn);
        }
    }
    assert forall|x: u64| #[trigger]
        b.txns.contains_key(x) && running(b, TxnId(x)) && b.txns[x].began implies exists|p: int|
        begins_at(b.log, TxnId(x), p) by {
        if a.txns.contains_key(x) && running(a, TxnId(x)) && a.txns[x].began {
            let p = choose|p: int| begins_at(a.log, TxnId(x), p);
            assert(begins_at(b.log, TxnId(x), p));
        } else {
            assert(begins_at(b.log, TxnId(x), n));
        }
    }
}

/// The first write of a transaction appends its `Begin`, a later one none, whichever the table and
/// whether a savepoint came before: there is one `Begin` of it from then on.
pub proof fn law_first_write_begins_once(j: JournalModel, txn: TxnId, table: TableId)
    requires
        begins_once(j),
        !j.finished(txn),
    ensures
        begins_once(j.noted(txn, table)),
        begins_once(j.begun(txn, table)),
        exists|b: int| begins_at(j.begun(txn, table).log, txn, b),
{
    let k = j.begun(txn, table);
    lemma_begin_step(j, j.noted(txn, table));
    if !j.record(txn).began {
        assert(k.log == j.log.push(k.log.last()));
        assert(begins_at(k.log, txn, j.log.len() as int));
    } else {
        assert(TxnId(txn.0) == txn);
        assert(exists|b: int| begins_at(j.log, TxnId(txn.0), b));
    }
    lemma_begin_step(j, k);
}

/// A row record of a transaction that began keeps one `Begin` per transaction.
pub proof fn law_write_keeps_one_begin(
    j: JournalModel,
    txn: TxnId,
    kind: WalRecordKind,
    payload: Seq<u8>,
)
    requires
        begins_once(j),
        running(j, txn),
        j.txns[txn.0].began,
        is_row(kind),
    ensures
        begins_once(j.logged(kind, txn, payload)),
{
    let k = j.logged(kind, txn, payload);
    assert(k.log == j.log.push(k.log.last()));
    assert(k.log.len() != j.log.len());
    lemma_begin_step(j, k);
}

/// The end of a transaction keeps one `Begin` per transaction; one that wrote nothing has none, and
/// gets no end record.
pub proof fn law_end_keeps_one_begin(j: JournalModel, txn: TxnId, kind: WalRecordKind)
    requires
        begins_once(j),
        !j.finished(txn),
        kind == WalRecordKind::Commit || kind == WalRecordKind::Abort,
    ensures
        begins_once(j.ended(txn, kind)),
        (forall|b: int| !begins_at(j.log, txn, b)) ==> j.ended(txn, kind).log == j.log,
{
    let k = j.ended(txn, kind);
    if j.record(txn).began {
        assert(k.log == j.log.push(k.log.last()));
        assert(k.log.len() != j.log.len());
        assert(TxnId(txn.0) == txn);
        assert(exists|b: int| begins_at(j.log, TxnId(txn.0), b));
    }
    lemma_begin_step(j, k);
}

/// A savepoint begins nothing.
pub proof fn law_savepoint_keeps_one_begin(j: JournalModel, txn: TxnId, mark: MarkModel)
    requires
        begins_once(j),
        !j.finished(txn),
    ensures
        begins_once(j.savepoint_taken(txn)),
        begins_once(j.savepoint_logged(txn)),
        begins_once(j.savepoint_logged(txn).with_mark(txn, mark)),
{
    let taken = j.savepoint_taken(txn);
    let logged = j.savepoint_logged(txn);
    let marked = logged.with_mark(txn, mark);
    lemma_begin_step(j, taken);
    assert(logged.log == taken.log.push(logged.log.last()));
    assert(logged.log.len() != taken.log.len());
    lemma_begin_step(taken, logged);
    lemma_begin_step(logged, marked);
}

/// A rollback to a savepoint begins nothing.
pub proof fn law_rollback_to_keeps_one_begin(
    j: JournalModel,
    txn: TxnId,
    sp: SavepointId,
    i: int,
)
    requires
        begins_once(j),
        running(j, txn),
    ensures
        begins_once(j.rollback_logged(txn, sp)),
        begins_once(j.rollback_logged(txn, sp).marks_cut(txn, i)),
{
    let logged = j.rollback_logged(txn, sp);
    assert(logged.log == j.log.push(logged.log.last()));
    assert(logged.log.len() != j.log.len());
    lemma_begin_step(j, logged);
    lemma_begin_step(logged, logged.marks_cut(txn, i));
}

/// A record of no transaction begins nothing.
pub proof fn law_other_records_keep_one_begin(j: JournalModel, kind: WalRecordKind, payload: Seq<u8>)
    requires
        begins_once(j),
        !writes_or_ends(kind),
        kind != WalRecordKind::Begin,
    ensures
        begins_once(j.logged(kind, TxnId(0), payload).flushed()),
{
    let k = j.logged(kind, TxnId(0), payload).flushed();
    assert(k.log == j.log.push(k.log.last()));
    assert(k.log.len() != j.log.len());
    lemma_begin_step(j, k);
}

/// A reopened instance has one `Begin` per transaction, as its journal had.
pub proof fn law_reopened_journal_keeps_one_begin(
    j: JournalModel,
    control: super::control::Control,
    s: DiskStorage,
)
    requires
        begins_once(j),
        tells_alone(j.log, control, s),
    ensures
        begins_once(s@.journal),
{
    let k = s@.journal;
    let r = s.recovery;
    lemma_register(r.winners@, r.losers@);
    assert forall|txn: TxnId, b: int| #[trigger] begins_at(k.log, txn, b) implies
        k.txns.contains_key(txn.0) && (running(k, txn) ==> k.txns[txn.0].began) by {
        assert(begins_at(j.log, txn, b));
        assert(shows_txn(k.log[b].kind));
        assert(has_seen(k.log, txn.0));
        assert(r.winners@.contains(txn) || r.losers@.contains(txn));
        assert(TxnId(txn.0) == txn);
        assert(settled_txns(r.winners@, r.losers@).contains_key(txn.0));
    }
    assert forall|x: u64| k.txns.contains_key(x) implies !#[trigger] running(k, TxnId(x)) by {
        assert(settled_txns(r.winners@, r.losers@).contains_key(x));
    }
    assert forall|i: int|
        0 <= i < k.log.len() && writes_or_ends((#[trigger] k.log[i]).kind) implies exists|b: int|
        b < i && begins_at(k.log, k.log[i].txn, b) by {
        assert(j.log[i] == k.log[i]);
    }
    assert forall|txn: TxnId, p: int, q: int| #[trigger]
        begins_at(k.log, txn, p) && #[trigger] begins_at(k.log, txn, q) implies p == q by {
        assert(begins_at(j.log, txn, p) && begins_at(j.log, txn, q));
    }
}

} // verus!
