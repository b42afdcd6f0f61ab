//! What a table promises over a crash: whatever was committed is rebuilt from the journal, and
//! nothing that was not; and a rollback takes back exactly what its transaction wrote.
//!
//! A vacuum leaves no record: a rebuilt table has the versions back that a vacuum removed. They are
//! out of reach of every reader at or past its horizon.

use vstd::prelude::*;

use super::bytes::lemma_byte_ranges;
use super::encode::law_short_row_reads_back;
use super::contents::StoredModel;
use super::journal::{mark_in, JournalModel, MarkModel};
use super::ledger::{accounts, committed, standing, Ledger};
use super::ledger_steps::{elsewhere, foreign};
use super::rebuildable::{
    lemma_commit_rebuildable, lemma_delete_rebuildable, lemma_empty_table_rebuildable,
    lemma_insert_rebuildable, lemma_rollback_rebuildable, lemma_rollback_to_rebuildable,
    lemma_savepoint_rebuildable, lemma_update_rebuildable, lemma_work_elsewhere,
};
use super::redo::is_previous;
use super::table_model::{data_of, latest, legible, HeapTableModel, RowUndo};
use super::told::{orderly, quiet_step, rebuildable, running, told};
use super::vacuum::is_dead;
use super::wal::{WalRecordKind, MAX_PAYLOAD_LEN};
use crate::ids::{RowId, SavepointId, TxnId};
use crate::snapshot::Snapshot;
use crate::value::ValueModel;

verus! {

/// Whether a transaction below `horizon` is known to have committed.
pub open spec fn settled_below(j: JournalModel, txn: TxnId, horizon: TxnId) -> bool {
    standing(j, txn) && committed(j, txn) && txn.0 < horizon.0
}

/// Whether `t` is `full` without versions that a committed transaction below `horizon` replaced or
/// deleted.
pub open spec fn pruned(
    full: HeapTableModel,
    t: HeapTableModel,
    j: JournalModel,
    horizon: TxnId,
) -> bool {
    &&& t.whole()
    &&& t == (HeapTableModel { contents: t.contents, current: t.current, ..full })
    &&& forall|k: (u64, u64)| #[trigger]
        t.contents.contains_key(k) ==> full.contents.contains_key(k) && t.contents[k]
            == full.contents[k]
    &&& forall|k: (u64, u64)| #[trigger]
        full.contents.contains_key(k) && !t.contents.contains_key(k)
            ==> full.contents[k].header.xmax is Some && settled_below(
            j,
            full.contents[k].header.xmax->0,
            horizon,
        )
    &&& forall|row: u64| #[trigger]
        t.current.contains_key(row) ==> full.current.contains_key(row) && full.current[row]
            == t.current[row]
    &&& forall|row: u64| #[trigger]
        full.current.contains_key(row) && !t.current.contains_key(row) ==> !t.contents.contains_key(
            (row, full.current[row]),
        )
}

/// Whether what a crash leaves of the table can be rebuilt from the records of the journal alone,
/// but for versions that a vacuum below `horizon` removed and that the rebuilt table has back.
pub open spec fn recoverable(t: HeapTableModel, j: JournalModel, horizon: TxnId) -> bool {
    exists|full: HeapTableModel| #[trigger]
        rebuildable(full, j) && pruned(full, t, j, horizon)
}

/// What a vacuum removed stays settled as the journal grows.
proof fn lemma_pruned_later(
    full: HeapTableModel,
    t: HeapTableModel,
    a: JournalModel,
    b: JournalModel,
    horizon: TxnId,
)
    requires
        pruned(full, t, a, horizon),
        forall|x: TxnId|
            standing(a, x) && committed(a, x) ==> #[trigger] standing(b, x) && committed(b, x),
    ensures
        pruned(full, t, b, horizon),
{
    assert forall|k: (u64, u64)| #[trigger]
        full.contents.contains_key(k) && !t.contents.contains_key(k) implies settled_below(
        b,
        full.contents[k].header.xmax->0,
        horizon,
    ) by {
        assert(settled_below(a, full.contents[k].header.xmax->0, horizon));
        assert(standing(b, full.contents[k].header.xmax->0));
    }
}

/// A version that nobody took away, or that a transaction which did not commit took away, is still
/// there after a vacuum.
proof fn lemma_still_there(
    full: HeapTableModel,
    t: HeapTableModel,
    j: JournalModel,
    horizon: TxnId,
    row: u64,
)
    requires
        pruned(full, t, j, horizon),
        full.whole(),
        full.current.contains_key(row),
        full.version(RowId(row)).header.xmax matches Some(x) ==> !committed(j, x),
    ensures
        t.current.contains_key(row),
        t.current[row] == full.current[row],
        t.version(RowId(row)) == full.version(RowId(row)),
{
    assert(full.contents.contains_key((row, full.current[row])));
    assert(t.contents.contains_key((row, full.current[row])));
}

/// An insert does the same to a table and to the table before a vacuum.
proof fn lemma_insert_alike(
    full: HeapTableModel,
    t: HeapTableModel,
    j: JournalModel,
    horizon: TxnId,
    txn: TxnId,
    data: Seq<ValueModel>,
)
    requires
        pruned(full, t, j, horizon),
        full.whole(),
        t.insert_outcome(j, txn, data).table.whole(),
    ensures
        ({
            let a = full.insert_outcome(j, txn, data);
            let b = t.insert_outcome(j, txn, data);
            &&& a.journal == b.journal
            &&& a.table.whole()
            &&& pruned(a.table, b.table, j, horizon)
        }),
{
    let a = full.insert_outcome(j, txn, data);
    let b = t.insert_outcome(j, txn, data);
    if a.error is None {
        let key = (t.next_row_id, t.next_seq);
        assert(a.table == full.inserted(txn, data));
        assert(b.table == t.inserted(txn, data));
        assert(b.table.contents.contains_key(key));
        assert(a.table.whole()) by {
            assert forall|k: (u64, u64)| #[trigger] a.table.contents.contains_key(k) implies {
                &&& a.table.contents[k].key() == k
                &&& a.table.contents[k].header.storable()
                &&& k.1 < a.table.next_seq
                &&& legible(a.table.contents[k])
                &&& data_of(a.table.contents[k]).len() == a.table.arity
            } by {
                if k != key {
                    assert(full.contents.contains_key(k));
                } else {
                    assert(b.table.contents.contains_key(k));
                }
            }
            assert forall|row: u64| #[trigger] a.table.current.contains_key(row) implies
                a.table.contents.contains_key((row, a.table.current[row])) by {
                if row != key.0 {
                    assert(full.current.contains_key(row));
                }
            }
        }
        assert forall|k: (u64, u64)| #[trigger] a.table.contents.contains_key(k)
            && !b.table.contents.contains_key(k) implies full.contents.contains_key(k)
            && !t.contents.contains_key(k) && a.table.contents[k] == full.contents[k] by {}
        assert forall|row: u64| #[trigger] a.table.current.contains_key(row)
            && !b.table.current.contains_key(row) implies !b.table.contents.contains_key(
            (row, a.table.current[row]),
        ) by {
            assert(full.current.contains_key(row));
            assert(full.contents.contains_key((row, full.current[row])));
        }
    }
    assert(b.table =~= (HeapTableModel {
        contents: b.table.contents,
        current: b.table.current,
        ..a.table
    }));
}

/// A transaction may replace a row of a table exactly when it could before a vacuum.
proof fn lemma_writable_alike(
    full: HeapTableModel,
    t: HeapTableModel,
    j: JournalModel,
    horizon: TxnId,
    txn: TxnId,
    row: RowId,
)
    requires
        pruned(full, t, j, horizon),
        full.whole(),
    ensures
        full.writable(txn, row, j.st()) == t.writable(txn, row, j.st()),
        t.writable(txn, row, j.st()) ==> t.current[row.0] == full.current[row.0] && t.version(row)
            == full.version(row),
{
    if t.current.contains_key(row.0) {
        assert(t.contents.contains_key((row.0, t.current[row.0])));
    } else if full.current.contains_key(row.0) {
        assert(full.contents.contains_key((row.0, full.current[row.0])));
        assert(!t.contents.contains_key((row.0, full.current[row.0])));
    }
}

/// An update does the same to a table and to the table before a vacuum.
proof fn lemma_update_alike(
    full: HeapTableModel,
    t: HeapTableModel,
    j: JournalModel,
    horizon: TxnId,
    txn: TxnId,
    row: RowId,
    data: Seq<ValueModel>,
)
    requires
        pruned(full, t, j, horizon),
        full.whole(),
        t.update_outcome(j, txn, row, data).table.whole(),
    ensures
        ({
            let a = full.update_outcome(j, txn, row, data);
            let b = t.update_outcome(j, txn, row, data);
            &&& a.journal == b.journal
            &&& a.table.whole()
            &&& pruned(a.table, b.table, j, horizon)
        }),
{
    let a = full.update_outcome(j, txn, row, data);
    let b = t.update_outcome(j, txn, row, data);
    lemma_writable_alike(full, t, j, horizon, txn, row);
    if a.error is None {
        let key = (row.0, t.next_seq);
        let cur = (row.0, t.current[row.0]);
        assert(a.table == full.updated(txn, row, data));
        assert(b.table == t.updated(txn, row, data));
        assert(t.contents.contains_key(cur));
        assert(b.table.contents.contains_key(key));
        assert(b.table.contents.contains_key(cur));
        assert(a.table.whole()) by {
            assert forall|k: (u64, u64)| #[trigger] a.table.contents.contains_key(k) implies {
                &&& a.table.contents[k].key() == k
                &&& a.table.contents[k].header.storable()
                &&& k.1 < a.table.next_seq
                &&& legible(a.table.contents[k])
                &&& data_of(a.table.contents[k]).len() == a.table.arity
            } by {
                if k != key && k != cur {
                    assert(full.contents.contains_key(k));
                } else {
                    assert(b.table.contents.contains_key(k));
                }
            }
            assert forall|x: u64| #[trigger] a.table.current.contains_key(x) implies
                a.table.contents.contains_key((x, a.table.current[x])) by {
                if x != row.0 {
                    assert(full.current.contains_key(x));
                }
            }
        }
        assert forall|k: (u64, u64)| #[trigger] a.table.contents.contains_key(k)
            && !b.table.contents.contains_key(k) implies full.contents.contains_key(k)
            && !t.contents.contains_key(k) && a.table.contents[k] == full.contents[k] by {}
        assert forall|x: u64| #[trigger] a.table.current.contains_key(x)
            && !b.table.current.contains_key(x) implies !b.table.contents.contains_key(
            (x, a.table.current[x]),
        ) by {
            assert(full.current.contains_key(x));
            assert(full.contents.contains_key((x, full.current[x])));
        }
    }
    assert(b.table =~= (HeapTableModel {
        contents: b.table.contents,
        current: b.table.current,
        ..a.table
    }));
}

/// A delete does the same to a table and to the table before a vacuum.
proof fn lemma_delete_alike(
    full: HeapTableModel,
    t: HeapTableModel,
    j: JournalModel,
    horizon: TxnId,
    txn: TxnId,
    row: RowId,
)
    requires
        pruned(full, t, j, horizon),
        full.whole(),
        t.delete_outcome(j, txn, row).table.whole(),
    ensures
        ({
            let a = full.delete_outcome(j, txn, row);
            let b = t.delete_outcome(j, txn, row);
            &&& a.journal == b.journal
            &&& a.table.whole()
            &&& pruned(a.table, b.table, j, horizon)
        }),
{
    let a = full.delete_outcome(j, txn, row);
    let b = t.delete_outcome(j, txn, row);
    lemma_writable_alike(full, t, j, horizon, txn, row);
    if a.error is None {
        let cur = (row.0, t.current[row.0]);
        assert(a.table == full.deleted(txn, row));
        assert(b.table == t.deleted(txn, row));
        assert(t.contents.contains_key(cur));
        assert(b.table.contents.contains_key(cur));
        lemma_marked_alike(full, t, j, horizon, row, Some(txn));
        assert(a.table.contents == full.with_xmax(row, Some(txn)).contents);
        assert(b.table.contents == t.with_xmax(row, Some(txn)).contents);
        assert(a.table.whole()) by {
            assert(full.with_xmax(row, Some(txn)).whole()) by {
                assert forall|k: (u64, u64)| #[trigger] full.with_xmax(
                    row,
                    Some(txn),
                ).contents.contains_key(k) implies full.contents.contains_key(k) by {}
                assert(t.with_xmax(row, Some(txn)).contents.contains_key(cur));
                assert(b.table.contents.contains_key(cur));
                assert forall|x: u64| #[trigger] full.with_xmax(row, Some(txn)).current.contains_key(
                    x,
                ) implies full.with_xmax(row, Some(txn)).contents.contains_key(
                    (x, full.current[x]),
                ) by {
                    assert(full.current.contains_key(x));
                }
            }
        }
    }
    assert(b.table =~= (HeapTableModel {
        contents: b.table.contents,
        current: b.table.current,
        ..a.table
    }));
}

/// Marking the most recent version of a row does the same to a table and to the table before a
/// vacuum.
proof fn lemma_marked_alike(
    full: HeapTableModel,
    t: HeapTableModel,
    j: JournalModel,
    horizon: TxnId,
    row: RowId,
    xmax: Option<TxnId>,
)
    requires
        pruned(full, t, j, horizon),
        full.whole(),
        t.current.contains_key(row.0),
    ensures
        ({
            let a = full.with_xmax(row, xmax);
            let b = t.with_xmax(row, xmax);
            &&& forall|k: (u64, u64)| #[trigger]
                b.contents.contains_key(k) ==> a.contents.contains_key(k) && b.contents[k]
                    == a.contents[k]
            &&& forall|k: (u64, u64)| #[trigger]
                a.contents.contains_key(k) && !b.contents.contains_key(k)
                    ==> full.contents.contains_key(k) && !t.contents.contains_key(k)
                    && a.contents[k] == full.contents[k]
            &&& forall|x: u64| #[trigger]
                full.current.contains_key(x) && !t.current.contains_key(x)
                    ==> !b.contents.contains_key((x, full.current[x]))
        }),
{
    let cur = (row.0, t.current[row.0]);
    assert(t.contents.contains_key(cur));
    assert(full.contents.contains_key(cur));
}

/// An undo does the same to a table and to the table before a vacuum.
proof fn lemma_undone_alike(
    full: HeapTableModel,
    t: HeapTableModel,
    j: JournalModel,
    horizon: TxnId,
    txn: TxnId,
    entry: RowUndo,
)
    requires
        pruned(full, t, j, horizon),
        full.whole(),
        !committed(j, txn),
        full.undo_fault(txn, entry) is None,
    ensures
        t.undo_fault(txn, entry) is None,
        full.undone(txn, entry).whole(),
        pruned(full.undone(txn, entry), t.undone(txn, entry), j, horizon),
{
    let a = full.undone(txn, entry);
    let b = t.undone(txn, entry);
    match entry {
        RowUndo::Insert(row) => {
            lemma_still_there(full, t, j, horizon, row.0);
            let cur = (row.0, t.current[row.0]);
            assert(t.contents.contains_key(cur));
            lemma_tail_alike(full, t, j, horizon, row);
        },
        RowUndo::Update(row) => {
            lemma_still_there(full, t, j, horizon, row.0);
            let fl = full.without_tail(row);
            let tl = t.without_tail(row);
            lemma_tail_alike(full, t, j, horizon, row);
            let seq = latest(fl.contents, row.0)->0;
            assert(is_previous(fl.contents, row.0, u64::MAX, seq));
            assert(fl.contents.contains_key((row.0, seq)));
            assert(tl.contents.contains_key((row.0, seq)));
            assert(is_previous(tl.contents, row.0, u64::MAX, seq)) by {
                assert forall|q: u64| q < u64::MAX && #[trigger] tl.contents.contains_key(
                    (row.0, q),
                ) implies q <= seq by {
                    assert(fl.contents.contains_key((row.0, q)));
                }
            }
            let p = choose|p: u64| is_previous(tl.contents, row.0, u64::MAX, p);
            assert(is_previous(tl.contents, row.0, u64::MAX, p));
            assert(tl.contents.contains_key((row.0, p)));
            assert(p == seq);
            assert(latest(tl.contents, row.0) == Some(seq));
            assert(a == fl.restored(row));
            assert(b == tl.restored(row));
            lemma_restored_alike(fl, tl, j, horizon, row, seq);
        },
        RowUndo::Delete(row) => {
            lemma_still_there(full, t, j, horizon, row.0);
            lemma_marked_alike(full, t, j, horizon, row, None);
            let cur = (row.0, t.current[row.0]);
            assert(t.contents.contains_key(cur));
            assert(full.contents.contains_key(cur));
            lemma_wf_marked(full, row, None);
            lemma_wf_marked(t, row, None);
        },
    }
    assert(b =~= (HeapTableModel { contents: b.contents, current: b.current, ..a }));
}

/// Taking a mark away leaves the versions reading back.
proof fn lemma_wf_marked(t: HeapTableModel, row: RowId, xmax: Option<TxnId>)
    requires
        t.whole(),
        t.current.contains_key(row.0),
        xmax is None,
    ensures
        t.with_xmax(row, xmax).whole(),
{
    let u = t.with_xmax(row, xmax);
    assert(t.contents.contains_key((row.0, t.current[row.0])));
    assert forall|k: (u64, u64)| #[trigger] u.contents.contains_key(k) implies
        t.contents.contains_key(k) by {}
    assert forall|x: u64| #[trigger] u.current.contains_key(x) implies u.contents.contains_key(
        (x, u.current[x]),
    ) by {
        assert(t.current.contains_key(x));
    }
}

/// Taking the most recent version of a row away does the same to a table and to the table before a
/// vacuum.
proof fn lemma_tail_alike(
    full: HeapTableModel,
    t: HeapTableModel,
    j: JournalModel,
    horizon: TxnId,
    row: RowId,
)
    requires
        pruned(full, t, j, horizon),
        full.whole(),
        t.current.contains_key(row.0),
    ensures
        full.without_tail(row).whole(),
        pruned(full.without_tail(row), t.without_tail(row), j, horizon),
{
    let a = full.without_tail(row);
    let b = t.without_tail(row);
    let cur = (row.0, t.current[row.0]);
    assert(t.contents.contains_key(cur));
    lemma_wf_tail(full, row);
    lemma_wf_tail(t, row);
    assert forall|k: (u64, u64)| #[trigger] a.contents.contains_key(k) && !b.contents.contains_key(
        k,
    ) implies full.contents.contains_key(k) && !t.contents.contains_key(k) by {}
    assert forall|x: u64| #[trigger] a.current.contains_key(x) && !b.current.contains_key(
        x,
    ) implies !b.contents.contains_key((x, a.current[x])) by {
        assert(full.current.contains_key(x));
    }
    assert(b =~= (HeapTableModel { contents: b.contents, current: b.current, ..a }));
}

/// A version less leaves the others reading back.
proof fn lemma_wf_tail(t: HeapTableModel, row: RowId)
    requires
        t.whole(),
    ensures
        t.without_tail(row).whole(),
{
    let u = t.without_tail(row);
    assert forall|k: (u64, u64)| #[trigger] u.contents.contains_key(k) implies
        t.contents.contains_key(k) by {}
    assert forall|x: u64| #[trigger] u.current.contains_key(x) implies u.contents.contains_key(
        (x, u.current[x]),
    ) by {
        assert(t.current.contains_key(x));
    }
}

/// Making an older version current again does the same to a table and to the table before a vacuum.
proof fn lemma_restored_alike(
    full: HeapTableModel,
    t: HeapTableModel,
    j: JournalModel,
    horizon: TxnId,
    row: RowId,
    seq: u64,
)
    requires
        pruned(full, t, j, horizon),
        full.whole(),
        latest(full.contents, row.0) == Some(seq),
        latest(t.contents, row.0) == Some(seq),
        t.contents.contains_key((row.0, seq)),
        !full.current.contains_key(row.0),
    ensures
        full.restored(row).whole(),
        pruned(full.restored(row), t.restored(row), j, horizon),
{
    let a = full.restored(row);
    let b = t.restored(row);
    let key = (row.0, seq);
    assert(full.contents.contains_key(key));
    assert forall|k: (u64, u64)| #[trigger] a.contents.contains_key(k) implies
        full.contents.contains_key(k) by {}
    assert forall|k: (u64, u64)| #[trigger] b.contents.contains_key(k) implies
        t.contents.contains_key(k) by {}
    assert(a.whole()) by {
        assert forall|x: u64| #[trigger] a.current.contains_key(x) implies a.contents.contains_key(
            (x, a.current[x]),
        ) by {
            if x != row.0 {
                assert(full.current.contains_key(x));
            }
        }
    }
    assert(b.whole()) by {
        assert forall|x: u64| #[trigger] b.current.contains_key(x) implies b.contents.contains_key(
            (x, b.current[x]),
        ) by {
            if x != row.0 {
                assert(t.current.contains_key(x));
            }
        }
    }
    assert forall|k: (u64, u64)| #[trigger] a.contents.contains_key(k) && !b.contents.contains_key(
        k,
    ) implies full.contents.contains_key(k) && !t.contents.contains_key(k) && a.contents[k]
        == full.contents[k] by {}
    assert forall|x: u64| #[trigger] a.current.contains_key(x) && !b.current.contains_key(
        x,
    ) implies !b.contents.contains_key((x, a.current[x])) by {
        assert(full.current.contains_key(x));
        assert(x != row.0);
    }
    assert(b =~= (HeapTableModel { contents: b.contents, current: b.current, ..a }));
}

/// Undoing several writes does the same to a table and to the table before a vacuum.
proof fn lemma_all_undone_alike(
    full: HeapTableModel,
    t: HeapTableModel,
    j: JournalModel,
    horizon: TxnId,
    txn: TxnId,
    ws: Seq<RowUndo>,
)
    requires
        pruned(full, t, j, horizon),
        full.whole(),
        !committed(j, txn),
        full.stuck(txn, ws) is None,
    ensures
        t.stuck(txn, ws) is None,
        pruned(full.all_undone(txn, ws), t.all_undone(txn, ws), j, horizon),
    decreases ws.len(),
{
    if ws.len() > 0 {
        lemma_undone_alike(full, t, j, horizon, txn, ws.last());
        lemma_all_undone_alike(
            full.undone(txn, ws.last()),
            t.undone(txn, ws.last()),
            j,
            horizon,
            txn,
            ws.drop_last(),
        );
    }
}

/// Cutting an undo log does the same to a table and to the table before a vacuum.
proof fn lemma_cut_alike(
    full: HeapTableModel,
    t: HeapTableModel,
    j: JournalModel,
    horizon: TxnId,
    txn: TxnId,
    mark: nat,
)
    requires
        pruned(full, t, j, horizon),
        full.whole(),
    ensures
        full.cut(txn, mark).whole(),
        pruned(full.cut(txn, mark), t.cut(txn, mark), j, horizon),
{
    let a = full.cut(txn, mark);
    let b = t.cut(txn, mark);
    assert(t.writes == full.writes);
    assert(a.contents == full.contents && a.current == full.current);
    assert(b.contents == t.contents && b.current == t.current);
    assert(b =~= (HeapTableModel { contents: b.contents, current: b.current, ..a }));
}

/// The journal of an instance accounts for a table nothing was written in.
pub proof fn law_empty_table_is_recoverable(t: HeapTableModel, j: JournalModel, horizon: TxnId)
    requires
        t.whole(),
        t.contents == Map::<(u64, u64), StoredModel>::empty(),
        forall|txn: TxnId| (#[trigger] t.writes_of(txn)).len() == 0,
        orderly(j),
        forall|i: int| 0 <= i < j.log.len() ==> foreign(#[trigger] j.log[i], t.table),
        forall|txn: TxnId, i: int|
            0 <= i < j.record(txn).savepoints.len() ==> mark_in(
                #[trigger] j.record(txn).savepoints[i],
                t.table.0 as u64,
            ) == 0,
    ensures
        recoverable(t, j, horizon),
{
    lemma_empty_table_rebuildable(t, j);
    assert(pruned(t, t, j, horizon));
}

/// A record of the journal that says nothing of a table, and work of transactions that wrote
/// nothing in it, leave the table recoverable.
pub proof fn law_work_elsewhere_keeps_a_table(
    t: HeapTableModel,
    a: JournalModel,
    b: JournalModel,
    horizon: TxnId,
)
    requires
        recoverable(t, a, horizon),
        elsewhere(a, b, t.table, Set::empty()),
        quiet_step(a, b, t.table),
    ensures
        recoverable(t, b, horizon),
{
    let full = choose|full: HeapTableModel| #[trigger]
        rebuildable(full, a) && pruned(full, t, a, horizon);
    lemma_work_elsewhere(full, a, b);
    lemma_pruned_later(full, t, a, b, horizon);
}

/// What a write does to the register leaves the committed transactions committed.
proof fn lemma_written_later(
    full: HeapTableModel,
    t: HeapTableModel,
    j: JournalModel,
    k: JournalModel,
    horizon: TxnId,
    txn: TxnId,
)
    requires
        pruned(full, t, j, horizon),
        k.txns == j.txns || !j.finished(txn) && forall|x: u64|
            x != txn.0 && #[trigger] j.txns.contains_key(x) ==> k.txns.contains_key(x) && k.txns[x]
                == j.txns[x],
    ensures
        pruned(full, t, k, horizon),
{
    assert forall|x: TxnId| standing(j, x) && committed(j, x) implies #[trigger] standing(k, x)
        && committed(k, x) by {
        if k.txns != j.txns && x != txn {
            assert(j.txns.contains_key(x.0));
        }
    }
    lemma_pruned_later(full, t, j, k, horizon);
}

/// The columns of a version whose record the journal takes read back.
proof fn lemma_change_legible(t: HeapTableModel, txn: TxnId, row: RowId, data: Seq<ValueModel>)
    requires
        t.fresh_change(txn, row, data).encoded().len() <= MAX_PAYLOAD_LEN,
    ensures
        legible(t.fresh(txn, row, data)),
        data_of(t.fresh(txn, row, data)) == data,
{
    lemma_byte_ranges();
    law_short_row_reads_back(data);
}

/// What an insert leaves reads back.
proof fn lemma_insert_whole(t: HeapTableModel, j: JournalModel, txn: TxnId, data: Seq<ValueModel>)
    requires
        t.whole(),
        t.insert_outcome(j, txn, data).table.wf(),
    ensures
        t.insert_outcome(j, txn, data).table.whole(),
{
    let o = t.insert_outcome(j, txn, data);
    let row = RowId(t.next_row_id);
    if o.error is None {
        lemma_change_legible(t, txn, row, data);
        assert forall|k: (u64, u64)| #[trigger] o.table.contents.contains_key(k) implies legible(
            o.table.contents[k],
        ) && data_of(o.table.contents[k]).len() == o.table.arity by {
            if k != t.fresh(txn, row, data).key() {
                assert(t.contents.contains_key(k));
            }
        }
    } else {
        assert(o.table.contents == t.contents);
    }
}

/// What an update leaves reads back.
proof fn lemma_update_whole(
    t: HeapTableModel,
    j: JournalModel,
    txn: TxnId,
    row: RowId,
    data: Seq<ValueModel>,
)
    requires
        t.whole(),
        t.update_outcome(j, txn, row, data).table.wf(),
    ensures
        t.update_outcome(j, txn, row, data).table.whole(),
{
    let o = t.update_outcome(j, txn, row, data);
    if o.error is None {
        lemma_change_legible(t, txn, row, data);
        assert(t.contents.contains_key((row.0, t.current[row.0])));
        assert forall|k: (u64, u64)| #[trigger] o.table.contents.contains_key(k) implies legible(
            o.table.contents[k],
        ) && data_of(o.table.contents[k]).len() == o.table.arity by {
            if k != t.fresh(txn, row, data).key() {
                assert(t.contents.contains_key(k));
                assert(o.table.contents[k].columns == t.contents[k].columns);
            }
        }
    } else {
        assert(o.table.contents == t.contents);
    }
}

/// What a delete leaves reads back.
proof fn lemma_delete_whole(t: HeapTableModel, j: JournalModel, txn: TxnId, row: RowId)
    requires
        t.whole(),
        t.delete_outcome(j, txn, row).table.wf(),
    ensures
        t.delete_outcome(j, txn, row).table.whole(),
{
    let o = t.delete_outcome(j, txn, row);
    if o.error is None {
        assert(t.contents.contains_key((row.0, t.current[row.0])));
        assert forall|k: (u64, u64)| #[trigger] o.table.contents.contains_key(k) implies legible(
            o.table.contents[k],
        ) && data_of(o.table.contents[k]).len() == o.table.arity by {
            assert(t.contents.contains_key(k));
            assert(o.table.contents[k].columns == t.contents[k].columns);
        }
    } else {
        assert(o.table.contents == t.contents);
    }
}

/// An insert leaves its table recoverable, whether it is accepted or refused.
pub proof fn law_insert_is_recoverable(
    t: HeapTableModel,
    j: JournalModel,
    horizon: TxnId,
    txn: TxnId,
    data: Seq<ValueModel>,
)
    requires
        recoverable(t, j, horizon),
        t.insert_outcome(j, txn, data).table.wf(),
    ensures
        ({
            let o = t.insert_outcome(j, txn, data);
            recoverable(o.table, o.journal, horizon)
        }),
{
    let full = choose|full: HeapTableModel| #[trigger]
        rebuildable(full, j) && pruned(full, t, j, horizon);
    lemma_rebuildable_wf(full, j);
    lemma_insert_whole(t, j, txn, data);
    lemma_insert_alike(full, t, j, horizon, txn, data);
    lemma_insert_rebuildable(full, j, txn, data);
    let a = full.insert_outcome(j, txn, data);
    let b = t.insert_outcome(j, txn, data);
    lemma_written_later(a.table, b.table, j, b.journal, horizon, txn);
}

/// A rebuildable table is consistent.
proof fn lemma_rebuildable_wf(t: HeapTableModel, j: JournalModel)
    requires
        rebuildable(t, j),
    ensures
        t.whole(),
{
    let g = choose|g: Ledger| #[trigger] accounts(t, j, g) && told(t, j, g);
}

/// An update leaves its table recoverable, whether it is accepted or refused.
pub proof fn law_update_is_recoverable(
    t: HeapTableModel,
    j: JournalModel,
    horizon: TxnId,
    txn: TxnId,
    row: RowId,
    data: Seq<ValueModel>,
)
    requires
        recoverable(t, j, horizon),
        t.update_outcome(j, txn, row, data).table.wf(),
    ensures
        ({
            let o = t.update_outcome(j, txn, row, data);
            recoverable(o.table, o.journal, horizon)
        }),
{
    let full = choose|full: HeapTableModel| #[trigger]
        rebuildable(full, j) && pruned(full, t, j, horizon);
    lemma_rebuildable_wf(full, j);
    lemma_update_whole(t, j, txn, row, data);
    lemma_update_alike(full, t, j, horizon, txn, row, data);
    lemma_update_rebuildable(full, j, txn, row, data);
    let a = full.update_outcome(j, txn, row, data);
    let b = t.update_outcome(j, txn, row, data);
    lemma_written_later(a.table, b.table, j, b.journal, horizon, txn);
}

/// A delete leaves its table recoverable, whether it is accepted or refused.
pub proof fn law_delete_is_recoverable(
    t: HeapTableModel,
    j: JournalModel,
    horizon: TxnId,
    txn: TxnId,
    row: RowId,
)
    requires
        recoverable(t, j, horizon),
        t.delete_outcome(j, txn, row).table.wf(),
    ensures
        ({
            let o = t.delete_outcome(j, txn, row);
            recoverable(o.table, o.journal, horizon)
        }),
{
    let full = choose|full: HeapTableModel| #[trigger]
        rebuildable(full, j) && pruned(full, t, j, horizon);
    lemma_rebuildable_wf(full, j);
    lemma_delete_whole(t, j, txn, row);
    lemma_delete_alike(full, t, j, horizon, txn, row);
    lemma_delete_rebuildable(full, j, txn, row);
    let a = full.delete_outcome(j, txn, row);
    let b = t.delete_outcome(j, txn, row);
    lemma_written_later(a.table, b.table, j, b.journal, horizon, txn);
}

/// Taking a savepoint leaves the table recoverable, whether the savepoint is kept or not.
pub proof fn law_savepoint_is_recoverable(
    t: HeapTableModel,
    j: JournalModel,
    horizon: TxnId,
    txn: TxnId,
    writes: Map<u64, usize>,
)
    requires
        recoverable(t, j, horizon),
        !j.finished(txn),
        !j.savepoints_exhausted(),
        !j.refuses(8),
    ensures
        recoverable(t, j.savepoint_logged(txn), horizon),
        ({
            let mark = MarkModel { id: SavepointId(j.next_savepoint_id), writes };
            mark_in(mark, t.table.0 as u64) == t.writes_of(txn).len() ==> recoverable(
                t,
                j.savepoint_logged(txn).with_mark(txn, mark),
                horizon,
            )
        }),
{
    let full = choose|full: HeapTableModel| #[trigger]
        rebuildable(full, j) && pruned(full, t, j, horizon);
    let mark = MarkModel { id: SavepointId(j.next_savepoint_id), writes };
    lemma_savepoint_rebuildable(full, j, txn, writes);
    assert(t.writes_of(txn) == full.writes_of(txn));
    lemma_written_later(full, t, j, j.savepoint_logged(txn), horizon, txn);
    lemma_written_later(full, t, j, j.savepoint_logged(txn).with_mark(txn, mark), horizon, txn);
}

/// Rolling a running transaction back to one of its savepoints never fails, and leaves the table
/// recoverable: the recovery leaves out exactly the writes that were undone.
pub proof fn law_rollback_to_is_recoverable(
    t: HeapTableModel,
    j: JournalModel,
    horizon: TxnId,
    txn: TxnId,
    sp: SavepointId,
    i: int,
)
    requires
        recoverable(t, j, horizon),
        running(j, txn),
        j.savepoint_at(txn, sp, i),
        !j.refuses(8),
    ensures
        ({
            let mark = mark_in(j.record(txn).savepoints[i], t.table.0 as u64);
            let ws = t.writes_after(txn, mark);
            &&& t.cut(txn, mark).stuck(txn, ws) is None
            &&& recoverable(
                t.cut(txn, mark).all_undone(txn, ws),
                j.rollback_logged(txn, sp).marks_cut(txn, i),
                horizon,
            )
        }),
{
    let full = choose|full: HeapTableModel| #[trigger]
        rebuildable(full, j) && pruned(full, t, j, horizon);
    let mark = mark_in(j.record(txn).savepoints[i], t.table.0 as u64);
    lemma_rebuildable_wf(full, j);
    lemma_rollback_to_rebuildable(full, j, txn, sp, i);
    assert(full.writes_after(txn, mark) == t.writes_after(txn, mark));
    let ws = t.writes_after(txn, mark);
    lemma_cut_alike(full, t, j, horizon, txn, mark);
    lemma_all_undone_alike(full.cut(txn, mark), t.cut(txn, mark), j, horizon, txn, ws);
    let k = j.rollback_logged(txn, sp).marks_cut(txn, i);
    lemma_written_later(
        full.cut(txn, mark).all_undone(txn, ws),
        t.cut(txn, mark).all_undone(txn, ws),
        j,
        k,
        horizon,
        txn,
    );
}

/// A rollback never fails, and leaves the table recoverable.
pub proof fn law_rollback_is_recoverable(
    t: HeapTableModel,
    j: JournalModel,
    horizon: TxnId,
    txn: TxnId,
)
    requires
        recoverable(t, j, horizon),
        !j.finished(txn),
        !(j.record(txn).began && j.refuses(0)),
    ensures
        t.cut(txn, 0).stuck(txn, t.writes_of(txn)) is None,
        recoverable(
            t.cut(txn, 0).all_undone(txn, t.writes_of(txn)),
            j.ended(txn, WalRecordKind::Abort),
            horizon,
        ),
{
    let full = choose|full: HeapTableModel| #[trigger]
        rebuildable(full, j) && pruned(full, t, j, horizon);
    lemma_rebuildable_wf(full, j);
    lemma_rollback_rebuildable(full, j, txn);
    let ws = t.writes_of(txn);
    assert(full.writes_of(txn) == ws);
    lemma_cut_alike(full, t, j, horizon, txn, 0);
    if !j.txns.contains_key(txn.0) {
        lemma_unknown_wrote_nothing(full, j, txn);
        assert(ws =~= Seq::<RowUndo>::empty());
    } else {
        lemma_all_undone_alike(full.cut(txn, 0), t.cut(txn, 0), j, horizon, txn, ws);
    }
    lemma_written_later(
        full.cut(txn, 0).all_undone(txn, ws),
        t.cut(txn, 0).all_undone(txn, ws),
        j,
        j.ended(txn, WalRecordKind::Abort),
        horizon,
        txn,
    );
}

/// A transaction the register does not know wrote nothing.
proof fn lemma_unknown_wrote_nothing(t: HeapTableModel, j: JournalModel, txn: TxnId)
    requires
        rebuildable(t, j),
        !j.txns.contains_key(txn.0),
    ensures
        t.writes_of(txn).len() == 0,
{
    let g = choose|g: Ledger| #[trigger] accounts(t, j, g) && told(t, j, g);
    assert(g.alive_of(txn).len() == t.writes_of(txn).len());
    if g.alive_of(txn).len() > 0 {
        super::told::lemma_alive_in_log(t, j, g, txn);
        assert(1 <= g.alive_of(txn)[0]);
    }
}

/// A commit leaves the table recoverable: from then on a crash keeps what the transaction wrote.
pub proof fn law_commit_is_recoverable(
    t: HeapTableModel,
    j: JournalModel,
    horizon: TxnId,
    txn: TxnId,
)
    requires
        recoverable(t, j, horizon),
        !j.finished(txn),
        !(j.record(txn).began && j.refuses(0)),
    ensures
        recoverable(t.cut(txn, 0), j.ended(txn, WalRecordKind::Commit), horizon),
{
    let full = choose|full: HeapTableModel| #[trigger]
        rebuildable(full, j) && pruned(full, t, j, horizon);
    lemma_rebuildable_wf(full, j);
    lemma_commit_rebuildable(full, j, txn);
    lemma_cut_alike(full, t, j, horizon, txn, 0);
    lemma_written_later(
        full.cut(txn, 0),
        t.cut(txn, 0),
        j,
        j.ended(txn, WalRecordKind::Commit),
        horizon,
        txn,
    );
}

/// The larger of two horizons.
pub open spec fn later(a: TxnId, b: TxnId) -> TxnId {
    if a.0 < b.0 {
        b
    } else {
        a
    }
}

/// A vacuum leaves the table recoverable.
pub proof fn law_vacuum_is_recoverable(
    t: HeapTableModel,
    j: JournalModel,
    horizon: TxnId,
    next: TxnId,
)
    requires
        recoverable(t, j, horizon),
    ensures
        recoverable(t.vacuumed(next, j.st()), j, later(horizon, next)),
{
    let full = choose|full: HeapTableModel| #[trigger]
        rebuildable(full, j) && pruned(full, t, j, horizon);
    let g = choose|g: Ledger| #[trigger] accounts(full, j, g) && told(full, j, g);
    let u = t.vacuumed(next, j.st());
    let max = later(horizon, next);
    assert forall|k: (u64, u64)| #[trigger]
        full.contents.contains_key(k) && !u.contents.contains_key(k) implies
        full.contents[k].header.xmax is Some && settled_below(
        j,
        full.contents[k].header.xmax->0,
        max,
    ) by {
        if t.contents.contains_key(k) {
            assert(is_dead(t.contents[k], next, j.st()));
            assert(standing(j, full.contents[k].header.xmin));
            assert(g.hid.contains_key(k));
            assert(standing(j, full.contents[k].header.xmax->0));
        } else {
            assert(settled_below(j, full.contents[k].header.xmax->0, horizon));
        }
    }
    assert forall|row: u64| #[trigger]
        full.current.contains_key(row) && !u.current.contains_key(row) implies !u.contents.contains_key(
        (row, full.current[row]),
    ) by {
        if t.current.contains_key(row) {
            assert(t.current[row] == full.current[row]);
        }
    }
    assert(u.whole()) by {
        assert forall|k: (u64, u64)| #[trigger] u.contents.contains_key(k) implies
            t.contents.contains_key(k) by {}
        assert forall|row: u64| #[trigger] u.current.contains_key(row) implies
            u.contents.contains_key((row, u.current[row])) by {
            assert(t.current.contains_key(row));
        }
    }
    assert(u =~= (HeapTableModel { contents: u.contents, current: u.current, ..full }));
    assert(pruned(full, u, j, max));
}

/// Whether a snapshot was taken at or past `horizon`: every transaction below it had ended.
pub open spec fn at_or_past(snap: Snapshot, horizon: TxnId) -> bool {
    &&& horizon.0 <= snap.xmin.0 <= snap.xmax.0
    &&& forall|t: TxnId| #[trigger] snap.active@.contains(t) ==> t.0 >= snap.xmin.0
}

/// A reader at or past the horizon sees in a table what it would without the vacuums.
pub proof fn lemma_reads_full(
    full: HeapTableModel,
    t: HeapTableModel,
    j: JournalModel,
    horizon: TxnId,
    snap: Snapshot,
    k: (u64, u64),
)
    requires
        pruned(full, t, j, horizon),
        at_or_past(snap, horizon),
    ensures
        t.sees(snap, j.st(), k) <==> full.sees(snap, j.st(), k),
        t.sees(snap, j.st(), k) ==> t.contents[k] == full.contents[k],
{
    if full.contents.contains_key(k) && !t.contents.contains_key(k) {
        let x = full.contents[k].header.xmax->0;
        assert(settled_below(j, x, horizon));
        assert(!snap.active@.contains(x));
    }
}

} // verus!
