//! Who sees the writes of a transaction in a durable table.

use vstd::prelude::*;

use super::durability::{pruned, recoverable};
use super::journal::JournalModel;
use super::ledger::{accounts, standing, Ledger};
use super::table_model::HeapTableModel;
use super::told::{rebuildable, told};
use super::wal::WalRecordKind;
use crate::ids::{RowId, TxnId};
use crate::snapshot::{status_of, Snapshot, TxnStatus};
use crate::value::ValueModel;

verus! {

/// The transactions a version names are in the register.
proof fn lemma_named(t: HeapTableModel, j: JournalModel, horizon: TxnId, k: (u64, u64))
    requires
        recoverable(t, j, horizon),
        t.contents.contains_key(k),
    ensures
        standing(j, t.contents[k].header.xmin),
        t.contents[k].header.xmax matches Some(x) ==> standing(j, x),
{
    let full = choose|full: HeapTableModel| #[trigger]
        rebuildable(full, j) && pruned(full, t, j, horizon);
    let g = choose|g: Ledger| #[trigger] accounts(full, j, g) && told(full, j, g);
    assert(full.contents.contains_key(k));
    if full.contents[k].header.xmax is Some {
        assert(g.hid.contains_key(k));
    }
}

/// Whether a write of `txn` created versions of its own and marked others at most.
spec fn written_by(t: HeapTableModel, u: HeapTableModel, txn: TxnId) -> bool {
    &&& forall|k: (u64, u64)| #[trigger]
        t.contents.contains_key(k) ==> u.contents.contains_key(k) && u.contents[k].header.xmin
            == t.contents[k].header.xmin && (u.contents[k].header.xmax == t.contents[k].header.xmax
            || t.contents[k].header.xmax is None && u.contents[k].header.xmax == Some(txn))
    &&& forall|k: (u64, u64)| #[trigger]
        u.contents.contains_key(k) && !t.contents.contains_key(k) ==> u.contents[k].header.xmin
            == txn
}

/// What such a write leaves for a reader of another transaction.
proof fn lemma_hidden(
    t: HeapTableModel,
    j: JournalModel,
    horizon: TxnId,
    u: HeapTableModel,
    k: JournalModel,
    txn: TxnId,
    snap: Snapshot,
    key: (u64, u64),
)
    requires
        recoverable(t, j, horizon),
        written_by(t, u, txn),
        snap.own != txn,
        !j.finished(txn),
        status_of(k.st(), txn) == TxnStatus::InProgress,
        forall|x: u64| x != txn.0 && #[trigger] j.txns.contains_key(x) ==> k.txns.contains_key(x)
            && k.txns[x].status == j.txns[x].status,
    ensures
        u.sees(snap, k.st(), key) <==> t.sees(snap, j.st(), key),
{
    if t.contents.contains_key(key) {
        lemma_named(t, j, horizon, key);
        let xmin = t.contents[key].header.xmin;
        assert(j.txns.contains_key(xmin.0));
        assert(status_of(k.st(), xmin) == status_of(j.st(), xmin));
        if t.contents[key].header.xmax is Some {
            let xmax = t.contents[key].header.xmax->0;
            assert(j.txns.contains_key(xmax.0));
            assert(status_of(k.st(), xmax) == status_of(j.st(), xmax));
        }
    }
}

/// A row that a transaction inserted is seen by no other reader until it commits.
pub proof fn law_insert_is_hidden_from_others(
    t: HeapTableModel,
    j: JournalModel,
    horizon: TxnId,
    txn: TxnId,
    data: Seq<ValueModel>,
    snap: Snapshot,
    key: (u64, u64),
)
    requires
        recoverable(t, j, horizon),
        snap.own != txn,
        t.insert_outcome(j, txn, data).error is None,
        t.wf(),
    ensures
        ({
            let o = t.insert_outcome(j, txn, data);
            o.table.sees(snap, o.journal.st(), key) <==> t.sees(snap, j.st(), key)
        }),
{
    let o = t.insert_outcome(j, txn, data);
    lemma_hidden(t, j, horizon, o.table, o.journal, txn, snap, key);
}

/// What a transaction replaced is seen by the other readers as it was until it commits.
pub proof fn law_update_is_hidden_from_others(
    t: HeapTableModel,
    j: JournalModel,
    horizon: TxnId,
    txn: TxnId,
    row: RowId,
    data: Seq<ValueModel>,
    snap: Snapshot,
    key: (u64, u64),
)
    requires
        recoverable(t, j, horizon),
        snap.own != txn,
        t.update_outcome(j, txn, row, data).error is None,
        t.wf(),
    ensures
        ({
            let o = t.update_outcome(j, txn, row, data);
            o.table.sees(snap, o.journal.st(), key) <==> t.sees(snap, j.st(), key)
        }),
{
    let o = t.update_outcome(j, txn, row, data);
    assert(t.contents.contains_key((row.0, t.current[row.0])));
    lemma_hidden(t, j, horizon, o.table, o.journal, txn, snap, key);
}

/// What a transaction deleted is seen by the other readers until it commits.
pub proof fn law_delete_is_hidden_from_others(
    t: HeapTableModel,
    j: JournalModel,
    horizon: TxnId,
    txn: TxnId,
    row: RowId,
    snap: Snapshot,
    key: (u64, u64),
)
    requires
        recoverable(t, j, horizon),
        snap.own != txn,
        t.delete_outcome(j, txn, row).error is None,
        t.wf(),
    ensures
        ({
            let o = t.delete_outcome(j, txn, row);
            o.table.sees(snap, o.journal.st(), key) <==> t.sees(snap, j.st(), key)
        }),
{
    let o = t.delete_outcome(j, txn, row);
    assert(t.contents.contains_key((row.0, t.current[row.0])));
    lemma_hidden(t, j, horizon, o.table, o.journal, txn, snap, key);
}

/// A transaction sees at once what it wrote: the row it inserted, the new content of the one it
/// replaced and not the old one, and no more the one it deleted.
pub proof fn law_own_writes_are_seen(
    t: HeapTableModel,
    j: JournalModel,
    txn: TxnId,
    row: RowId,
    data: Seq<ValueModel>,
    snap: Snapshot,
)
    requires
        t.wf(),
        snap.own == txn,
    ensures
        ({
            let o = t.insert_outcome(j, txn, data);
            o.error is None ==> o.table.sees(snap, o.journal.st(), (t.next_row_id, t.next_seq))
        }),
        ({
            let o = t.update_outcome(j, txn, row, data);
            o.error is None ==> o.table.sees(snap, o.journal.st(), (row.0, t.next_seq))
                && !o.table.sees(snap, o.journal.st(), (row.0, t.current[row.0]))
        }),
        ({
            let o = t.delete_outcome(j, txn, row);
            o.error is None ==> !o.table.sees(snap, o.journal.st(), (row.0, t.current[row.0]))
        }),
{
    if t.current.contains_key(row.0) {
        assert(t.contents.contains_key((row.0, t.current[row.0])));
    }
}

/// Once a transaction committed, every reader that settles it sees the versions it created and left
/// current, and no more those it took away.
pub proof fn law_committed_writes_are_seen(
    t: HeapTableModel,
    j: JournalModel,
    txn: TxnId,
    snap: Snapshot,
    key: (u64, u64),
)
    requires
        !j.finished(txn),
        snap.own != txn,
        txn.0 < snap.xmax.0,
        !snap.active@.contains(txn),
        t.contents.contains_key(key),
    ensures
        ({
            let k = j.ended(txn, WalRecordKind::Commit);
            let u = t.cut(txn, 0);
            &&& t.contents[key].header.xmin == txn && t.contents[key].header.xmax is None
                ==> u.sees(snap, k.st(), key)
            &&& t.contents[key].header.xmax == Some(txn) ==> !u.sees(snap, k.st(), key)
        }),
{
}

/// The versions of a transaction that was rolled back are seen by no other reader, and what it took
/// away is seen as if it had not.
pub proof fn law_aborted_writes_are_never_seen(
    t: HeapTableModel,
    j: JournalModel,
    txn: TxnId,
    snap: Snapshot,
    key: (u64, u64),
)
    requires
        status_of(j.st(), txn) == TxnStatus::Aborted,
        snap.own != txn,
        t.contents.contains_key(key),
    ensures
        t.contents[key].header.xmin == txn ==> !t.sees(snap, j.st(), key),
        t.contents[key].header.xmax == Some(txn) ==> t.sees(snap, j.st(), key) == snap.visible(
            t.contents[key].header.xmin,
            None,
            j.st(),
        ),
{
}

} // verus!
