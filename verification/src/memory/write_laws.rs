//! Which rows a transaction may write, what a write changes and what it leaves alone, and what a
//! vacuum takes away.

use vstd::prelude::*;

use super::index::version_at;
use super::model::{chain_ok, index_ok, table_ok, StorageModel};
use super::table::VersionModel;
use super::txn_log::UndoEntry;
use crate::ids::{RowId, SavepointId, TableId, TxnId};
use crate::seqs::lemma_filter_elements;
use crate::snapshot::TxnStatus;
use crate::value::ValueModel;

verus! {

/// A row may be replaced or deleted by `txn` exactly when it is there, nothing took its last version
/// away, and `txn` itself or a transaction that committed wrote that version.
pub proof fn law_only_a_current_row_is_replaced(
    m: StorageModel,
    txn: TxnId,
    table: TableId,
    id: RowId,
)
    requires
        m.wf(),
        m.has_table(table),
    ensures
        m.current(txn, table, id) <==> {
            let last = m.table(table).rows[id.0].last();
            &&& m.table(table).rows.contains_key(id.0)
            &&& last.xmax is None
            &&& last.xmin == txn || !m.txns.contains_key(last.xmin.0)
                || m.txns[last.xmin.0].status == TxnStatus::Committed
        },
{
    assert(m.tables.contains_key(table.0 as u64));
    assert(table_ok(m.table(table)));
    if m.table(table).rows.contains_key(id.0) {
        assert(chain_ok(
            m.table(table).rows[id.0],
            m.table(table).shape.columns.len(),
            m.table(table).next_seq,
        ));
    }
}

/// Once a row is deleted, or replaced and not yet settled, no other transaction may write it.
pub proof fn law_written_row_is_not_written_over(
    m: StorageModel,
    txn: TxnId,
    other: TxnId,
    table: TableId,
    id: RowId,
    data: Seq<ValueModel>,
)
    requires
        m.wf(),
        m.has_table(table),
        m.current(txn, table, id),
        !m.finished(txn),
        other != txn,
    ensures
        !m.updated(txn, table, id, data).current(other, table, id),
        !m.deleted(txn, table, id).current(other, table, id),
        !m.deleted(txn, table, id).current(txn, table, id),
        m.updated(txn, table, id, data).current(txn, table, id),
{
}

/// A transaction is over exactly when it is registered as committed or rolled back, and both ways of
/// ending make it so; the end of one transaction ends no other.
pub proof fn law_ended_transaction_is_over(m: StorageModel, txn: TxnId, other: TxnId)
    ensures
        m.finished(txn) <==> m.txns.contains_key(txn.0) && (m.txns[txn.0].status
            == TxnStatus::Committed || m.txns[txn.0].status == TxnStatus::Aborted),
        m.ended(txn, TxnStatus::Committed).finished(txn),
        m.ended(txn, TxnStatus::Aborted).finished(txn),
        other != txn ==> m.ended(txn, TxnStatus::Committed).finished(other) == m.finished(other),
        other != txn ==> m.ended(txn, TxnStatus::Aborted).finished(other) == m.finished(other),
        m.ended(txn, TxnStatus::Committed).tables == m.tables,
        m.ended(txn, TxnStatus::Committed).txns[txn.0].status == TxnStatus::Committed,
        m.ended(txn, TxnStatus::Aborted).txns[txn.0].status == TxnStatus::Aborted,
{
}

/// An insert adds a row that was not there, holding what it was given, and changes no other row of any
/// table.
pub proof fn law_insert_adds_one_row(
    m: StorageModel,
    txn: TxnId,
    table: TableId,
    data: Seq<ValueModel>,
    t: TableId,
    r: u64,
)
    requires
        m.wf(),
        m.has_room(table),
        m.has_table(table),
    ensures
        ({
            let n = m.inserted(txn, table, data);
            let id = m.table(table).next_row_id;
            let chain = n.table(table).rows[id];
            &&& !m.table(table).rows.contains_key(id)
            &&& n.table(table).rows.contains_key(id)
            &&& chain.len() == 1
            &&& chain[0].data == data
            &&& chain[0].xmin == txn
            &&& chain[0].xmax is None
            &&& n.table(table).next_row_id > id
            &&& n.table(table).shape == m.table(table).shape
            &&& n.databases == m.databases
            &&& n.tables.dom() == m.tables.dom()
            &&& m.has_table(t) && (t != table || r != id) ==> {
                &&& n.table(t).rows.contains_key(r) == m.table(t).rows.contains_key(r)
                &&& m.table(t).rows.contains_key(r) ==> n.table(t).rows[r] == m.table(t).rows[r]
            }
        }),
{
    assert(m.tables.contains_key(table.0 as u64));
    assert(table_ok(m.table(table)));
    assert(m.inserted(txn, table, data).tables.dom() =~= m.tables.dom());
}

/// An update gives a row one more version, holding what it was given, marks the one before as taken away
/// by the transaction, and changes no other version and no other row.
pub proof fn law_update_replaces_the_last_version(
    m: StorageModel,
    txn: TxnId,
    table: TableId,
    id: RowId,
    data: Seq<ValueModel>,
    t: TableId,
    r: u64,
)
    requires
        m.wf(),
        m.has_table(table),
        m.current(txn, table, id),
    ensures
        ({
            let n = m.updated(txn, table, id, data);
            let old = m.table(table).rows[id.0];
            let new = n.table(table).rows[id.0];
            &&& new.len() == old.len() + 1
            &&& new.last().data == data
            &&& new.last().xmin == txn
            &&& new.last().xmax is None
            &&& new[old.len() - 1].xmax == Some(txn)
            &&& new[old.len() - 1].xmin == old.last().xmin
            &&& new[old.len() - 1].data == old.last().data
            &&& forall|i: int| 0 <= i < old.len() - 1 ==> #[trigger] new[i] == old[i]
            &&& n.table(table).next_row_id == m.table(table).next_row_id
            &&& n.databases == m.databases
            &&& n.tables.dom() == m.tables.dom()
            &&& m.has_table(t) && (t != table || r != id.0) ==> {
                &&& n.table(t).rows.contains_key(r) == m.table(t).rows.contains_key(r)
                &&& m.table(t).rows.contains_key(r) ==> n.table(t).rows[r] == m.table(t).rows[r]
            }
        }),
{
    assert(m.updated(txn, table, id, data).tables.dom() =~= m.tables.dom());
}

/// A delete marks the last version of a row as taken away by the transaction, keeps what it holds, and
/// changes no other version and no other row.
pub proof fn law_delete_marks_the_last_version(
    m: StorageModel,
    txn: TxnId,
    table: TableId,
    id: RowId,
    t: TableId,
    r: u64,
)
    requires
        m.wf(),
        m.has_table(table),
        m.current(txn, table, id),
    ensures
        ({
            let n = m.deleted(txn, table, id);
            let old = m.table(table).rows[id.0];
            let new = n.table(table).rows[id.0];
            &&& new.len() == old.len()
            &&& new.last().xmax == Some(txn)
            &&& new.last().xmin == old.last().xmin
            &&& new.last().data == old.last().data
            &&& forall|i: int| 0 <= i < old.len() - 1 ==> #[trigger] new[i] == old[i]
            &&& n.databases == m.databases
            &&& n.tables.dom() == m.tables.dom()
            &&& m.has_table(t) && (t != table || r != id.0) ==> {
                &&& n.table(t).rows.contains_key(r) == m.table(t).rows.contains_key(r)
                &&& m.table(t).rows.contains_key(r) ==> n.table(t).rows[r] == m.table(t).rows[r]
            }
        }),
{
    assert(m.deleted(txn, table, id).tables.dom() =~= m.tables.dom());
}

/// A savepoint gets an identifier that none before it had, marks the writes made so far, and changes
/// no row.
pub proof fn law_savepoint_marks_the_writes_so_far(m: StorageModel, txn: TxnId, other: TxnId, i: int)
    requires
        m.wf(),
        m.next_savepoint_id < u64::MAX,
        m.txns.contains_key(txn.0) ==> m.txns[txn.0].writes.len() <= usize::MAX,
    ensures
        ({
            let n = m.saved(txn);
            let sp = n.txns[txn.0].savepoints.last();
            &&& n.tables == m.tables
            &&& n.indexes == m.indexes
            &&& sp.0 == SavepointId(m.next_savepoint_id)
            &&& sp.1 == m.writes_of(txn).len()
            &&& n.writes_of(txn) == m.writes_of(txn)
            &&& n.next_savepoint_id > m.next_savepoint_id
            &&& n.txns[txn.0].status == if m.txns.contains_key(txn.0) {
                m.txns[txn.0].status
            } else {
                TxnStatus::InProgress
            }
            &&& m.txns.contains_key(txn.0) ==> n.txns[txn.0].savepoints.drop_last()
                == m.txns[txn.0].savepoints
            &&& m.txns.contains_key(other.0) && 0 <= i < m.txns[other.0].savepoints.len()
                ==> m.txns[other.0].savepoints[i].0 != sp.0
            &&& other != txn && m.txns.contains_key(other.0) ==> n.txns[other.0] == m.txns[other.0]
        }),
{
    if m.txns.contains_key(other.0) {
        assert(super::model::txn_ok(m.txns[other.0], m.next_savepoint_id));
    }
    if m.txns.contains_key(txn.0) {
        assert(m.saved(txn).txns[txn.0].savepoints.drop_last() =~= m.txns[txn.0].savepoints);
    }
}

/// Before its writes are undone, a rollback to a savepoint forgets the writes and the savepoints after it
/// and keeps the savepoint itself, the ones before it, and every other transaction.
pub proof fn law_rollback_to_keeps_the_savepoint(
    m: StorageModel,
    txn: TxnId,
    sp: SavepointId,
    i: int,
    other: TxnId,
)
    requires
        m.wf(),
        m.savepoint_at(txn, sp, i),
    ensures
        ({
            let n = m.cut_at(txn, i);
            let before = m.txns[txn.0];
            let after = n.txns[txn.0];
            &&& after.savepoints == before.savepoints.take(i + 1)
            &&& after.savepoints.last().0 == sp
            &&& after.writes == before.writes.take(before.savepoints[i].1 as int)
            &&& after.writes + m.writes_after(txn, i) == before.writes
            &&& after.status == before.status
            &&& n.tables == m.tables && n.indexes == m.indexes
            &&& other != txn && m.txns.contains_key(other.0) ==> n.txns[other.0] == m.txns[other.0]
        }),
{
    let before = m.txns[txn.0];
    assert(super::model::txn_ok(before, m.next_savepoint_id));
    assert(m.cut_at(txn, i).txns[txn.0].writes + m.writes_after(txn, i) =~= before.writes);
}

/// A write registers its transaction as running and is the last of its writes to undo; no other
/// transaction changes.
pub proof fn law_write_is_the_last_to_undo(
    m: StorageModel,
    txn: TxnId,
    table: TableId,
    id: RowId,
    data: Seq<ValueModel>,
    other: TxnId,
)
    requires
        !m.finished(txn),
    ensures
        ({
            let row = RowId(m.table(table).next_row_id);
            let a = m.inserted(txn, table, data);
            let b = m.updated(txn, table, id, data);
            let c = m.deleted(txn, table, id);
            &&& a.writes_of(txn) == m.writes_of(txn).push(UndoEntry::Insert { table, row })
            &&& b.writes_of(txn) == m.writes_of(txn).push(UndoEntry::Update { table, row: id })
            &&& c.writes_of(txn) == m.writes_of(txn).push(UndoEntry::Delete { table, row: id })
            &&& a.running(txn) && b.running(txn) && c.running(txn)
            &&& other != txn ==> a.txns.contains_key(other.0) == m.txns.contains_key(other.0)
            &&& other != txn && m.txns.contains_key(other.0) ==> a.txns[other.0] == m.txns[other.0]
                && b.txns[other.0] == m.txns[other.0] && c.txns[other.0] == m.txns[other.0]
        }),
{
}

/// Whether a committed transaction below `horizon` took a version away, or its creator rolled back.
pub open spec fn out_of_reach(m: StorageModel, v: VersionModel, horizon: TxnId) -> bool {
    ||| v.xmax matches Some(x) && x.0 < horizon.0 && (m.txns.contains_key(x.0)
        ==> m.txns[x.0].status == TxnStatus::Committed)
    ||| m.txns.contains_key(v.xmin.0) && m.txns[v.xmin.0].status == TxnStatus::Aborted
}

/// After a vacuum no table holds a version that a committed transaction below the horizon took away, nor
/// one whose creator rolled back, and no row is left without a version; what it holds was there.
pub proof fn law_vacuum_takes_the_dead(
    m: StorageModel,
    horizon: TxnId,
    t: TableId,
    id: u64,
    v: VersionModel,
)
    requires
        m.wf(),
        m.has_table(t),
        m.vacuumed(horizon).table(t).rows.contains_key(id),
    ensures
        m.vacuumed(horizon).table(t).rows[id].len() > 0,
        m.table(t).rows.contains_key(id),
        m.vacuumed(horizon).table(t).rows[id].contains(v) ==> m.table(t).rows[id].contains(v)
            && !out_of_reach(m, v, horizon),
{
    let pred = |w: VersionModel| !w.dead(horizon, m.st());
    assert(m.tables.dom().contains(t.0 as u64));
    lemma_filter_elements(m.table(t).rows[id], pred);
}

/// A row of which every version is out of reach is gone after a vacuum.
pub proof fn law_vacuum_takes_the_deleted_rows(
    m: StorageModel,
    horizon: TxnId,
    t: TableId,
    id: u64,
)
    requires
        m.wf(),
        m.has_table(t),
        m.table(t).rows.contains_key(id),
        forall|i: int|
            0 <= i < m.table(t).rows[id].len() ==> out_of_reach(
                m,
                #[trigger] m.table(t).rows[id][i],
                horizon,
            ),
    ensures
        !m.vacuumed(horizon).table(t).rows.contains_key(id),
{
    let n = m.vacuumed(horizon);
    if n.table(t).rows.contains_key(id) {
        let v = n.table(t).rows[id][0];
        law_vacuum_takes_the_dead(m, horizon, t, id, v);
        assert(n.table(t).rows[id].contains(v));
        let i = choose|i: int| 0 <= i < m.table(t).rows[id].len() && m.table(t).rows[id][i] == v;
        assert(out_of_reach(m, m.table(t).rows[id][i], horizon));
    }
}

/// After a vacuum an index names versions that are out of reach no more: each of its entries was there
/// and names a version that is left.
pub proof fn law_vacuum_takes_the_entries_of_the_dead(
    m: StorageModel,
    horizon: TxnId,
    k: u64,
    i: int,
)
    requires
        m.wf(),
        m.indexes.contains_key(k),
        0 <= i < m.vacuumed(horizon).indexes[k].entries.len(),
    ensures
        ({
            let e = m.vacuumed(horizon).indexes[k].entries[i];
            &&& m.indexes[k].entries.contains(e)
            &&& version_at(m.table(m.indexes[k].table).rows, e.row, e.version) matches Some(v)
                && !out_of_reach(m, v, horizon)
        }),
{
    let ix = m.indexes[k];
    let t = m.table(ix.table);
    let after = m.vacuumed(horizon).indexes[k].entries;
    assert(m.tables.dom().contains(ix.table.0 as u64));
    assert(index_ok(ix, t, m.st()));
    let pred = |e: super::index::EntryModel| !super::vacuum::entry_dead(e, t.rows, horizon, m.st());
    lemma_filter_elements(ix.entries, pred);
    let e = after[i];
    assert(after.contains(e));
    let j = choose|j: int| 0 <= j < ix.entries.len() && ix.entries[j] == e;
    assert(version_at(t.rows, ix.entries[j].row, ix.entries[j].version) is Some);
}

/// A vacuum forgets the transactions below the horizon that are over, and no others; the rows a
/// snapshot may still ask about keep their registered writers.
pub proof fn law_vacuum_forgets_the_old_transactions(m: StorageModel, horizon: TxnId, x: TxnId)
    ensures
        ({
            let n = m.vacuumed(horizon);
            &&& n.txns.contains_key(x.0) <==> m.txns.contains_key(x.0) && (x.0 >= horizon.0
                || m.txns[x.0].status == TxnStatus::InProgress)
            &&& n.txns.contains_key(x.0) ==> n.txns[x.0] == m.txns[x.0]
            &&& n.databases == m.databases
            &&& n.next_table_id == m.next_table_id
            &&& n.next_index_id == m.next_index_id
            &&& n.next_db_id == m.next_db_id
        }),
{
}

/// The status of a transaction is the one the registry holds; one that it does not hold has none.
pub proof fn law_statuses_are_those_registered(m: StorageModel, x: TxnId)
    ensures
        m.st().contains_key(x.0) == m.txns.contains_key(x.0),
        m.txns.contains_key(x.0) ==> m.st()[x.0] == m.txns[x.0].status,
{
}

/// A table has room for a row as long as a row identifier and a serial are left.
pub proof fn law_table_has_room_to_the_end_of_its_numbers(m: StorageModel, table: TableId)
    requires
        m.has_table(table),
    ensures
        m.has_room(table) <==> m.table(table).next_row_id < u64::MAX && m.table(table).next_seq
            < usize::MAX,
{
}

} // verus!
