//! Undoing gives back what was there: a rollback every row and every index entry as they were before
//! the first write of the transaction, a rollback to a savepoint as they were when it was taken.

use vstd::prelude::*;

use super::index::{version_at, EntryModel, IndexModel};
use super::keeps::{lemma_deleted_wf, lemma_inserted_wf, lemma_saved_wf, lemma_updated_wf};
use super::laws::{
    law_undo_takes_a_delete_back, law_undo_takes_an_insert_back, law_undo_takes_an_update_back,
    lemma_undo_keeps_counters, same_data,
};
use super::model::{registered, StorageModel};
use super::read::first_seen;
use super::table::{set_last_xmax, update_undone, VersionModel};
use super::txn_log::UndoEntry;
use super::undo_laws::{
    law_rollback_never_fails, lemma_undo_alike, lemma_undo_one, on_row, tail_of, unmarked,
};
use crate::ids::{RowId, SavepointId, TableId, TxnId};
use crate::key_range::KeyRangeModel;
use crate::seqs::{lemma_filter_agree, lemma_filter_all};
use crate::snapshot::{status_of, Snapshot, TxnStatus};
use crate::value::ValueModel;

verus! {

/// One step of a transaction.
pub enum Step {
    /// It inserts a row.
    Insert { table: TableId, data: Seq<ValueModel> },
    /// It replaces a row.
    Update { table: TableId, row: RowId, data: Seq<ValueModel> },
    /// It deletes a row.
    Delete { table: TableId, row: RowId },
    /// It takes a savepoint.
    Savepoint,
}

impl StorageModel {
    /// Whether the storage takes a step of `txn`.
    pub open spec fn takes(self, txn: TxnId, step: Step) -> bool {
        &&& !self.finished(txn)
        &&& match step {
            Step::Insert { table, data } => {
                &&& self.has_table(table)
                &&& self.has_room(table)
                &&& data.len() == self.table(table).shape.columns.len()
                &&& self.accepted(txn, table, data, None)
            },
            Step::Update { table, row, data } => {
                &&& self.has_table(table)
                &&& self.has_room(table)
                &&& data.len() == self.table(table).shape.columns.len()
                &&& self.current(txn, table, row)
                &&& self.accepted(txn, table, data, Some(row))
            },
            Step::Delete { table, row } => {
                &&& self.has_table(table)
                &&& self.current(txn, table, row)
            },
            Step::Savepoint => {
                &&& self.next_savepoint_id < u64::MAX
                &&& self.writes_of(txn).len() <= usize::MAX
            },
        }
    }

    /// The storage after a step of `txn`.
    pub open spec fn stepped(self, txn: TxnId, step: Step) -> StorageModel {
        match step {
            Step::Insert { table, data } => self.inserted(txn, table, data),
            Step::Update { table, row, data } => self.updated(txn, table, row, data),
            Step::Delete { table, row } => self.deleted(txn, table, row),
            Step::Savepoint => self.saved(txn),
        }
    }

    /// The storage after some steps of `txn`, no other transaction writing meanwhile.
    pub open spec fn worked(self, txn: TxnId, steps: Seq<Step>) -> StorageModel
        decreases steps.len(),
    {
        if steps.len() == 0 {
            self
        } else {
            self.worked(txn, steps.drop_last()).stepped(txn, steps.last())
        }
    }

    /// Whether the storage takes each of the steps of `txn` in turn.
    pub open spec fn takes_all(self, txn: TxnId, steps: Seq<Step>) -> bool
        decreases steps.len(),
    {
        steps.len() > 0 ==> self.takes_all(txn, steps.drop_last()) && self.worked(
            txn,
            steps.drop_last(),
        ).takes(txn, steps.last())
    }
}

/// Undoing does the same to storages that hold the same data.
pub proof fn lemma_undo_same_data(a: StorageModel, b: StorageModel, txn: TxnId, ws: Seq<UndoEntry>)
    requires
        same_data(a, b),
    ensures
        a.stuck_on(txn, ws) == b.stuck_on(txn, ws),
        same_data(a.all_undone(txn, ws), b.all_undone(txn, ws)),
    decreases ws.len(),
{
    if ws.len() > 0 {
        let e = ws.last();
        let key = e.table().0 as u64;
        assert(a.tables.contains_key(key) == b.tables.contains_key(key)) by {
            assert(a.tables.dom().contains(key) == b.tables.dom().contains(key));
        }
        assert(a.undo_fails(txn, e) == b.undo_fails(txn, e));
        if !a.undo_fails(txn, e) {
            let x = a.undone(txn, e);
            let y = b.undone(txn, e);
            assert(x.tables.dom() =~= y.tables.dom());
            assert forall|t: u64| #[trigger] x.tables.contains_key(t) implies x.tables[t].rows
                == y.tables[t].rows by {
                assert(a.tables.contains_key(t));
            }
            assert(same_data(x, y));
            lemma_undo_same_data(x, y, txn, ws.drop_last());
        }
    }
}

/// Undoing keeps the tables there are.
pub proof fn lemma_undo_same_tables(n: StorageModel, txn: TxnId, ws: Seq<UndoEntry>)
    ensures
        n.all_undone(txn, ws).tables.dom() == n.tables.dom(),
    decreases ws.len(),
{
    if ws.len() > 0 && !n.undo_fails(txn, ws.last()) {
        let k = n.undone(txn, ws.last());
        assert(k.tables.dom() =~= n.tables.dom());
        lemma_undo_same_tables(k, txn, ws.drop_last());
    }
}

/// Undoing what one step logged gives the data back.
pub proof fn lemma_step_undone(m: StorageModel, txn: TxnId, step: Step, ws: Seq<UndoEntry>)
    requires
        m.wf(),
        m.takes(txn, step),
        ws.len() <= m.stepped(txn, step).writes_of(txn).len() - m.writes_of(txn).len(),
        ws == m.stepped(txn, step).writes_of(txn).skip(m.writes_of(txn).len() as int),
    ensures
        m.stepped(txn, step).wf(),
        m.stepped(txn, step).stuck_on(txn, ws) is None,
        same_data(m.stepped(txn, step).all_undone(txn, ws), m),
{
    let n = m.stepped(txn, step);
    let before = m.writes_of(txn);
    assert(registered(m.txns, txn)[txn.0].writes =~= before);
    match step {
        Step::Insert { table, data } => {
            let e = UndoEntry::Insert { table, row: RowId(m.table(table).next_row_id) };
            lemma_inserted_wf(m, txn, table, data);
            law_undo_takes_an_insert_back(m, txn, table, data);
            assert(n.writes_of(txn) =~= before.push(e));
            lemma_one_undone(n, txn, e, ws);
        },
        Step::Update { table, row, data } => {
            let e = UndoEntry::Update { table, row };
            lemma_updated_wf(m, txn, table, row, data);
            law_undo_takes_an_update_back(m, txn, table, row, data);
            assert(n.writes_of(txn) =~= before.push(e));
            lemma_one_undone(n, txn, e, ws);
        },
        Step::Delete { table, row } => {
            let e = UndoEntry::Delete { table, row };
            lemma_deleted_wf(m, txn, table, row);
            law_undo_takes_a_delete_back(m, txn, table, row);
            assert(n.writes_of(txn) =~= before.push(e));
            lemma_one_undone(n, txn, e, ws);
        },
        Step::Savepoint => {
            lemma_saved_wf(m, txn);
            assert(n.writes_of(txn) =~= before);
            assert(ws =~= Seq::<UndoEntry>::empty());
        },
    }
}

/// Undoing a list of one write is undoing that write.
proof fn lemma_one_undone(n: StorageModel, txn: TxnId, e: UndoEntry, ws: Seq<UndoEntry>)
    requires
        ws.len() == 1,
        ws[0] == e,
        !n.undo_fails(txn, e),
    ensures
        n.stuck_on(txn, ws) is None,
        n.all_undone(txn, ws) == n.undone(txn, e),
{
    let rest = ws.drop_last();
    assert(rest.len() == 0);
    assert(n.undone(txn, e).stuck_on(txn, rest) is None);
    assert(n.undone(txn, e).all_undone(txn, rest) == n.undone(txn, e));
}

/// Undoing writes is undoing the last ones, then the first ones.
pub proof fn lemma_undo_parts(n: StorageModel, txn: TxnId, a: Seq<UndoEntry>, b: Seq<UndoEntry>)
    requires
        n.stuck_on(txn, b) is None,
    ensures
        n.all_undone(txn, a + b) == n.all_undone(txn, b).all_undone(txn, a),
        n.stuck_on(txn, a + b) == n.all_undone(txn, b).stuck_on(txn, a),
    decreases b.len(),
{
    if b.len() == 0 {
        assert(a + b =~= a);
    } else {
        assert((a + b).drop_last() =~= a + b.drop_last());
        assert((a + b).last() == b.last());
        lemma_undo_parts(n.undone(txn, b.last()), txn, a, b.drop_last());
    }
}

/// Undoing what the steps of a transaction logged gives the data back.
proof fn lemma_steps_undone(m: StorageModel, txn: TxnId, steps: Seq<Step>)
    requires
        m.wf(),
        m.takes_all(txn, steps),
    ensures
        ({
            let n = m.worked(txn, steps);
            let before = m.writes_of(txn);
            let ws = n.writes_of(txn).skip(before.len() as int);
            &&& n.wf()
            &&& before.len() <= n.writes_of(txn).len()
            &&& n.writes_of(txn).take(before.len() as int) == before
            &&& n.stuck_on(txn, ws) is None
            &&& same_data(n.all_undone(txn, ws), m)
        }),
    decreases steps.len(),
{
    let n = m.worked(txn, steps);
    let before = m.writes_of(txn);
    let ws = n.writes_of(txn).skip(before.len() as int);
    if steps.len() == 0 {
        assert(ws =~= Seq::<UndoEntry>::empty());
        assert(before.take(before.len() as int) =~= before);
    } else {
        let k = m.worked(txn, steps.drop_last());
        lemma_steps_undone(m, txn, steps.drop_last());
        let mid = k.writes_of(txn);
        let first = mid.skip(before.len() as int);
        lemma_writes_grow(k, txn, steps.last());
        let last = n.writes_of(txn).skip(mid.len() as int);
        lemma_step_undone(k, txn, steps.last(), last);
        assert(ws =~= first + last) by {
            assert(n.writes_of(txn).take(mid.len() as int) == mid);
            assert forall|i: int| 0 <= i < ws.len() implies ws[i] == (first + last)[i] by {
                if i < first.len() {
                    assert(mid[before.len() + i] == n.writes_of(txn).take(mid.len() as int)[before.len()
                        + i]);
                }
            }
        }
        assert(n.writes_of(txn).take(before.len() as int) =~= before) by {
            assert(mid.take(before.len() as int) == before);
            assert forall|i: int| 0 <= i < before.len() implies n.writes_of(txn)[i] == before[i] by {
                assert(mid[i] == n.writes_of(txn).take(mid.len() as int)[i]);
                assert(before[i] == mid.take(before.len() as int)[i]);
            }
        }
        lemma_undo_parts(n, txn, first, last);
        lemma_undo_same_data(n.all_undone(txn, last), k, txn, first);
    }
}

/// A step adds to what its transaction logged.
pub proof fn lemma_writes_grow(m: StorageModel, txn: TxnId, step: Step)
    ensures
        ({
            let a = m.writes_of(txn);
            let b = m.stepped(txn, step).writes_of(txn);
            &&& a.len() <= b.len()
            &&& b.take(a.len() as int) == a
        }),
{
    let a = m.writes_of(txn);
    let b = m.stepped(txn, step).writes_of(txn);
    assert(registered(m.txns, txn)[txn.0].writes =~= a);
    assert(b.take(a.len() as int) =~= a);
}

/// What the steps of a transaction leave of the registry: the other transactions as they were, its
/// own savepoints kept.
proof fn lemma_steps_registry(m: StorageModel, txn: TxnId, steps: Seq<Step>)
    requires
        m.takes_all(txn, steps),
    ensures
        ({
            let n = m.worked(txn, steps);
            &&& forall|x: u64| #![trigger n.txns.contains_key(x)]
                x != txn.0 ==> (n.txns.contains_key(x) <==> m.txns.contains_key(x)) && (
                m.txns.contains_key(x) ==> n.txns[x] == m.txns[x])
            &&& !m.finished(txn) ==> !n.finished(txn)
            &&& m.txns.contains_key(txn.0) ==> {
                let a = m.txns[txn.0].savepoints;
                let b = n.txns[txn.0].savepoints;
                &&& n.txns.contains_key(txn.0)
                &&& n.txns[txn.0].status == m.txns[txn.0].status
                &&& a.len() <= b.len()
                &&& b.take(a.len() as int) == a
            }
        }),
    decreases steps.len(),
{
    let n = m.worked(txn, steps);
    if steps.len() > 0 {
        let k = m.worked(txn, steps.drop_last());
        lemma_steps_registry(m, txn, steps.drop_last());
        assert forall|x: u64| #![trigger n.txns.contains_key(x)] x != txn.0 implies (
        n.txns.contains_key(x) <==> m.txns.contains_key(x)) && (m.txns.contains_key(x)
            ==> n.txns[x] == m.txns[x]) by {
            assert(k.txns.contains_key(x) <==> m.txns.contains_key(x));
        }
        if m.txns.contains_key(txn.0) {
            let a = m.txns[txn.0].savepoints;
            let c = k.txns[txn.0].savepoints;
            let b = n.txns[txn.0].savepoints;
            assert(b.take(a.len() as int) =~= a) by {
                assert forall|i: int| 0 <= i < a.len() implies b[i] == a[i] by {
                    assert(c.take(a.len() as int)[i] == a[i]);
                    assert(b[i] == c[i]);
                }
            }
        }
    } else if m.txns.contains_key(txn.0) {
        let a = m.txns[txn.0].savepoints;
        assert(a.take(a.len() as int) =~= a);
    }
}

/// Two storages with the same data whose statuses agree on every transaction a version names are
/// read alike.
proof fn lemma_read_alike(a: StorageModel, b: StorageModel, txn: TxnId)
    requires
        same_data(a, b),
        b.nowhere(txn) || status_of(a.st(), txn) == status_of(b.st(), txn),
        forall|x: TxnId| x != txn ==> #[trigger] status_of(a.st(), x) == status_of(b.st(), x),
    ensures
        forall|snap: Snapshot, t: TableId, id: RowId| #![trigger a.seen(snap, t, id)]
            b.has_table(t) ==> a.seen(snap, t, id) == b.seen(snap, t, id),
        forall|snap: Snapshot, k: u64, range: KeyRangeModel|
            #![trigger a.sought(snap, a.indexes[k], range, a.indexes[k].entries)]
            b.indexes.contains_key(k) && b.has_table(b.indexes[k].table) ==> a.sought(
                snap,
                a.indexes[k],
                range,
                a.indexes[k].entries,
            ) == b.sought(snap, b.indexes[k], range, b.indexes[k].entries),
{
    assert forall|snap: Snapshot, t: TableId, id: RowId| #![trigger a.seen(snap, t, id)]
        b.has_table(t) implies a.seen(snap, t, id) == b.seen(snap, t, id) by {
        lemma_same_rows_of(a, b, t);
        let rows = b.table(t).rows;
        if rows.contains_key(id.0) {
            assert(unmarked(b.chain_of(t.0 as u64, id.0), txn) || status_of(a.st(), txn)
                == status_of(b.st(), txn));
            lemma_chain_alike(rows[id.0], snap, a.st(), b.st(), txn);
        }
    }
    assert forall|snap: Snapshot, k: u64, range: KeyRangeModel|
        #![trigger a.sought(snap, a.indexes[k], range, a.indexes[k].entries)]
        b.indexes.contains_key(k) && b.has_table(b.indexes[k].table) implies a.sought(
        snap,
        a.indexes[k],
        range,
        a.indexes[k].entries,
    ) == b.sought(snap, b.indexes[k], range, b.indexes[k].entries) by {
        lemma_sought_alike(a, b, txn, snap, b.indexes[k], range);
    }
}

/// Storages with the same data have the same rows in each table.
proof fn lemma_same_rows_of(a: StorageModel, b: StorageModel, t: TableId)
    requires
        same_data(a, b),
        b.has_table(t),
    ensures
        a.has_table(t),
        a.table(t).rows == b.table(t).rows,
{
    assert(a.tables.dom().contains(t.0 as u64));
    assert(a.tables.contains_key(t.0 as u64));
}

/// A chain is seen alike under statuses that agree on the transactions it names.
proof fn lemma_chain_alike(
    chain: Seq<VersionModel>,
    snap: Snapshot,
    sta: Map<u64, TxnStatus>,
    stb: Map<u64, TxnStatus>,
    txn: TxnId,
)
    requires
        unmarked(Some(chain), txn) || status_of(sta, txn) == status_of(stb, txn),
        forall|x: TxnId| x != txn ==> #[trigger] status_of(sta, x) == status_of(stb, x),
    ensures
        first_seen(chain, snap, sta) == first_seen(chain, snap, stb),
        forall|i: int|
            0 <= i < chain.len() ==> snap.visible((#[trigger] chain[i]).xmin, chain[i].xmax, sta)
                == snap.visible(chain[i].xmin, chain[i].xmax, stb),
    decreases chain.len(),
{
    if chain.len() > 0 {
        let rest = chain.drop_first();
        assert forall|i: int| 0 <= i < rest.len() implies #[trigger] rest[i] == chain[i + 1] by {}
        lemma_chain_alike(rest, snap, sta, stb, txn);
        assert(chain[0].xmin == chain[0].xmin);
        assert forall|i: int| 0 <= i < chain.len() implies snap.visible(
            (#[trigger] chain[i]).xmin,
            chain[i].xmax,
            sta,
        ) == snap.visible(chain[i].xmin, chain[i].xmax, stb) by {}
    }
}

/// An index serves the same rows of two storages with the same data.
proof fn lemma_sought_alike(
    a: StorageModel,
    b: StorageModel,
    txn: TxnId,
    snap: Snapshot,
    ix: IndexModel,
    range: KeyRangeModel,
)
    requires
        same_data(a, b),
        b.has_table(ix.table),
        b.nowhere(txn) || status_of(a.st(), txn) == status_of(b.st(), txn),
        forall|x: TxnId| x != txn ==> #[trigger] status_of(a.st(), x) == status_of(b.st(), x),
    ensures
        a.sought(snap, ix, range, ix.entries) == b.sought(snap, ix, range, ix.entries),
{
    lemma_same_rows_of(a, b, ix.table);
    let rows = b.table(ix.table).rows;
    let p = |e: EntryModel|
        super::index::in_range(ix.order, e.key, range) && a.entry_seen(snap, ix, e);
    let q = |e: EntryModel|
        super::index::in_range(ix.order, e.key, range) && b.entry_seen(snap, ix, e);
    assert forall|i: int| 0 <= i < ix.entries.len() implies p(#[trigger] ix.entries[i]) == q(
        ix.entries[i],
    ) by {
        let e = ix.entries[i];
        if version_at(rows, e.row, e.version) is Some {
            let c = rows[e.row.0];
            assert(unmarked(b.chain_of(ix.table.0 as u64, e.row.0), txn) || status_of(a.st(), txn)
                == status_of(b.st(), txn));
            super::keeps::lemma_chain_found(c, e.version);
            let v = version_at(rows, e.row, e.version)->0;
            let at = choose|at: int| 0 <= at < c.len() && c[at] == v;
            lemma_chain_alike(c, snap, a.st(), b.st(), txn);
            assert(snap.visible(c[at].xmin, c[at].xmax, a.st()) == snap.visible(
                c[at].xmin,
                c[at].xmax,
                b.st(),
            ));
        }
    }
    lemma_filter_agree(ix.entries, p, q);
    let to_a = |e: EntryModel| (e.row, version_at(a.table(ix.table).rows, e.row, e.version)->0.data);
    let to_b = |e: EntryModel| (e.row, version_at(b.table(ix.table).rows, e.row, e.version)->0.data);
    assert(ix.entries.filter(p).map_values(to_a) =~= ix.entries.filter(q).map_values(to_b));
}

/// A rollback gives back every row and every index entry as they were before the first write of the
/// transaction, whatever it did since: every read answers what it answered then. The transaction is
/// over, and the row identifiers it took are not handed out again.
pub proof fn law_rollback_gives_everything_back(m: StorageModel, txn: TxnId, steps: Seq<Step>)
    requires
        m.wf(),
        !m.finished(txn),
        m.nowhere(txn),
        m.writes_of(txn).len() == 0,
        m.takes_all(txn, steps),
    ensures
        ({
            let n = m.worked(txn, steps);
            let aborted = n.ended(txn, TxnStatus::Aborted);
            let out = aborted.all_undone(txn, n.writes_of(txn));
            &&& !n.finished(txn)
            &&& aborted.stuck_on(txn, n.writes_of(txn)) is None
            &&& same_data(out, m)
            &&& out.finished(txn)
            &&& forall|t: TableId| #[trigger]
                m.has_table(t) ==> out.table(t).next_row_id == n.table(t).next_row_id
            &&& forall|snap: Snapshot, t: TableId, id: RowId| #![trigger out.seen(snap, t, id)]
                m.has_table(t) ==> out.seen(snap, t, id) == m.seen(snap, t, id)
            &&& forall|snap: Snapshot, k: u64, range: KeyRangeModel|
                #![trigger out.sought(snap, out.indexes[k], range, out.indexes[k].entries)]
                m.indexes.contains_key(k) && m.has_table(m.indexes[k].table) ==> out.sought(
                    snap,
                    out.indexes[k],
                    range,
                    out.indexes[k].entries,
                ) == m.sought(snap, m.indexes[k], range, m.indexes[k].entries)
        }),
{
    let n = m.worked(txn, steps);
    let ws = n.writes_of(txn);
    let aborted = n.ended(txn, TxnStatus::Aborted);
    let out = aborted.all_undone(txn, ws);
    lemma_steps_undone(m, txn, steps);
    lemma_steps_registry(m, txn, steps);
    assert(ws.skip(0) =~= ws);
    lemma_undo_alike(n, aborted, txn, ws);
    assert(out.txns == aborted.txns);
    assert forall|x: TxnId| x != txn implies #[trigger] status_of(out.st(), x) == status_of(
        m.st(),
        x,
    ) by {
        assert(n.txns.contains_key(x.0) <==> m.txns.contains_key(x.0));
    }
    assert(same_data(out, m));
    lemma_read_alike(out, m, txn);
    assert forall|t: TableId| #[trigger] m.has_table(t) implies out.table(t).next_row_id == n.table(
        t,
    ).next_row_id by {
        lemma_same_rows_of(out, m, t);
        lemma_undo_same_tables(n, txn, ws);
        assert(n.tables.dom().contains(t.0 as u64));
        lemma_undo_keeps_counters(aborted, txn, ws, t);
    }
}

/// A rollback to a savepoint gives back every row and every index entry as they were when it was
/// taken, whatever the transaction did since: every read, its own too, answers what it answered then.
/// The savepoint stays, the later ones are gone, and the log is what it was.
pub proof fn law_rollback_to_gives_the_savepoint_back(
    m: StorageModel,
    txn: TxnId,
    steps: Seq<Step>,
)
    requires
        m.wf(),
        !m.finished(txn),
        m.next_savepoint_id < u64::MAX,
        m.writes_of(txn).len() <= usize::MAX,
        m.saved(txn).takes_all(txn, steps),
    ensures
        ({
            let s = m.saved(txn);
            let n = s.worked(txn, steps);
            let i = s.txns[txn.0].savepoints.len() - 1;
            let cut = n.cut_at(txn, i);
            let out = cut.all_undone(txn, n.writes_after(txn, i));
            &&& n.savepoint_at(txn, SavepointId(m.next_savepoint_id), i)
            &&& !n.finished(txn)
            &&& cut.stuck_on(txn, n.writes_after(txn, i)) is None
            &&& same_data(out, s)
            &&& out.txns == s.txns
            &&& forall|snap: Snapshot, t: TableId, id: RowId| #![trigger out.seen(snap, t, id)]
                s.has_table(t) ==> out.seen(snap, t, id) == s.seen(snap, t, id)
            &&& forall|snap: Snapshot, k: u64, range: KeyRangeModel|
                #![trigger out.sought(snap, out.indexes[k], range, out.indexes[k].entries)]
                s.indexes.contains_key(k) && s.has_table(s.indexes[k].table) ==> out.sought(
                    snap,
                    out.indexes[k],
                    range,
                    out.indexes[k].entries,
                ) == s.sought(snap, s.indexes[k], range, s.indexes[k].entries)
        }),
{
    let s = m.saved(txn);
    let n = s.worked(txn, steps);
    let i = s.txns[txn.0].savepoints.len() - 1;
    lemma_saved_wf(m, txn);
    lemma_steps_undone(s, txn, steps);
    lemma_steps_registry(s, txn, steps);
    let a = s.txns[txn.0].savepoints;
    let b = n.txns[txn.0].savepoints;
    assert(b.take(a.len() as int)[i] == a[i]);
    assert(registered(m.txns, txn)[txn.0].writes =~= m.writes_of(txn));
    assert(a[i].1 as int == s.writes_of(txn).len());
    let ws = n.writes_after(txn, i);
    assert(ws == n.writes_of(txn).skip(s.writes_of(txn).len() as int));
    let cut = n.cut_at(txn, i);
    let out = cut.all_undone(txn, ws);
    lemma_undo_alike(n, cut, txn, ws);
    assert(out.txns == cut.txns);
    assert(out.txns =~= s.txns) by {
        assert(cut.txns[txn.0].savepoints == a);
        assert(cut.txns[txn.0].writes == s.writes_of(txn));
        assert forall|x: u64| #![auto] cut.txns.contains_key(x) == s.txns.contains_key(x) && (
        s.txns.contains_key(x) ==> cut.txns[x] == s.txns[x]) by {
            if x != txn.0 {
                assert(n.txns.contains_key(x) <==> s.txns.contains_key(x));
            }
        }
    }
    assert(same_data(out, s));
    lemma_read_alike(out, s, txn);
}

/// A chain without the versions `txn` created and the marks it left.
pub open spec fn stripped(chain: Option<Seq<VersionModel>>, txn: TxnId) -> Option<
    Seq<VersionModel>,
> {
    match chain {
        None => None,
        Some(c) => {
            let kept = c.filter(|v: VersionModel| v.xmin != txn).map_values(
                |v: VersionModel|
                    if v.xmax == Some(txn) {
                        v.with_xmax(None)
                    } else {
                        v
                    },
            );
            if kept.len() == 0 {
                None
            } else {
                Some(kept)
            }
        },
    }
}

/// What is stripped of a chain whose last version carries the mark of `txn` does not depend on the
/// mark.
proof fn lemma_mark_stripped(c: Seq<VersionModel>, txn: TxnId)
    requires
        c.len() > 0,
        c.last().xmax == Some(txn),
    ensures
        stripped(Some(set_last_xmax(c, None)), txn) == stripped(Some(c), txn),
{
    let by_other = |v: VersionModel| v.xmin != txn;
    let clear = |v: VersionModel|
        if v.xmax == Some(txn) {
            v.with_xmax(None)
        } else {
            v
        };
    let u = set_last_xmax(c, None);
    assert(u.drop_last() =~= c.drop_last());
    assert(u.last() == c.last().with_xmax(None));
    reveal(Seq::filter);
    assert(u.filter(by_other).map_values(clear) =~= c.filter(by_other).map_values(clear));
}

/// A last version `txn` created is stripped.
proof fn lemma_version_stripped(c: Seq<VersionModel>, txn: TxnId)
    requires
        c.len() > 0,
        c.last().xmin == txn,
    ensures
        stripped(Some(c), txn) == stripped(Some(c.drop_last()), txn),
{
    reveal(Seq::filter);
}

/// Nothing is stripped of a chain that does not name `txn`.
proof fn lemma_nothing_stripped(c: Seq<VersionModel>, txn: TxnId)
    requires
        c.len() > 0,
        unmarked(Some(c), txn),
    ensures
        stripped(Some(c), txn) == Some(c),
{
    let by_other = |v: VersionModel| v.xmin != txn;
    lemma_filter_all(c, by_other);
    let clear = |v: VersionModel|
        if v.xmax == Some(txn) {
            v.with_xmax(None)
        } else {
            v
        };
    assert(c.map_values(clear) =~= c);
}

/// Undoing a write of `txn` leaves what is stripped of every chain.
proof fn lemma_undo_keeps_stripped(m: StorageModel, txn: TxnId, w: Seq<UndoEntry>)
    requires
        m.undoable_with(txn, w),
        w.len() > 0,
    ensures
        ({
            let n = m.undone(txn, w.last());
            &&& n.tables.dom() == m.tables.dom()
            &&& forall|t: u64, r: u64|
                #![trigger n.chain_of(t, r)]
                m.tables.contains_key(t) ==> stripped(n.chain_of(t, r), txn) == stripped(
                    m.chain_of(t, r),
                    txn,
                ) && ((m.chain_of(t, r) matches Some(c) ==> c.len() > 0) ==> (n.chain_of(
                    t,
                    r,
                ) matches Some(d) ==> d.len() > 0))
        }),
{
    let e = w.last();
    let n = m.undone(txn, e);
    let table = e.table().0 as u64;
    let row = e.row().0;
    assert(n.tables.dom() =~= m.tables.dom());
    if m.tables.contains_key(table) {
        let ks = on_row(w, table, row);
        assert(e.on(table, row));
        assert(ks.last() == e);
        assert(tail_of(
            m.chain_of(table, row),
            txn,
            m.st(),
            on_row(m.writes_with(txn, w, txn), table, row),
        ));
        let c = m.tables[table].rows[row];
        match e {
            UndoEntry::Insert { .. } => {
                lemma_version_stripped(c, txn);
                reveal(Seq::filter);
                assert(stripped(Some(c.drop_last()), txn) is None);
            },
            UndoEntry::Update { .. } => {
                lemma_version_stripped(c, txn);
                lemma_mark_stripped(c.drop_last(), txn);
                assert(update_undone(c) =~= set_last_xmax(c.drop_last(), None));
            },
            UndoEntry::Delete { .. } => {
                lemma_mark_stripped(c, txn);
            },
        }
        assert forall|t: u64, r: u64|
            #![trigger n.chain_of(t, r)]
            m.tables.contains_key(t) implies stripped(n.chain_of(t, r), txn) == stripped(
            m.chain_of(t, r),
            txn,
        ) && ((m.chain_of(t, r) matches Some(c) ==> c.len() > 0) ==> (n.chain_of(t, r) matches Some(
            d,
        ) ==> d.len() > 0)) by {
            if !(t == table && r == row) {
                assert(n.chain_of(t, r) == m.chain_of(t, r));
            }
        }
    }
}

/// Undoing every write of `txn` leaves what is stripped of every chain.
proof fn lemma_all_undone_stripped(m: StorageModel, txn: TxnId, w: Seq<UndoEntry>)
    requires
        m.undoable_with(txn, w),
    ensures
        ({
            let n = m.all_undone(txn, w);
            &&& n.tables.dom() == m.tables.dom()
            &&& forall|t: u64, r: u64|
                #![trigger n.chain_of(t, r)]
                m.tables.contains_key(t) ==> stripped(n.chain_of(t, r), txn) == stripped(
                    m.chain_of(t, r),
                    txn,
                ) && ((m.chain_of(t, r) matches Some(c) ==> c.len() > 0) ==> (n.chain_of(
                    t,
                    r,
                ) matches Some(d) ==> d.len() > 0))
        }),
    decreases w.len(),
{
    if w.len() > 0 {
        lemma_undo_one(m, txn, w);
        lemma_undo_keeps_stripped(m, txn, w);
        let k = m.undone(txn, w.last());
        lemma_all_undone_stripped(k, txn, w.drop_last());
        let n = m.all_undone(txn, w);
        assert(n == k.all_undone(txn, w.drop_last()));
        assert forall|t: u64, r: u64|
            #![trigger n.chain_of(t, r)]
            m.tables.contains_key(t) implies stripped(n.chain_of(t, r), txn) == stripped(
            m.chain_of(t, r),
            txn,
        ) && ((m.chain_of(t, r) matches Some(c) ==> c.len() > 0) ==> (n.chain_of(t, r) matches Some(
            d,
        ) ==> d.len() > 0)) by {
            assert(k.tables.dom().contains(t));
            assert(k.tables.contains_key(t));
            assert(stripped(k.chain_of(t, r), txn) == stripped(m.chain_of(t, r), txn));
        }
    }
}

/// Whatever other transactions wrote meanwhile, a rollback leaves each chain without the versions the
/// transaction created and without the marks it left, the other versions as they were; a row of which
/// nothing stays is gone.
pub proof fn law_rollback_strips_every_chain(m: StorageModel, txn: TxnId)
    requires
        m.wf(),
        m.undoable(),
        !m.finished(txn),
        m.known_or_new(txn),
    ensures
        ({
            let out = m.ended(txn, TxnStatus::Aborted).all_undone(txn, m.writes_of(txn));
            &&& out.tables.dom() == m.tables.dom()
            &&& forall|t: u64, r: u64|
                #![trigger out.chain_of(t, r)]
                m.tables.contains_key(t) ==> out.chain_of(t, r) == stripped(m.chain_of(t, r), txn)
        }),
{
    let ws = m.writes_of(txn);
    let a = m.ended(txn, TxnStatus::Aborted);
    let k = m.all_undone(txn, ws);
    let out = a.all_undone(txn, ws);
    assert(m.undoable_with(txn, ws));
    lemma_all_undone_stripped(m, txn, ws);
    lemma_undo_alike(m, a, txn, ws);
    law_rollback_never_fails(m, txn);
    assert(out.tables == k.tables);
    assert forall|t: u64, r: u64| #![trigger out.chain_of(t, r)] m.tables.contains_key(t) implies
        out.chain_of(t, r) == stripped(m.chain_of(t, r), txn) by {
        assert(out.tables.dom().contains(t));
        assert(out.tables.contains_key(t));
        assert(out.chain_of(t, r) == k.chain_of(t, r));
        assert(unmarked(out.chain_of(t, r), txn));
        assert(m.chain_of(t, r) matches Some(c) ==> c.len() > 0) by {
            if m.tables[t].rows.contains_key(r) {
                assert(super::model::table_ok(m.tables[t]));
            }
        }
        assert(stripped(k.chain_of(t, r), txn) == stripped(m.chain_of(t, r), txn));
        if k.chain_of(t, r) is Some {
            lemma_nothing_stripped(k.chain_of(t, r)->0, txn);
        }
    }
}

} // verus!
