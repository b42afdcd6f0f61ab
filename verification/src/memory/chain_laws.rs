//! The versions of a row form a chain: each but the last was replaced by the creator of the next. So
//! a snapshot sees at most one of them.

use vstd::prelude::*;

use super::laws::{
    hidden_by_next, law_at_most_one_version_is_seen, lemma_first_is_seen, lemma_none_is_seen,
};
use super::model::StorageModel;
use super::table::{set_last_xmax, superseded, survivors, vacuumed, VersionModel};
use super::txn_log::UndoEntry;
use super::undo_laws::lemma_survivors_push;
use crate::ids::{RowId, TableId, TxnId};
use crate::snapshot::{status_of, Snapshot, TxnStatus};
use crate::value::ValueModel;

verus! {

/// Whether each version but the last was replaced by the creator of the next.
pub open spec fn linked(chain: Seq<VersionModel>) -> bool {
    forall|k: int| 0 <= k < chain.len() - 1 ==> #[trigger] hidden_by_next(chain, k)
}

impl StorageModel {
    /// Whether the versions of every row form a chain.
    pub open spec fn chained(self) -> bool {
        forall|t: u64, r: u64|
            self.tables.contains_key(t) && #[trigger] self.tables[t].rows.contains_key(r) ==> linked(
                self.tables[t].rows[r],
            )
    }
}

/// Another mark on the last version leaves a chain linked.
proof fn lemma_marked_linked(chain: Seq<VersionModel>, xmax: Option<TxnId>)
    requires
        linked(chain),
        chain.len() > 0,
    ensures
        linked(set_last_xmax(chain, xmax)),
{
    let c = set_last_xmax(chain, xmax);
    assert forall|k: int| 0 <= k < c.len() - 1 implies #[trigger] hidden_by_next(c, k) by {
        assert(hidden_by_next(chain, k));
    }
}

/// An insert leaves the versions of every row chained.
pub proof fn law_insert_keeps_chains(
    m: StorageModel,
    txn: TxnId,
    table: TableId,
    data: Seq<ValueModel>,
)
    requires
        m.chained(),
        m.has_table(table),
    ensures
        m.inserted(txn, table, data).chained(),
{
    let n = m.inserted(txn, table, data);
    assert forall|t: u64, r: u64|
        n.tables.contains_key(t) && #[trigger] n.tables[t].rows.contains_key(r) implies linked(
        n.tables[t].rows[r],
    ) by {
        if !(t == table.0 as u64 && r == m.table(table).next_row_id) {
            assert(m.tables.contains_key(t));
            assert(m.tables[t].rows.contains_key(r));
        }
    }
}

/// An update leaves the versions of every row chained.
pub proof fn law_update_keeps_chains(
    m: StorageModel,
    txn: TxnId,
    table: TableId,
    id: RowId,
    data: Seq<ValueModel>,
)
    requires
        m.chained(),
        m.has_table(table),
        m.current(txn, table, id),
    ensures
        m.updated(txn, table, id, data).chained(),
{
    let n = m.updated(txn, table, id, data);
    assert forall|t: u64, r: u64|
        n.tables.contains_key(t) && #[trigger] n.tables[t].rows.contains_key(r) implies linked(
        n.tables[t].rows[r],
    ) by {
        assert(m.tables.contains_key(t));
        if t == table.0 as u64 && r == id.0 {
            let a = m.tables[t].rows[r];
            let c = n.tables[t].rows[r];
            assert(m.tables[t].rows.contains_key(r));
            let marked = set_last_xmax(a, Some(txn));
            lemma_marked_linked(a, Some(txn));
            assert(c == superseded(a, txn, Some(data), m.tables[t].next_seq));
            assert forall|k: int| 0 <= k < c.len() - 1 implies #[trigger] hidden_by_next(c, k) by {
                if k < marked.len() - 1 {
                    assert(hidden_by_next(marked, k));
                    assert(c[k] == marked[k] && c[k + 1] == marked[k + 1]);
                } else {
                    assert(c[k] == marked.last());
                }
            }
        } else {
            assert(m.tables[t].rows.contains_key(r));
        }
    }
}

/// A delete leaves the versions of every row chained.
pub proof fn law_delete_keeps_chains(m: StorageModel, txn: TxnId, table: TableId, id: RowId)
    requires
        m.chained(),
        m.has_table(table),
        m.current(txn, table, id),
    ensures
        m.deleted(txn, table, id).chained(),
{
    let n = m.deleted(txn, table, id);
    assert forall|t: u64, r: u64|
        n.tables.contains_key(t) && #[trigger] n.tables[t].rows.contains_key(r) implies linked(
        n.tables[t].rows[r],
    ) by {
        assert(m.tables.contains_key(t));
        assert(m.tables[t].rows.contains_key(r));
        if t == table.0 as u64 && r == id.0 {
            lemma_marked_linked(m.tables[t].rows[r], Some(txn));
        }
    }
}

/// An undo leaves the versions of every row chained.
pub proof fn law_undo_keeps_chains(m: StorageModel, txn: TxnId, entry: UndoEntry)
    requires
        m.chained(),
        !m.undo_fails(txn, entry),
    ensures
        m.undone(txn, entry).chained(),
{
    let n = m.undone(txn, entry);
    let table = entry.table().0 as u64;
    let row = entry.row().0;
    assert forall|t: u64, r: u64|
        n.tables.contains_key(t) && #[trigger] n.tables[t].rows.contains_key(r) implies linked(
        n.tables[t].rows[r],
    ) by {
        assert(m.tables.contains_key(t));
        assert(m.tables[t].rows.contains_key(r));
        if m.tables.contains_key(table) && t == table && r == row {
            let a = m.tables[t].rows[r];
            match entry {
                UndoEntry::Insert { .. } => {},
                UndoEntry::Update { .. } => {
                    let b = a.drop_last();
                    assert(linked(b)) by {
                        assert forall|k: int| 0 <= k < b.len() - 1 implies #[trigger] hidden_by_next(
                            b,
                            k,
                        ) by {
                            assert(hidden_by_next(a, k));
                        }
                    }
                    lemma_marked_linked(b, None);
                },
                UndoEntry::Delete { .. } => {
                    lemma_marked_linked(a, None);
                },
            }
        }
    }
}

/// Whether the writers of a chain come in the order of their identifiers, and each wrote over its
/// own version or over one of a committed transaction.
pub open spec fn written_in_order(chain: Seq<VersionModel>, st: Map<u64, TxnStatus>) -> bool {
    &&& forall|k: int|
        0 <= k < chain.len() ==> status_of(st, (#[trigger] chain[k]).xmin) != TxnStatus::Aborted
    &&& forall|k: int|
        0 <= k < chain.len() && (#[trigger] chain[k]).xmax is Some ==> chain[k].xmin.0 <= (
        chain[k].xmax->0).0 && (chain[k].xmin == chain[k].xmax->0 || status_of(st, chain[k].xmin)
            == TxnStatus::Committed)
}

/// What a vacuum keeps of a chain written in order is its end.
proof fn lemma_survivors_are_the_end(
    chain: Seq<VersionModel>,
    horizon: TxnId,
    st: Map<u64, TxnStatus>,
) -> (p: int)
    requires
        linked(chain),
        written_in_order(chain, st),
    ensures
        0 <= p <= chain.len(),
        survivors(chain, horizon, st) == chain.skip(p),
        forall|k: int| 0 <= k < p ==> (#[trigger] chain[k]).dead(horizon, st),
        p < chain.len() ==> !chain[p].dead(horizon, st),
    decreases chain.len(),
{
    if chain.len() == 0 {
        reveal(Seq::filter);
        assert(survivors(chain, horizon, st) =~= chain.skip(0));
        0
    } else {
        let less = chain.drop_last();
        let v = chain.last();
        assert(chain =~= less.push(v));
        assert(linked(less)) by {
            assert forall|k: int| 0 <= k < less.len() - 1 implies #[trigger] hidden_by_next(less, k) by {
                assert(hidden_by_next(chain, k));
            }
        }
        assert(written_in_order(less, st)) by {
            assert forall|k: int| 0 <= k < less.len() implies #[trigger] less[k] == chain[k] by {}
        }
        let q = lemma_survivors_are_the_end(less, horizon, st);
        lemma_survivors_push(less, v, horizon, st);
        assert forall|k: int| 0 <= k < less.len() implies #[trigger] less[k] == chain[k] by {}
        if v.dead(horizon, st) {
            // What comes before was replaced by a committed transaction below the horizon too.
            if q < less.len() {
                let n = less.len() - 1;
                lemma_dead_before(chain, horizon, st, n, q);
            }
            assert(less.skip(q) =~= Seq::empty());
            assert(chain.skip(chain.len() as int) =~= Seq::empty());
            chain.len() as int
        } else {
            assert(chain.skip(q) =~= less.skip(q).push(v));
            if q == less.len() {
                assert(chain[q] == v);
            }
            q
        }
    }
}

/// Everything before a dead version of a chain written in order is dead.
proof fn lemma_dead_before(
    chain: Seq<VersionModel>,
    horizon: TxnId,
    st: Map<u64, TxnStatus>,
    n: int,
    k: int,
)
    requires
        linked(chain),
        written_in_order(chain, st),
        0 <= k <= n < chain.len() - 1,
        chain[n + 1].dead(horizon, st),
    ensures
        chain[k].dead(horizon, st),
    decreases n - k,
{
    let a = chain[n];
    let b = chain[n + 1];
    assert(hidden_by_next(chain, n));
    assert(status_of(st, b.xmin) != TxnStatus::Aborted);
    let y = b.xmax->0;
    assert(b.xmin.0 <= y.0);
    assert(a.xmax == Some(b.xmin));
    assert(a.dead(horizon, st));
    if k < n {
        lemma_dead_before(chain, horizon, st, n - 1, k);
    }
}

/// A vacuum leaves the versions of every row chained, where the rows were written in the order of
/// the transactions.
pub proof fn law_vacuum_keeps_chains(m: StorageModel, horizon: TxnId)
    requires
        m.chained(),
        forall|t: u64, r: u64|
            m.tables.contains_key(t) && #[trigger] m.tables[t].rows.contains_key(r)
                ==> written_in_order(m.tables[t].rows[r], m.st()),
    ensures
        m.vacuumed(horizon).chained(),
{
    let n = m.vacuumed(horizon);
    assert forall|t: u64, r: u64|
        n.tables.contains_key(t) && #[trigger] n.tables[t].rows.contains_key(r) implies linked(
        n.tables[t].rows[r],
    ) by {
        assert(m.tables.contains_key(t));
        assert(n.tables[t].rows == vacuumed(m.tables[t].rows, horizon, m.st()));
        assert(m.tables[t].rows.contains_key(r));
        let c = m.tables[t].rows[r];
        let p = lemma_survivors_are_the_end(c, horizon, m.st());
        let s = n.tables[t].rows[r];
        assert(s == c.skip(p));
        assert forall|k: int| 0 <= k < s.len() - 1 implies #[trigger] hidden_by_next(s, k) by {
            assert(hidden_by_next(c, k + p));
        }
    }
}

/// A snapshot sees at most one version of a row, if it settles the creator of a version whenever it
/// settles that of a later one.
pub proof fn law_at_most_one_version_of_a_row_is_seen(
    m: StorageModel,
    snap: Snapshot,
    table: TableId,
    id: RowId,
    i: int,
    j: int,
)
    requires
        m.chained(),
        m.has_table(table),
        m.table(table).rows.contains_key(id.0),
        ({
            let c = m.table(table).rows[id.0];
            &&& 0 <= i < c.len()
            &&& 0 <= j < c.len()
            &&& i != j
            &&& forall|a: int, b: int|
                0 <= a < b < c.len() && snap.settled(
                    (#[trigger] c[b]).xmin,
                    status_of(m.st(), c[b].xmin),
                ) ==> snap.settled((#[trigger] c[a]).xmin, status_of(m.st(), c[a].xmin))
            &&& m.sees(snap, c[j])
        }),
    ensures
        !m.sees(snap, m.table(table).rows[id.0][i]),
{
    let c = m.table(table).rows[id.0];
    assert(m.tables[table.0 as u64].rows.contains_key(id.0));
    assert(linked(c));
    if m.sees(snap, c[i]) {
        if i < j {
            law_at_most_one_version_is_seen(c, snap, m.st(), i, j);
        } else {
            law_at_most_one_version_is_seen(c, snap, m.st(), j, i);
        }
    }
}

/// Whether a snapshot has every creator of the versions of a row settled, but for `txn`, which
/// counts as over for it: it was taken after they ended and after `txn` will have.
pub open spec fn taken_after(
    m: StorageModel,
    snap: Snapshot,
    txn: TxnId,
    table: TableId,
    id: RowId,
) -> bool {
    let c = m.table(table).rows[id.0];
    &&& txn.0 < snap.xmax.0
    &&& !snap.active@.contains(txn)
    &&& forall|i: int|
        0 <= i < c.len() ==> (#[trigger] c[i]).xmin == txn || snap.settled(
            c[i].xmin,
            status_of(m.st(), c[i].xmin),
        )
}

/// Once its transaction has committed, what an update wrote is what every snapshot taken after sees
/// of the row.
pub proof fn law_committed_update_is_seen(
    m: StorageModel,
    txn: TxnId,
    table: TableId,
    id: RowId,
    data: Seq<ValueModel>,
    snap: Snapshot,
)
    requires
        m.chained(),
        m.has_table(table),
        m.current(txn, table, id),
        taken_after(m, snap, txn, table, id),
    ensures
        m.updated(txn, table, id, data).ended(txn, TxnStatus::Committed).seen(snap, table, id)
            == Some(data),
{
    let n = m.updated(txn, table, id, data).ended(txn, TxnStatus::Committed);
    let a = m.table(table).rows[id.0];
    let b = n.table(table).rows[id.0];
    let z = b.len() - 1;
    assert(m.tables[table.0 as u64].rows.contains_key(id.0));
    lemma_later_status(m, n, txn);
    assert(b.last().xmin == txn);
    assert forall|i: int| 0 <= i < z implies !snap.visible(
        (#[trigger] b[i]).xmin,
        b[i].xmax,
        n.st(),
    ) by {
        if i < a.len() - 1 {
            assert(b[i] == a[i]);
            assert(hidden_by_next(a, i));
            assert(a[i + 1].xmin == txn || snap.settled(
                a[i + 1].xmin,
                status_of(m.st(), a[i + 1].xmin),
            ));
        }
    }
    lemma_first_is_seen(b, snap, n.st(), z);
}

/// Once its transaction has committed, a deleted row is seen by no snapshot taken after.
pub proof fn law_committed_delete_is_seen(
    m: StorageModel,
    txn: TxnId,
    table: TableId,
    id: RowId,
    snap: Snapshot,
)
    requires
        m.chained(),
        m.has_table(table),
        m.current(txn, table, id),
        taken_after(m, snap, txn, table, id),
    ensures
        m.deleted(txn, table, id).ended(txn, TxnStatus::Committed).seen(snap, table, id) is None,
{
    let n = m.deleted(txn, table, id).ended(txn, TxnStatus::Committed);
    let a = m.table(table).rows[id.0];
    let b = n.table(table).rows[id.0];
    assert(m.tables[table.0 as u64].rows.contains_key(id.0));
    lemma_later_status(m, n, txn);
    assert forall|i: int| 0 <= i < b.len() implies !snap.visible(
        (#[trigger] b[i]).xmin,
        b[i].xmax,
        n.st(),
    ) by {
        if i < a.len() - 1 {
            assert(b[i] == a[i]);
            assert(hidden_by_next(a, i));
            assert(a[i + 1].xmin == txn || snap.settled(
                a[i + 1].xmin,
                status_of(m.st(), a[i + 1].xmin),
            ));
        }
    }
    lemma_none_is_seen(b, snap, n.st());
}

/// Once `txn` has committed, it counts so, and the others count as before.
proof fn lemma_later_status(m: StorageModel, n: StorageModel, txn: TxnId)
    requires
        n.txns.contains_key(txn.0),
        n.txns[txn.0].status == TxnStatus::Committed,
        forall|x: u64|
            x != txn.0 ==> (#[trigger] n.txns.contains_key(x) <==> m.txns.contains_key(x)),
        forall|x: u64|
            x != txn.0 && #[trigger] m.txns.contains_key(x) ==> n.txns[x].status
                == m.txns[x].status,
    ensures
        status_of(n.st(), txn) == TxnStatus::Committed,
        forall|x: TxnId| x != txn ==> #[trigger] status_of(n.st(), x) == status_of(m.st(), x),
{
    assert forall|x: TxnId| x != txn implies #[trigger] status_of(n.st(), x) == status_of(
        m.st(),
        x,
    ) by {
        assert(n.txns.contains_key(x.0) <==> m.txns.contains_key(x.0));
    }
}

} // verus!
