//! What a vacuum takes away of a durable table, and what it leaves.

use vstd::prelude::*;

use super::contents::StoredModel;
use super::storage::DiskModel;
use super::table_model::HeapTableModel;
use crate::ids::{RowId, TxnId};
use crate::snapshot::{Snapshot, TxnStatus};

verus! {

/// Whether a transaction committed, as far as the statuses tell: one they do not list did.
pub open spec fn known_committed(st: Map<u64, TxnStatus>, x: TxnId) -> bool {
    st.contains_key(x.0) ==> st[x.0] == TxnStatus::Committed
}

/// Whether a version was replaced or deleted by a transaction below `horizon` that committed.
pub open spec fn taken_below(v: StoredModel, horizon: TxnId, st: Map<u64, TxnStatus>) -> bool {
    v.header.xmax matches Some(x) && x.0 < horizon.0 && known_committed(st, x)
}

/// Whether the creator of a version rolled back.
pub open spec fn taken_back(v: StoredModel, st: Map<u64, TxnStatus>) -> bool {
    st.contains_key(v.header.xmin.0) && st[v.header.xmin.0] == TxnStatus::Aborted
}

/// After a vacuum no version is left that a committed transaction below the horizon took away, nor one
/// whose creator rolled back; every other version is there as it was.
pub proof fn law_vacuum_takes_the_dead_alone(
    t: HeapTableModel,
    horizon: TxnId,
    st: Map<u64, TxnStatus>,
    k: (u64, u64),
)
    ensures
        ({
            let after = t.vacuumed(horizon, st);
            &&& after.contents.contains_key(k) <==> t.contents.contains_key(k) && !taken_below(
                t.contents[k],
                horizon,
                st,
            ) && !taken_back(t.contents[k], st)
            &&& after.contents.contains_key(k) ==> after.contents[k] == t.contents[k]
        }),
{
}

/// After a vacuum a row whose most recent version was taken away below the horizon, or taken back, has
/// no most recent version; every other row has the one it had, at the same serial.
pub proof fn law_vacuum_forgets_the_deleted_rows(
    t: HeapTableModel,
    horizon: TxnId,
    st: Map<u64, TxnStatus>,
    row: RowId,
)
    requires
        t.wf(),
        t.current.contains_key(row.0),
    ensures
        ({
            let after = t.vacuumed(horizon, st);
            let last = t.contents[(row.0, t.current[row.0])];
            if taken_below(last, horizon, st) || taken_back(last, st) {
                &&& !after.current.contains_key(row.0)
                &&& !after.contents.contains_key((row.0, t.current[row.0]))
            } else {
                &&& after.current.contains_key(row.0)
                &&& after.current[row.0] == t.current[row.0]
                &&& after.contents[(row.0, after.current[row.0])] == last
            }
        }),
{
}

/// A vacuum gives no row a most recent version it did not have, and hands out no identifier, serial or
/// address again.
pub proof fn law_vacuum_makes_nothing_up(
    t: HeapTableModel,
    horizon: TxnId,
    st: Map<u64, TxnStatus>,
)
    ensures
        ({
            let after = t.vacuumed(horizon, st);
            &&& forall|row: u64| #[trigger]
                after.current.contains_key(row) ==> t.current.contains_key(row)
            &&& after.next_row_id == t.next_row_id
            &&& after.next_seq == t.next_seq
            &&& after.next_address == t.next_address
            &&& after.writes == t.writes
            &&& after.lost == t.lost
            &&& after.table == t.table
            &&& after.arity == t.arity
        }),
{
}

/// A snapshot whose view of the transactions below the horizon is settled sees the same versions
/// before and after a vacuum.
pub proof fn law_vacuum_keeps_what_is_seen(
    t: HeapTableModel,
    horizon: TxnId,
    st: Map<u64, TxnStatus>,
    snap: Snapshot,
    k: (u64, u64),
)
    requires
        horizon.0 <= snap.xmax.0,
        forall|i: int| 0 <= i < snap.active@.len() ==> (#[trigger] snap.active@[i]).0 >= horizon.0,
        !(st.contains_key(snap.own.0) && st[snap.own.0] == TxnStatus::Aborted),
    ensures
        t.vacuumed(horizon, st).sees(snap, st, k) <==> t.sees(snap, st, k),
{
    if t.contents.contains_key(k) {
        let v = t.contents[k];
        if taken_below(v, horizon, st) {
            let x = v.header.xmax->0;
            assert(!snap.active@.contains(x)) by {
                if snap.active@.contains(x) {
                    let i = choose|i: int| 0 <= i < snap.active@.len() && snap.active@[i] == x;
                    assert(snap.active@[i].0 >= horizon.0);
                }
            }
        }
    }
}

/// A vacuum of an instance reaches every table, and leaves the definitions and the journal alone.
pub proof fn law_vacuum_reaches_every_table(
    m: DiskModel,
    n: DiskModel,
    horizon: TxnId,
    t: u64,
    k: (u64, u64),
)
    requires
        n.journal == m.journal,
        m.same_catalogue(n),
        forall|u: u64| #[trigger]
            m.tables.contains_key(u) ==> n.tables[u].store.model()
                == m.tables[u].store.model().vacuumed(horizon, m.journal.st()),
        m.tables.contains_key(t),
        n.rows_of(t).contents.contains_key(k),
    ensures
        m.rows_of(t).contents.contains_key(k),
        n.rows_of(t).contents[k] == m.rows_of(t).contents[k],
        ({
            let v = n.rows_of(t).contents[k];
            &&& v.header.xmax matches Some(x) ==> x.0 >= horizon.0 || (m.journal.txns.contains_key(
                x.0,
            ) && m.journal.txns[x.0].status != TxnStatus::Committed)
            &&& m.journal.txns.contains_key(v.header.xmin.0)
                ==> m.journal.txns[v.header.xmin.0].status != TxnStatus::Aborted
        }),
{
    law_vacuum_takes_the_dead_alone(m.rows_of(t), horizon, m.journal.st(), k);
}

} // verus!
