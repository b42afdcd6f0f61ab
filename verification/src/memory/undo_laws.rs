//! A rollback never fails: while a transaction is in progress, its writes on a row are the tail of
//! the chain of the row.

use vstd::prelude::*;

use super::model::{log_write, registered, StorageModel};
use super::table::{
    ends_with_update, set_last_xmax, superseded, survivors, update_undone, vacuumed, VersionModel,
};
use super::txn_log::{statuses, TxnModel, UndoEntry};
use crate::ids::{RowId, TableId, TxnId};
use crate::snapshot::{status_of, TxnStatus};
use crate::value::ValueModel;

verus! {

/// The writes on one row, oldest first.
pub open spec fn on_row(ws: Seq<UndoEntry>, table: u64, row: u64) -> Seq<UndoEntry>
    decreases ws.len(),
{
    if ws.len() == 0 {
        Seq::empty()
    } else {
        let rest = on_row(ws.drop_last(), table, row);
        if ws.last().on(table, row) {
            rest.push(ws.last())
        } else {
            rest
        }
    }
}

/// Whether `txn` may have replaced a version: it created it, or a committed transaction did.
pub open spec fn under(v: VersionModel, txn: TxnId, st: Map<u64, TxnStatus>) -> bool {
    v.xmin == txn || status_of(st, v.xmin) == TxnStatus::Committed
}

/// Whether no version of a chain names `txn`.
pub open spec fn unmarked(chain: Option<Seq<VersionModel>>, txn: TxnId) -> bool {
    chain matches Some(c) ==> forall|i: int|
        0 <= i < c.len() ==> (#[trigger] c[i]).xmin != txn && c[i].xmax != Some(txn)
}

/// Whether the writes `ks` of `txn` on a row are the tail of its chain, and a running transaction is
/// named nowhere else in it.
pub open spec fn tail_of(
    chain: Option<Seq<VersionModel>>,
    txn: TxnId,
    st: Map<u64, TxnStatus>,
    ks: Seq<UndoEntry>,
) -> bool
    decreases ks.len(),
{
    if ks.len() == 0 {
        status_of(st, txn) == TxnStatus::InProgress ==> unmarked(chain, txn)
    } else {
        match (chain, ks.last()) {
            (None, _) => false,
            (Some(c), UndoEntry::Insert { .. }) => {
                &&& ks.len() == 1
                &&& c.len() == 1
                &&& c[0].xmin == txn
                &&& c[0].xmax is None
            },
            (Some(c), UndoEntry::Update { .. }) => {
                &&& ends_with_update(c, txn)
                &&& under(c[c.len() - 2], txn, st)
                &&& tail_of(Some(update_undone(c)), txn, st, ks.drop_last())
            },
            (Some(c), UndoEntry::Delete { .. }) => {
                &&& c.len() > 0
                &&& c.last().xmax == Some(txn)
                &&& under(c.last(), txn, st)
                &&& tail_of(Some(set_last_xmax(c, None)), txn, st, ks.drop_last())
            },
        }
    }
}

impl StorageModel {
    /// The chain of a row, if it has one.
    pub open spec fn chain_of(self, table: u64, row: u64) -> Option<Seq<VersionModel>> {
        if self.tables[table].rows.contains_key(row) {
            Some(self.tables[table].rows[row])
        } else {
            None
        }
    }

    /// The writes of a transaction, with `w` in place of those of `txn`.
    pub open spec fn writes_with(self, txn: TxnId, w: Seq<UndoEntry>, x: TxnId) -> Seq<UndoEntry> {
        if x == txn {
            w
        } else {
            self.writes_of(x)
        }
    }

    /// Whether the writes of every running transaction are the tails of the chains, `w` being those
    /// of `txn`, and name tables that were handed out.
    pub open spec fn undoable_with(self, txn: TxnId, w: Seq<UndoEntry>) -> bool {
        &&& forall|x: TxnId, t: u64, r: u64|
            #![trigger tail_of(self.chain_of(t, r), x, self.st(), on_row(self.writes_with(txn, w, x), t, r))]
            self.tables.contains_key(t) ==> tail_of(
                self.chain_of(t, r),
                x,
                self.st(),
                on_row(self.writes_with(txn, w, x), t, r),
            )
        &&& forall|x: TxnId, i: int|
            0 <= i < self.writes_with(txn, w, x).len() ==> (#[trigger] self.writes_with(
                txn,
                w,
                x,
            )[i]).table().0 < self.next_table_id
    }

    /// Whether the writes of every running transaction are the tails of the chains of their rows.
    pub open spec fn undoable(self) -> bool {
        forall|txn: TxnId| #[trigger] self.undoable_with(txn, self.writes_of(txn))
    }

    /// Whether no version of any row names `txn`.
    pub open spec fn nowhere(self, txn: TxnId) -> bool {
        forall|t: u64, r: u64| #[trigger]
            self.tables.contains_key(t) ==> unmarked(#[trigger] self.chain_of(t, r), txn)
    }

    /// Whether a transaction is known, or no version names it.
    pub open spec fn known_or_new(self, txn: TxnId) -> bool {
        self.txns.contains_key(txn.0) || self.nowhere(txn)
    }
}

/// The writes on a row once one more is logged.
pub proof fn lemma_on_row_push(ws: Seq<UndoEntry>, e: UndoEntry, table: u64, row: u64)
    ensures
        on_row(ws.push(e), table, row) == if e.on(table, row) {
            on_row(ws, table, row).push(e)
        } else {
            on_row(ws, table, row)
        },
{
    assert(ws.push(e).drop_last() =~= ws);
}

/// Which transactions committed is all that a tail depends on.
proof fn lemma_tail_later(
    chain: Option<Seq<VersionModel>>,
    txn: TxnId,
    a: Map<u64, TxnStatus>,
    b: Map<u64, TxnStatus>,
    ks: Seq<UndoEntry>,
)
    requires
        tail_of(chain, txn, a, ks),
        chain matches Some(c) ==> forall|i: int|
            0 <= i < c.len() && status_of(a, (#[trigger] c[i]).xmin) == TxnStatus::Committed
                ==> status_of(b, c[i].xmin) == TxnStatus::Committed,
        status_of(b, txn) == TxnStatus::InProgress ==> status_of(a, txn) == TxnStatus::InProgress
            || unmarked(chain, txn),
    ensures
        tail_of(chain, txn, b, ks),
    decreases ks.len(),
{
    if ks.len() > 0 {
        let c = chain->0;
        match ks.last() {
            UndoEntry::Insert { .. } => {},
            UndoEntry::Update { .. } => {
                assert(c[c.len() - 1].xmin == txn);
                let u = update_undone(c);
                assert forall|i: int| 0 <= i < u.len() implies (#[trigger] u[i]).xmin == c[i].xmin by {}
                lemma_tail_later(Some(u), txn, a, b, ks.drop_last());
            },
            UndoEntry::Delete { .. } => {
                assert(c[c.len() - 1].xmax == Some(txn));
                let u = set_last_xmax(c, None);
                assert forall|i: int| 0 <= i < u.len() implies (#[trigger] u[i]).xmin == c[i].xmin by {}
                lemma_tail_later(Some(u), txn, a, b, ks.drop_last());
            },
        }
    }
}

/// Two running transactions do not write the same row.
pub proof fn lemma_one_writer(
    chain: Option<Seq<VersionModel>>,
    x: TxnId,
    y: TxnId,
    st: Map<u64, TxnStatus>,
    kx: Seq<UndoEntry>,
    ky: Seq<UndoEntry>,
)
    requires
        tail_of(chain, x, st, kx),
        tail_of(chain, y, st, ky),
        x != y,
        kx.len() > 0,
    ensures
        ky.len() == 0,
{
    if ky.len() > 0 {
        let c = chain->0;
        match kx.last() {
            UndoEntry::Delete { .. } => {
                assert(c.last().xmax == Some(x));
            },
            _ => {
                assert(c.last().xmin == x && c.last().xmax is None);
            },
        }
        match ky.last() {
            UndoEntry::Delete { .. } => {
                assert(c.last().xmax == Some(y));
            },
            _ => {
                assert(c.last().xmin == y && c.last().xmax is None);
            },
        }
    }
}

/// Only the writer of a row may replace it.
pub proof fn lemma_writable_alone(
    m: StorageModel,
    txn: TxnId,
    table: TableId,
    id: RowId,
    x: TxnId,
)
    requires
        m.wf(),
        m.undoable(),
        m.has_table(table),
        m.current(txn, table, id),
        x != txn,
    ensures
        on_row(m.writes_of(x), table.0 as u64, id.0).len() == 0,
{
    let t = table.0 as u64;
    let ks = on_row(m.writes_of(x), t, id.0);
    assert(m.undoable_with(x, m.writes_of(x)));
    assert(tail_of(m.chain_of(t, id.0), x, m.st(), on_row(m.writes_with(x, m.writes_of(x), x), t, id.0)));
    if ks.len() > 0 {
        lemma_writer_runs(m, x, t, id.0);
        let c = m.tables[t].rows[id.0];
        match ks.last() {
            UndoEntry::Delete { .. } => {
                assert(c.last().xmax == Some(x));
            },
            _ => {
                assert(c.last().xmin == x);
                assert(status_of(m.st(), x) == TxnStatus::InProgress);
            },
        }
    }
}

/// A transaction with a write to undo is in progress.
proof fn lemma_writer_runs(m: StorageModel, x: TxnId, t: u64, r: u64)
    requires
        m.wf(),
        on_row(m.writes_of(x), t, r).len() > 0,
    ensures
        m.txns.contains_key(x.0),
        m.txns[x.0].status == TxnStatus::InProgress,
        status_of(m.st(), x) == TxnStatus::InProgress,
{
    lemma_on_row_some(m.writes_of(x), t, r);
}

/// A row that was written is named by a write.
pub proof fn lemma_on_row_some(ws: Seq<UndoEntry>, t: u64, r: u64)
    requires
        on_row(ws, t, r).len() > 0,
    ensures
        ws.len() > 0,
        exists|i: int| 0 <= i < ws.len() && (#[trigger] ws[i]).on(t, r),
    decreases ws.len(),
{
    if !ws.last().on(t, r) {
        lemma_on_row_some(ws.drop_last(), t, r);
        let i = choose|i: int| 0 <= i < ws.drop_last().len() && (#[trigger] ws.drop_last()[i]).on(t, r);
        assert(ws[i].on(t, r));
    }
}

/// The status of a transaction that created a version stays committed when `txn` is registered.
proof fn lemma_registered_status(m: StorageModel, txn: TxnId, t: u64, r: u64)
    requires
        m.known_or_new(txn),
        m.tables.contains_key(t),
        m.tables[t].rows.contains_key(r),
    ensures
        ({
            let c = m.tables[t].rows[r];
            let st = statuses(registered(m.txns, txn));
            forall|i: int|
                0 <= i < c.len() && status_of(m.st(), (#[trigger] c[i]).xmin)
                    == TxnStatus::Committed ==> status_of(st, c[i].xmin) == TxnStatus::Committed
        }),
{
    let c = m.tables[t].rows[r];
    let st = statuses(registered(m.txns, txn));
    assert forall|i: int|
        0 <= i < c.len() && status_of(m.st(), (#[trigger] c[i]).xmin)
            == TxnStatus::Committed implies status_of(st, c[i].xmin) == TxnStatus::Committed by {
        if !m.txns.contains_key(txn.0) {
            assert(unmarked(m.chain_of(t, r), txn));
        }
    }
}

/// What one write of `txn` on the row `row` of `table` leaves, if the tail of that row grows by the
/// write and the other chains stay.
proof fn lemma_write_undoable(
    m: StorageModel,
    n: StorageModel,
    txn: TxnId,
    table: u64,
    row: u64,
    e: UndoEntry,
)
    requires
        m.wf(),
        m.undoable(),
        m.known_or_new(txn),
        m.tables.contains_key(table),
        e.table().0 as u64 == table,
        e.row().0 == row,
        n.txns == log_write(m.txns, txn, e),
        n.next_table_id == m.next_table_id,
        n.tables.dom() == m.tables.dom(),
        forall|t: u64, r: u64|
            m.tables.contains_key(t) && !(t == table && r == row) ==> #[trigger] n.chain_of(t, r)
                == m.chain_of(t, r),
        forall|x: TxnId| x != txn ==> on_row(#[trigger] m.writes_of(x), table, row).len() == 0,
        forall|x: TxnId|
            x != txn && unmarked(m.chain_of(table, row), x) ==> #[trigger] unmarked(
                n.chain_of(table, row),
                x,
            ),
        tail_of(n.chain_of(table, row), txn, n.st(), on_row(m.writes_of(txn), table, row).push(e)),
    ensures
        n.undoable(),
{
    assert(n.writes_of(txn) == m.writes_of(txn).push(e));
    assert forall|x: TxnId| x != txn implies #[trigger] n.writes_of(x) == m.writes_of(x) by {}
    assert(n.st() =~= statuses(registered(m.txns, txn)));
    assert forall|x: TxnId, t: u64, r: u64| m.tables.contains_key(t) implies #[trigger] tail_of(
        n.chain_of(t, r),
        x,
        n.st(),
        on_row(n.writes_of(x), t, r),
    ) by {
        lemma_on_row_push(m.writes_of(txn), e, t, r);
        if t == table && r == row {
            if x == txn {
                assert(e.on(table, row));
            } else {
                assert(on_row(m.writes_of(x), table, row).len() == 0);
                assert(m.undoable_with(x, m.writes_of(x)));
                assert(tail_of(
                    m.chain_of(t, r),
                    x,
                    m.st(),
                    on_row(m.writes_with(x, m.writes_of(x), x), t, r),
                ));
                assert(status_of(n.st(), x) == status_of(m.st(), x));
            }
        } else {
            assert(!e.on(t, r));
            assert(m.undoable_with(x, m.writes_of(x)));
            assert(tail_of(
                m.chain_of(t, r),
                x,
                m.st(),
                on_row(m.writes_with(x, m.writes_of(x), x), t, r),
            ));
            if m.tables[t].rows.contains_key(r) {
                lemma_registered_status(m, txn, t, r);
            }
            if !m.txns.contains_key(txn.0) {
                assert(unmarked(m.chain_of(t, r), txn));
            }
            lemma_tail_later(m.chain_of(t, r), x, m.st(), n.st(), on_row(m.writes_of(x), t, r));
        }
    }
    assert forall|x: TxnId, i: int| 0 <= i < n.writes_of(x).len() implies (#[trigger] n.writes_of(
        x,
    )[i]).table().0 < n.next_table_id by {
        assert(m.undoable_with(x, m.writes_of(x)));
        if i < m.writes_of(x).len() {
            assert(m.writes_with(x, m.writes_of(x), x)[i].table().0 < m.next_table_id);
        } else {
            assert(table < m.next_table_id);
        }
    }
    lemma_undoable(n);
}

/// The property of each transaction, put together.
proof fn lemma_undoable(n: StorageModel)
    requires
        forall|x: TxnId, t: u64, r: u64|
            n.tables.contains_key(t) ==> #[trigger] tail_of(
                n.chain_of(t, r),
                x,
                n.st(),
                on_row(n.writes_of(x), t, r),
            ),
        forall|x: TxnId, i: int|
            0 <= i < n.writes_of(x).len() ==> (#[trigger] n.writes_of(x)[i]).table().0
                < n.next_table_id,
    ensures
        n.undoable(),
{
    assert forall|txn: TxnId| #[trigger] n.undoable_with(txn, n.writes_of(txn)) by {
        assert forall|x: TxnId, t: u64, r: u64|
            #![trigger tail_of(n.chain_of(t, r), x, n.st(), on_row(n.writes_with(txn, n.writes_of(txn), x), t, r))]
            n.tables.contains_key(t) implies tail_of(
            n.chain_of(t, r),
            x,
            n.st(),
            on_row(n.writes_with(txn, n.writes_of(txn), x), t, r),
        ) by {
            assert(n.writes_with(txn, n.writes_of(txn), x) == n.writes_of(x));
        }
        assert forall|x: TxnId, i: int|
            0 <= i < n.writes_with(txn, n.writes_of(txn), x).len() implies (
        #[trigger] n.writes_with(txn, n.writes_of(txn), x)[i]).table().0 < n.next_table_id by {
            assert(n.writes_with(txn, n.writes_of(txn), x) == n.writes_of(x));
            assert(n.writes_of(x)[i].table().0 < n.next_table_id);
        }
    }
}

/// Nothing is to be undone in a storage that no transaction wrote in.
pub proof fn law_fresh_storage_is_undoable(m: StorageModel)
    requires
        m.txns == Map::<u64, TxnModel>::empty(),
    ensures
        m.undoable(),
{
    lemma_undoable(m);
}

/// An insert can be undone, and so can what was to be undone before it.
pub proof fn law_insert_is_undoable(
    m: StorageModel,
    txn: TxnId,
    table: TableId,
    data: Seq<ValueModel>,
)
    requires
        m.wf(),
        m.undoable(),
        m.has_table(table),
        m.has_room(table),
        !m.finished(txn),
        m.known_or_new(txn),
    ensures
        m.inserted(txn, table, data).undoable(),
{
    let t = table.0 as u64;
    let row = m.table(table).next_row_id;
    let n = m.inserted(txn, table, data);
    let e = UndoEntry::Insert { table, row: RowId(row) };
    assert(m.tables.contains_key(t));
    assert forall|x: TxnId| on_row(#[trigger] m.writes_of(x), t, row).len() == 0 by {
        assert(m.undoable_with(x, m.writes_of(x)));
        assert(tail_of(
            m.chain_of(t, row),
            x,
            m.st(),
            on_row(m.writes_with(x, m.writes_of(x), x), t, row),
        ));
        assert(!m.tables[t].rows.contains_key(row));
    }
    let ks = on_row(m.writes_of(txn), t, row).push(e);
    assert(ks.len() == 1);
    assert(ks.last() == e);
    assert(n.tables.dom() =~= m.tables.dom());
    assert(tail_of(n.chain_of(t, row), txn, n.st(), ks));
    lemma_write_undoable(m, n, txn, t, row, e);
}

/// An update can be undone, and so can what was to be undone before it.
pub proof fn law_update_is_undoable(
    m: StorageModel,
    txn: TxnId,
    table: TableId,
    id: RowId,
    data: Seq<ValueModel>,
)
    requires
        m.wf(),
        m.undoable(),
        m.has_table(table),
        m.current(txn, table, id),
        !m.finished(txn),
        m.known_or_new(txn),
    ensures
        m.updated(txn, table, id, data).undoable(),
{
    let t = table.0 as u64;
    let n = m.updated(txn, table, id, data);
    let e = UndoEntry::Update { table, row: id };
    let a = m.tables[t].rows[id.0];
    let c = n.tables[t].rows[id.0];
    let ks = on_row(m.writes_of(txn), t, id.0);
    assert(m.tables.contains_key(t));
    assert forall|x: TxnId| x != txn implies on_row(#[trigger] m.writes_of(x), t, id.0).len() == 0 by {
        lemma_writable_alone(m, txn, table, id, x);
    }
    assert(c == superseded(a, txn, Some(data), m.tables[t].next_seq));
    assert(c.drop_last() =~= set_last_xmax(a, Some(txn)));
    assert(update_undone(c) =~= a) by {
        assert(a.last().with_xmax(Some(txn)).with_xmax(None) =~= a.last());
    }
    assert(c[c.len() - 2] == a.last().with_xmax(Some(txn)));
    assert(ends_with_update(c, txn));
    assert(ks.push(e).drop_last() =~= ks);
    assert(n.st() =~= statuses(registered(m.txns, txn)));
    lemma_old_tail(m, n, txn, t, id.0);
    assert(tail_of(n.chain_of(t, id.0), txn, n.st(), ks.push(e)));
    assert(n.tables.dom() =~= m.tables.dom());
    lemma_write_undoable(m, n, txn, t, id.0, e);
}

/// What was the tail of a row still is, once a write of `txn` is logged.
proof fn lemma_old_tail(m: StorageModel, n: StorageModel, txn: TxnId, t: u64, r: u64)
    requires
        m.undoable(),
        m.known_or_new(txn),
        m.tables.contains_key(t),
        m.tables[t].rows.contains_key(r),
        m.tables[t].rows[r].len() > 0,
        n.st() == statuses(registered(m.txns, txn)),
    ensures
        tail_of(m.chain_of(t, r), txn, n.st(), on_row(m.writes_of(txn), t, r)),
        under(m.tables[t].rows[r].last(), txn, m.st()) ==> under(
            m.tables[t].rows[r].last(),
            txn,
            n.st(),
        ),
{
    assert(m.undoable_with(txn, m.writes_of(txn)));
    assert(tail_of(
        m.chain_of(t, r),
        txn,
        m.st(),
        on_row(m.writes_with(txn, m.writes_of(txn), txn), t, r),
    ));
    lemma_registered_status(m, txn, t, r);
    if !m.txns.contains_key(txn.0) {
        assert(unmarked(m.chain_of(t, r), txn));
    }
    lemma_tail_later(m.chain_of(t, r), txn, m.st(), n.st(), on_row(m.writes_of(txn), t, r));
    let c = m.tables[t].rows[r];
    assert(c.last() == c[c.len() - 1]);
}

/// A delete can be undone, and so can what was to be undone before it.
pub proof fn law_delete_is_undoable(m: StorageModel, txn: TxnId, table: TableId, id: RowId)
    requires
        m.wf(),
        m.undoable(),
        m.has_table(table),
        m.current(txn, table, id),
        !m.finished(txn),
        m.known_or_new(txn),
    ensures
        m.deleted(txn, table, id).undoable(),
{
    let t = table.0 as u64;
    let n = m.deleted(txn, table, id);
    let e = UndoEntry::Delete { table, row: id };
    let a = m.tables[t].rows[id.0];
    let c = n.tables[t].rows[id.0];
    let ks = on_row(m.writes_of(txn), t, id.0);
    assert(m.tables.contains_key(t));
    assert forall|x: TxnId| x != txn implies on_row(#[trigger] m.writes_of(x), t, id.0).len() == 0 by {
        lemma_writable_alone(m, txn, table, id, x);
    }
    assert(c == set_last_xmax(a, Some(txn)));
    assert(set_last_xmax(c, None) =~= a) by {
        assert(a.last().with_xmax(Some(txn)).with_xmax(None) =~= a.last());
    }
    assert(ks.push(e).drop_last() =~= ks);
    assert(n.st() =~= statuses(registered(m.txns, txn)));
    lemma_old_tail(m, n, txn, t, id.0);
    assert(tail_of(n.chain_of(t, id.0), txn, n.st(), ks.push(e)));
    assert(n.tables.dom() =~= m.tables.dom());
    lemma_write_undoable(m, n, txn, t, id.0, e);
}

/// What `txn` knows changes, its writes and its statuses kept.
proof fn lemma_same_writes(m: StorageModel, n: StorageModel, txn: TxnId)
    requires
        m.undoable(),
        m.known_or_new(txn),
        n.tables == m.tables,
        n.next_table_id == m.next_table_id,
        n.writes_of(txn) == m.writes_of(txn) || n.writes_of(txn).len() == 0 && status_of(
            n.st(),
            txn,
        ) != TxnStatus::InProgress,
        status_of(n.st(), txn) == TxnStatus::InProgress ==> status_of(m.st(), txn)
            == TxnStatus::InProgress || !m.txns.contains_key(txn.0),
        forall|x: u64| x != txn.0 ==> n.txns.contains_key(x) == #[trigger] m.txns.contains_key(x)
            && n.txns[x] == m.txns[x],
        status_of(n.st(), txn) == TxnStatus::Committed || status_of(m.st(), txn)
            != TxnStatus::Committed || !m.txns.contains_key(txn.0),
    ensures
        n.undoable(),
{
    assert forall|x: TxnId| x != txn implies #[trigger] n.writes_of(x) == m.writes_of(x) by {
        assert(n.txns.contains_key(x.0) == m.txns.contains_key(x.0));
    }
    assert forall|x: TxnId, t: u64, r: u64| n.tables.contains_key(t) implies #[trigger] tail_of(
        n.chain_of(t, r),
        x,
        n.st(),
        on_row(n.writes_of(x), t, r),
    ) by {
        assert(m.undoable_with(x, m.writes_of(x)));
        assert(tail_of(
            m.chain_of(t, r),
            x,
            m.st(),
            on_row(m.writes_with(x, m.writes_of(x), x), t, r),
        ));
        if m.tables[t].rows.contains_key(r) {
            let c = m.tables[t].rows[r];
            assert forall|i: int|
                0 <= i < c.len() && status_of(m.st(), (#[trigger] c[i]).xmin)
                    == TxnStatus::Committed implies status_of(n.st(), c[i].xmin)
                == TxnStatus::Committed by {
                if c[i].xmin == txn {
                    assert(m.txns.contains_key(txn.0) || unmarked(m.chain_of(t, r), txn));
                } else {
                    assert(n.txns.contains_key(c[i].xmin.0) == m.txns.contains_key(c[i].xmin.0));
                }
            }
        }
        assert(m.txns.contains_key(txn.0) || unmarked(m.chain_of(t, r), txn));
        if x != txn {
            assert(n.txns.contains_key(x.0) == m.txns.contains_key(x.0));
        }
        if x == txn && n.writes_of(x) != m.writes_of(x) {
            assert(on_row(n.writes_of(x), t, r).len() == 0);
        } else {
            lemma_tail_later(m.chain_of(t, r), x, m.st(), n.st(), on_row(m.writes_of(x), t, r));
        }
    }
    assert forall|x: TxnId, i: int| 0 <= i < n.writes_of(x).len() implies (#[trigger] n.writes_of(
        x,
    )[i]).table().0 < n.next_table_id by {
        assert(m.undoable_with(x, m.writes_of(x)));
        assert(m.writes_with(x, m.writes_of(x), x)[i].table().0 < m.next_table_id);
    }
    lemma_undoable(n);
}

/// A commit leaves the other transactions undoable.
pub proof fn law_commit_keeps_the_others_undoable(m: StorageModel, txn: TxnId)
    requires
        m.wf(),
        m.undoable(),
        !m.finished(txn),
        m.known_or_new(txn),
    ensures
        m.ended(txn, TxnStatus::Committed).undoable(),
{
    lemma_same_writes(m, m.ended(txn, TxnStatus::Committed), txn);
}

/// A savepoint changes nothing of what can be undone.
pub proof fn law_savepoint_keeps_undoable(m: StorageModel, txn: TxnId)
    requires
        m.wf(),
        m.undoable(),
        !m.finished(txn),
        m.known_or_new(txn),
    ensures
        m.saved(txn).undoable(),
        m.register(txn).undoable(),
{
    lemma_same_writes(m, m.saved(txn), txn);
    lemma_same_writes(m, m.register(txn), txn);
}

/// Undoing the last of the writes `w` of `txn` works, and leaves the others the tails of their
/// chains.
pub proof fn lemma_undo_one(m: StorageModel, txn: TxnId, w: Seq<UndoEntry>)
    requires
        m.undoable_with(txn, w),
        w.len() > 0,
    ensures
        !m.undo_fails(txn, w.last()),
        m.undone(txn, w.last()).undoable_with(txn, w.drop_last()),
{
    let e = w.last();
    let n = m.undone(txn, e);
    let table = e.table().0 as u64;
    let row = e.row().0;
    let less = w.drop_last();
    assert(m.txns == n.txns);
    assert(m.st() == n.st());
    if m.tables.contains_key(table) {
        let ks = on_row(w, table, row);
        assert(e.on(table, row));
        assert(ks == on_row(less, table, row).push(e));
        assert(ks.drop_last() =~= on_row(less, table, row));
        assert(ks.last() == e);
        assert(tail_of(
            m.chain_of(table, row),
            txn,
            m.st(),
            on_row(m.writes_with(txn, w, txn), table, row),
        ));
        assert(n.tables.dom() =~= m.tables.dom());
        assert(tail_of(n.chain_of(table, row), txn, n.st(), on_row(less, table, row)));
        assert forall|x: TxnId, t: u64, r: u64|
            #![trigger tail_of(n.chain_of(t, r), x, n.st(), on_row(n.writes_with(txn, less, x), t, r))]
            n.tables.contains_key(t) implies tail_of(
            n.chain_of(t, r),
            x,
            n.st(),
            on_row(n.writes_with(txn, less, x), t, r),
        ) by {
            assert(n.writes_of(x) == m.writes_of(x));
            assert(tail_of(
                m.chain_of(t, r),
                x,
                m.st(),
                on_row(m.writes_with(txn, w, x), t, r),
            ));
            if t == table && r == row {
                if x != txn {
                    lemma_one_writer(
                        m.chain_of(t, r),
                        txn,
                        x,
                        m.st(),
                        ks,
                        on_row(m.writes_of(x), t, r),
                    );
                    if status_of(m.st(), x) == TxnStatus::InProgress {
                        lemma_undone_unmarked(m, txn, e, x);
                    }
                }
            } else {
                assert(!e.on(t, r));
                assert(on_row(w, t, r) == on_row(less, t, r));
                assert(n.chain_of(t, r) == m.chain_of(t, r));
            }
        }
    } else {
        assert forall|x: TxnId, t: u64, r: u64|
            #![trigger tail_of(n.chain_of(t, r), x, n.st(), on_row(n.writes_with(txn, less, x), t, r))]
            n.tables.contains_key(t) implies tail_of(
            n.chain_of(t, r),
            x,
            n.st(),
            on_row(n.writes_with(txn, less, x), t, r),
        ) by {
            assert(tail_of(
                m.chain_of(t, r),
                x,
                m.st(),
                on_row(m.writes_with(txn, w, x), t, r),
            ));
            assert(!e.on(t, r));
            assert(on_row(w, t, r) == on_row(less, t, r));
        }
    }
    assert forall|x: TxnId, i: int| 0 <= i < n.writes_with(txn, less, x).len() implies (
    #[trigger] n.writes_with(txn, less, x)[i]).table().0 < n.next_table_id by {
        assert(m.writes_with(txn, w, x)[i] == n.writes_with(txn, less, x)[i]);
    }
}

/// An undo names no other transaction.
proof fn lemma_undone_unmarked(m: StorageModel, txn: TxnId, e: UndoEntry, x: TxnId)
    requires
        m.has_table(e.table()),
        !m.undo_fails(txn, e),
        unmarked(m.chain_of(e.table().0 as u64, e.row().0), x),
    ensures
        unmarked(m.undone(txn, e).chain_of(e.table().0 as u64, e.row().0), x),
{
    let t = e.table().0 as u64;
    let r = e.row().0;
    let n = m.undone(txn, e);
    match e {
        UndoEntry::Insert { .. } => {
            if m.tables[t].rows.contains_key(r) {
                assert(!n.tables[t].rows.contains_key(r));
            }
        },
        UndoEntry::Update { .. } => {
            let c = m.tables[t].rows[r];
            let u = n.tables[t].rows[r];
            assert(u == update_undone(c));
            assert forall|i: int| 0 <= i < u.len() implies (#[trigger] u[i]).xmin != x && u[i].xmax
                != Some(x) by {
                assert(c[i].xmin != x && c[i].xmax != Some(x));
            }
        },
        UndoEntry::Delete { .. } => {
            let c = m.tables[t].rows[r];
            let u = n.tables[t].rows[r];
            assert(u == set_last_xmax(c, None));
            assert forall|i: int| 0 <= i < u.len() implies (#[trigger] u[i]).xmin != x && u[i].xmax
                != Some(x) by {
                assert(c[i].xmin != x && c[i].xmax != Some(x));
            }
        },
    }
}

/// Undoing the last writes of `txn` works, and leaves the first ones the tails of their chains.
pub proof fn lemma_undo_all(
    m: StorageModel,
    txn: TxnId,
    base: Seq<UndoEntry>,
    ws: Seq<UndoEntry>,
)
    requires
        m.undoable_with(txn, base + ws),
    ensures
        m.stuck_on(txn, ws) is None,
        m.all_undone(txn, ws).undoable_with(txn, base),
        m.all_undone(txn, ws).txns == m.txns,
    decreases ws.len(),
{
    let w = base + ws;
    if ws.len() == 0 {
        assert(w =~= base);
    } else {
        assert(w.last() == ws.last());
        assert(w.drop_last() =~= base + ws.drop_last());
        lemma_undo_one(m, txn, w);
        lemma_undo_all(m.undone(txn, ws.last()), txn, base, ws.drop_last());
    }
}

/// What a transaction knows of itself does not change what an undo does to the rows.
pub proof fn lemma_undo_alike(m: StorageModel, a: StorageModel, txn: TxnId, ws: Seq<UndoEntry>)
    requires
        a == (StorageModel { txns: a.txns, ..m }),
    ensures
        a.stuck_on(txn, ws) == m.stuck_on(txn, ws),
        a.all_undone(txn, ws) == (StorageModel { txns: a.txns, ..m.all_undone(txn, ws) }),
    decreases ws.len(),
{
    if ws.len() > 0 && !m.undo_fails(txn, ws.last()) {
        let n = m.undone(txn, ws.last());
        let b = a.undone(txn, ws.last());
        assert(b =~= (StorageModel { txns: b.txns, ..n }));
        assert(b.txns == a.txns);
        lemma_undo_alike(n, b, txn, ws.drop_last());
    }
}

/// A rollback never fails, leaves no trace of the transaction in any row, and leaves the other
/// transactions undoable.
pub proof fn law_rollback_never_fails(m: StorageModel, txn: TxnId)
    requires
        m.wf(),
        m.undoable(),
        !m.finished(txn),
        m.known_or_new(txn),
    ensures
        m.ended(txn, TxnStatus::Aborted).stuck_on(txn, m.writes_of(txn)) is None,
        m.ended(txn, TxnStatus::Aborted).all_undone(txn, m.writes_of(txn)).nowhere(txn),
        m.ended(txn, TxnStatus::Aborted).all_undone(txn, m.writes_of(txn)).undoable(),
{
    let ws = m.writes_of(txn);
    let a = m.ended(txn, TxnStatus::Aborted);
    let k = m.all_undone(txn, ws);
    let n = a.all_undone(txn, ws);
    assert(m.undoable_with(txn, ws));
    assert(Seq::<UndoEntry>::empty() + ws =~= ws);
    lemma_undo_all(m, txn, Seq::empty(), ws);
    lemma_undo_alike(m, a, txn, ws);
    assert(n.tables == k.tables);
    assert forall|x: TxnId| x != txn implies #[trigger] n.writes_of(x) == m.writes_of(x) by {}
    assert forall|t: u64, r: u64| #[trigger] n.tables.contains_key(t) implies unmarked(
        #[trigger] n.chain_of(t, r),
        txn,
    ) by {
        assert(tail_of(
            k.chain_of(t, r),
            txn,
            k.st(),
            on_row(k.writes_with(txn, Seq::empty(), txn), t, r),
        ));
        assert(n.chain_of(t, r) == k.chain_of(t, r));
        if !m.txns.contains_key(txn.0) {
            assert(ws =~= Seq::<UndoEntry>::empty());
            assert(k == m);
        }
    }
    assert forall|x: TxnId, t: u64, r: u64| n.tables.contains_key(t) implies #[trigger] tail_of(
        n.chain_of(t, r),
        x,
        n.st(),
        on_row(n.writes_of(x), t, r),
    ) by {
        assert(n.chain_of(t, r) == k.chain_of(t, r));
        assert(unmarked(n.chain_of(t, r), txn));
        if x == txn {
            assert(n.writes_of(txn) =~= Seq::<UndoEntry>::empty());
        } else {
            assert(tail_of(
                k.chain_of(t, r),
                x,
                k.st(),
                on_row(k.writes_with(txn, Seq::empty(), x), t, r),
            ));
            assert(k.writes_of(x) == m.writes_of(x));
            lemma_tail_later(k.chain_of(t, r), x, k.st(), n.st(), on_row(m.writes_of(x), t, r));
        }
    }
    assert forall|x: TxnId, i: int| 0 <= i < n.writes_of(x).len() implies (#[trigger] n.writes_of(
        x,
    )[i]).table().0 < n.next_table_id by {
        assert(m.undoable_with(x, m.writes_of(x)));
        assert(x != txn);
        assert(m.writes_with(x, m.writes_of(x), x)[i].table().0 < m.next_table_id);
        assert(k.undoable_with(txn, Seq::empty()));
        assert(k.writes_with(txn, Seq::empty(), x)[i].table().0 < k.next_table_id);
    }
    lemma_undoable(n);
}

/// The property for one transaction is the property for all.
proof fn lemma_with_own(n: StorageModel, txn: TxnId)
    requires
        n.undoable_with(txn, n.writes_of(txn)),
    ensures
        n.undoable(),
{
    assert forall|x: TxnId, t: u64, r: u64| n.tables.contains_key(t) implies #[trigger] tail_of(
        n.chain_of(t, r),
        x,
        n.st(),
        on_row(n.writes_of(x), t, r),
    ) by {
        assert(n.writes_with(txn, n.writes_of(txn), x) == n.writes_of(x));
        assert(tail_of(
            n.chain_of(t, r),
            x,
            n.st(),
            on_row(n.writes_with(txn, n.writes_of(txn), x), t, r),
        ));
    }
    assert forall|x: TxnId, i: int| 0 <= i < n.writes_of(x).len() implies (#[trigger] n.writes_of(
        x,
    )[i]).table().0 < n.next_table_id by {
        assert(n.writes_with(txn, n.writes_of(txn), x) == n.writes_of(x));
        assert(n.writes_with(txn, n.writes_of(txn), x)[i].table().0 < n.next_table_id);
    }
    lemma_undoable(n);
}

/// A rollback to a savepoint never fails, and leaves what comes before the savepoint undoable.
pub proof fn law_rollback_to_never_fails(m: StorageModel, txn: TxnId, i: int)
    requires
        m.wf(),
        m.undoable(),
        m.txns.contains_key(txn.0),
        !m.finished(txn),
        0 <= i < m.txns[txn.0].savepoints.len(),
    ensures
        m.cut_at(txn, i).stuck_on(txn, m.writes_after(txn, i)) is None,
        m.cut_at(txn, i).all_undone(txn, m.writes_after(txn, i)).undoable(),
{
    let x = m.txns[txn.0];
    let at = x.savepoints[i].1 as int;
    let base = x.writes.take(at);
    let ws = m.writes_after(txn, i);
    let c = m.cut_at(txn, i);
    assert(base + ws =~= x.writes);
    assert(m.undoable_with(txn, m.writes_of(txn)));
    assert(c.st() =~= m.st());
    assert(c.undoable_with(txn, base + ws)) by {
        assert forall|y: TxnId, t: u64, r: u64|
            #![trigger tail_of(c.chain_of(t, r), y, c.st(), on_row(c.writes_with(txn, base + ws, y), t, r))]
            c.tables.contains_key(t) implies tail_of(
            c.chain_of(t, r),
            y,
            c.st(),
            on_row(c.writes_with(txn, base + ws, y), t, r),
        ) by {
            assert(c.writes_with(txn, base + ws, y) == m.writes_with(txn, m.writes_of(txn), y));
            assert(tail_of(
                m.chain_of(t, r),
                y,
                m.st(),
                on_row(m.writes_with(txn, m.writes_of(txn), y), t, r),
            ));
        }
        assert forall|y: TxnId, k: int| 0 <= k < c.writes_with(txn, base + ws, y).len() implies (
        #[trigger] c.writes_with(txn, base + ws, y)[k]).table().0 < c.next_table_id by {
            assert(c.writes_with(txn, base + ws, y) == m.writes_with(txn, m.writes_of(txn), y));
            assert(m.writes_with(txn, m.writes_of(txn), y)[k].table().0 < m.next_table_id);
        }
    }
    lemma_undo_all(c, txn, base, ws);
    let n = c.all_undone(txn, ws);
    assert(n.writes_of(txn) == base);
    lemma_with_own(n, txn);
}

/// Creating and dropping databases, tables and indexes leaves every transaction undoable: a table
/// that stays keeps its rows, a new one has none.
pub proof fn law_definitions_keep_undoable(m: StorageModel, n: StorageModel)
    requires
        m.wf(),
        m.undoable(),
        n.txns == m.txns,
        n.next_table_id >= m.next_table_id,
        forall|t: u64| #[trigger]
            n.tables.contains_key(t) ==> m.tables.contains_key(t) && n.tables[t].rows
                == m.tables[t].rows || t >= m.next_table_id && n.tables[t].rows == Map::<
                u64,
                Seq<VersionModel>,
            >::empty(),
    ensures
        n.undoable(),
{
    assert(n.st() == m.st());
    assert forall|x: TxnId, t: u64, r: u64| n.tables.contains_key(t) implies #[trigger] tail_of(
        n.chain_of(t, r),
        x,
        n.st(),
        on_row(n.writes_of(x), t, r),
    ) by {
        assert(n.writes_of(x) == m.writes_of(x));
        assert(m.undoable_with(x, m.writes_of(x)));
        if m.tables.contains_key(t) && n.tables[t].rows == m.tables[t].rows {
            assert(tail_of(
                m.chain_of(t, r),
                x,
                m.st(),
                on_row(m.writes_with(x, m.writes_of(x), x), t, r),
            ));
        } else if on_row(m.writes_of(x), t, r).len() > 0 {
            lemma_on_row_some(m.writes_of(x), t, r);
            let ws = m.writes_of(x);
            let i = choose|i: int| 0 <= i < ws.len() && (#[trigger] ws[i]).on(t, r);
            assert(m.writes_with(x, ws, x)[i].table().0 < m.next_table_id);
        }
    }
    assert forall|x: TxnId, i: int| 0 <= i < n.writes_of(x).len() implies (#[trigger] n.writes_of(
        x,
    )[i]).table().0 < n.next_table_id by {
        assert(m.undoable_with(x, m.writes_of(x)));
        assert(m.writes_with(x, m.writes_of(x), x)[i].table().0 < m.next_table_id);
    }
    lemma_undoable(n);
}

/// What survives of a chain with one more version.
pub proof fn lemma_survivors_push(
    c: Seq<VersionModel>,
    v: VersionModel,
    horizon: TxnId,
    st: Map<u64, TxnStatus>,
)
    ensures
        survivors(c.push(v), horizon, st) == if v.dead(horizon, st) {
            survivors(c, horizon, st)
        } else {
            survivors(c, horizon, st).push(v)
        },
{
    reveal(Seq::filter);
    assert(c.push(v).drop_last() =~= c);
}

/// What survives of a chain names nobody else.
proof fn lemma_unmarked_survives(
    c: Seq<VersionModel>,
    txn: TxnId,
    horizon: TxnId,
    st: Map<u64, TxnStatus>,
)
    requires
        unmarked(Some(c), txn),
    ensures
        unmarked(Some(survivors(c, horizon, st)), txn),
    decreases c.len(),
{
    let s = survivors(c, horizon, st);
    if c.len() == 0 {
        reveal(Seq::filter);
    } else {
        let p = c.drop_last();
        assert(c =~= p.push(c.last()));
        lemma_survivors_push(p, c.last(), horizon, st);
        assert forall|i: int| 0 <= i < p.len() implies (#[trigger] p[i]).xmin != txn && p[i].xmax
            != Some(txn) by {
            assert(c[i].xmin != txn && c[i].xmax != Some(txn));
        }
        lemma_unmarked_survives(p, txn, horizon, st);
        let q = survivors(p, horizon, st);
        assert forall|i: int| 0 <= i < s.len() implies (#[trigger] s[i]).xmin != txn && s[i].xmax
            != Some(txn) by {
            if i < q.len() {
                assert(s[i] == q[i]);
            } else {
                assert(s[i] == c[c.len() - 1]);
            }
        }
    }
}

/// A vacuum leaves the tail of a running transaction in place.
proof fn lemma_tail_survives(
    c: Seq<VersionModel>,
    txn: TxnId,
    st: Map<u64, TxnStatus>,
    horizon: TxnId,
    ks: Seq<UndoEntry>,
)
    requires
        tail_of(Some(c), txn, st, ks),
        ks.len() > 0,
        status_of(st, txn) == TxnStatus::InProgress,
    ensures
        survivors(c, horizon, st).len() > 0,
        tail_of(Some(survivors(c, horizon, st)), txn, st, ks),
    decreases ks.len(),
{
    let s = survivors(c, horizon, st);
    match ks.last() {
        UndoEntry::Insert { .. } => {
            assert(c =~= Seq::<VersionModel>::empty().push(c[0]));
            lemma_survivors_push(Seq::empty(), c[0], horizon, st);
            reveal(Seq::filter);
            assert(survivors(Seq::empty(), horizon, st) =~= Seq::empty());
            assert(s =~= c);
        },
        UndoEntry::Update { .. } => {
            let p = c.drop_last().drop_last();
            let a = c[c.len() - 2];
            let b = c.last();
            assert(c =~= p.push(a).push(b));
            lemma_survivors_push(p, a, horizon, st);
            lemma_survivors_push(p.push(a), b, horizon, st);
            assert(s == survivors(p, horizon, st).push(a).push(b));
            let u = update_undone(c);
            assert(u =~= p.push(a.with_xmax(None)));
            lemma_survivors_push(p, a.with_xmax(None), horizon, st);
            assert(update_undone(s) =~= survivors(u, horizon, st)) by {
                assert(s.drop_last() =~= survivors(p, horizon, st).push(a));
            }
            if ks.drop_last().len() > 0 {
                lemma_tail_survives(u, txn, st, horizon, ks.drop_last());
            } else {
                assert(tail_of(Some(u), txn, st, ks.drop_last()));
                assert(unmarked(Some(u), txn));
                lemma_unmarked_survives(u, txn, horizon, st);
            }
            assert(tail_of(Some(survivors(u, horizon, st)), txn, st, ks.drop_last()));
            assert(s[s.len() - 2] == a);
            assert(ends_with_update(s, txn));
            assert(tail_of(Some(update_undone(s)), txn, st, ks.drop_last()));
        },
        UndoEntry::Delete { .. } => {
            let p = c.drop_last();
            let a = c.last();
            assert(c =~= p.push(a));
            lemma_survivors_push(p, a, horizon, st);
            assert(s == survivors(p, horizon, st).push(a));
            let u = set_last_xmax(c, None);
            assert(u =~= p.push(a.with_xmax(None)));
            lemma_survivors_push(p, a.with_xmax(None), horizon, st);
            assert(set_last_xmax(s, None) =~= survivors(u, horizon, st)) by {
                assert(s.drop_last() =~= survivors(p, horizon, st));
            }
            if ks.drop_last().len() > 0 {
                lemma_tail_survives(u, txn, st, horizon, ks.drop_last());
            } else {
                assert(tail_of(Some(u), txn, st, ks.drop_last()));
                assert(unmarked(Some(u), txn));
                lemma_unmarked_survives(u, txn, horizon, st);
            }
            assert(tail_of(Some(survivors(u, horizon, st)), txn, st, ks.drop_last()));
            assert(s.last() == a);
            assert(tail_of(Some(set_last_xmax(s, None)), txn, st, ks.drop_last()));
        },
    }
}

/// A vacuum leaves every running transaction undoable.
pub proof fn law_vacuum_keeps_undoable(m: StorageModel, horizon: TxnId)
    requires
        m.wf(),
        m.undoable(),
    ensures
        m.vacuumed(horizon).undoable(),
{
    let n = m.vacuumed(horizon);
    assert forall|x: TxnId| #[trigger] n.writes_of(x) == m.writes_of(x) by {
        if m.txns.contains_key(x.0) && !n.txns.contains_key(x.0) {
            assert(m.writes_of(x) =~= Seq::<UndoEntry>::empty());
        }
    }
    assert forall|x: TxnId| #[trigger] status_of(m.st(), x) == TxnStatus::Committed implies status_of(
        n.st(),
        x,
    ) == TxnStatus::Committed by {}
    assert forall|x: TxnId, t: u64, r: u64| n.tables.contains_key(t) implies #[trigger] tail_of(
        n.chain_of(t, r),
        x,
        n.st(),
        on_row(n.writes_of(x), t, r),
    ) by {
        let ks = on_row(m.writes_of(x), t, r);
        assert(m.tables.contains_key(t));
        assert(n.tables[t].rows == vacuumed(m.tables[t].rows, horizon, m.st()));
        assert(m.undoable_with(x, m.writes_of(x)));
        assert(tail_of(
            m.chain_of(t, r),
            x,
            m.st(),
            on_row(m.writes_with(x, m.writes_of(x), x), t, r),
        ));
        if ks.len() == 0 {
            if status_of(n.st(), x) == TxnStatus::InProgress && n.tables[t].rows.contains_key(r) {
                assert(status_of(m.st(), x) == TxnStatus::InProgress);
                lemma_unmarked_survives(m.tables[t].rows[r], x, horizon, m.st());
            }
        } else {
            lemma_writer_runs(m, x, t, r);
            let c = m.tables[t].rows[r];
            lemma_tail_survives(c, x, m.st(), horizon, ks);
            let sv = survivors(c, horizon, m.st());
            assert(n.txns.contains_key(x.0));
            lemma_tail_later(Some(survivors(c, horizon, m.st())), x, m.st(), n.st(), ks);
        }
    }
    assert forall|x: TxnId, i: int| 0 <= i < n.writes_of(x).len() implies (#[trigger] n.writes_of(
        x,
    )[i]).table().0 < n.next_table_id by {
        assert(m.undoable_with(x, m.writes_of(x)));
        assert(m.writes_with(x, m.writes_of(x), x)[i].table().0 < m.next_table_id);
    }
    lemma_undoable(n);
}

} // verus!
