//! What the storage promises as a whole.

use vstd::prelude::*;

use super::index::{entries_without, in_range, with_entry, slot, EntryModel};
use super::keeps::lemma_chain_found;
use super::key_order::{key_in, key_relation, Column};
use super::model::{
    chain_names, entries_match, entry_for, indexes_with, indexes_without, StorageModel,
};
use super::read::first_seen;
use super::table::{survivors, VersionModel};
use super::txn_log::UndoEntry;
use crate::ids::{RowId, SavepointId, TableId, TxnId};
use crate::key_range::KeyRangeModel;
use crate::seqs::lemma_filter_one;
use crate::snapshot::{status_of, Snapshot, TxnStatus};
use crate::value::{Relation, ValueModel};

verus! {

/// What a snapshot sees of a chain.
pub open spec fn content_seen(
    chain: Seq<VersionModel>,
    snap: Snapshot,
    st: Map<u64, TxnStatus>,
) -> Option<Seq<ValueModel>> {
    match first_seen(chain, snap, st) {
        Some(v) => Some(v.data),
        None => None,
    }
}

/// Two chains of which a snapshot sees the same versions look the same.
pub proof fn lemma_same_view(
    a: Seq<VersionModel>,
    b: Seq<VersionModel>,
    snap: Snapshot,
    sta: Map<u64, TxnStatus>,
    stb: Map<u64, TxnStatus>,
)
    requires
        a.len() <= b.len(),
        forall|i: int|
            0 <= i < a.len() ==> snap.visible((#[trigger] a[i]).xmin, a[i].xmax, sta)
                == snap.visible(b[i].xmin, b[i].xmax, stb) && a[i].data == b[i].data,
        forall|i: int|
            a.len() <= i < b.len() ==> !snap.visible((#[trigger] b[i]).xmin, b[i].xmax, stb),
    ensures
        content_seen(a, snap, sta) == content_seen(b, snap, stb),
    decreases b.len(),
{
    if b.len() > 0 {
        let y = b.drop_first();
        if a.len() > 0 {
            let x = a.drop_first();
            assert(a[0].data == b[0].data);
            assert forall|i: int| 0 <= i < x.len() implies snap.visible(
                (#[trigger] x[i]).xmin,
                x[i].xmax,
                sta,
            ) == snap.visible(y[i].xmin, y[i].xmax, stb) && x[i].data == y[i].data by {
                assert(x[i] == a[i + 1] && y[i] == b[i + 1]);
            }
            assert forall|i: int| x.len() <= i < y.len() implies !snap.visible(
                (#[trigger] y[i]).xmin,
                y[i].xmax,
                stb,
            ) by {
                assert(y[i] == b[i + 1]);
            }
            lemma_same_view(x, y, snap, sta, stb);
        } else {
            assert forall|i: int| a.len() <= i < y.len() implies !snap.visible(
                (#[trigger] y[i]).xmin,
                y[i].xmax,
                stb,
            ) by {
                assert(y[i] == b[i + 1]);
            }
            assert(!snap.visible(b[0].xmin, b[0].xmax, stb));
            lemma_same_view(a, y, snap, sta, stb);
        }
    }
}

/// The first visible version of a chain is what a snapshot sees.
pub proof fn lemma_first_is_seen(
    chain: Seq<VersionModel>,
    snap: Snapshot,
    st: Map<u64, TxnStatus>,
    at: int,
)
    requires
        0 <= at < chain.len(),
        snap.visible(chain[at].xmin, chain[at].xmax, st),
        forall|i: int|
            0 <= i < at ==> !snap.visible((#[trigger] chain[i]).xmin, chain[i].xmax, st),
    ensures
        first_seen(chain, snap, st) == Some(chain[at]),
    decreases chain.len(),
{
    if at > 0 {
        assert(!snap.visible(chain[0].xmin, chain[0].xmax, st));
        let rest = chain.drop_first();
        assert forall|i: int| 0 <= i < at - 1 implies !snap.visible(
            (#[trigger] rest[i]).xmin,
            rest[i].xmax,
            st,
        ) by {
            assert(rest[i] == chain[i + 1]);
        }
        lemma_first_is_seen(rest, snap, st, at - 1);
    }
}

/// A chain of which a snapshot sees no version is not seen.
pub proof fn lemma_none_is_seen(chain: Seq<VersionModel>, snap: Snapshot, st: Map<u64, TxnStatus>)
    requires
        forall|i: int|
            0 <= i < chain.len() ==> !snap.visible((#[trigger] chain[i]).xmin, chain[i].xmax, st),
    ensures
        first_seen(chain, snap, st) is None,
    decreases chain.len(),
{
    if chain.len() > 0 {
        assert(!snap.visible(chain[0].xmin, chain[0].xmax, st));
        let rest = chain.drop_first();
        assert forall|i: int| 0 <= i < rest.len() implies !snap.visible(
            (#[trigger] rest[i]).xmin,
            rest[i].xmax,
            st,
        ) by {
            assert(rest[i] == chain[i + 1]);
        }
        lemma_none_is_seen(rest, snap, st);
    }
}

/// Whether `txn` is running, or the storage has never met it: no version names it.
pub open spec fn running_or_new(m: StorageModel, txn: TxnId) -> bool {
    if m.txns.contains_key(txn.0) {
        m.txns[txn.0].status == TxnStatus::InProgress
    } else {
        forall|t: u64, id: u64, i: int|
            #![trigger m.tables[t].rows[id][i]]
            m.tables.contains_key(t) && m.tables[t].rows.contains_key(id) && 0 <= i
                < m.tables[t].rows[id].len() ==> m.tables[t].rows[id][i].xmin != txn
                && m.tables[t].rows[id][i].xmax != Some(txn)
    }
}

/// Once `txn` is registered, a snapshot of another transaction sees of every version what it saw.
proof fn lemma_registered_view(
    m: StorageModel,
    n: StorageModel,
    txn: TxnId,
    snap: Snapshot,
    t: u64,
    id: u64,
    i: int,
)
    requires
        running_or_new(m, txn),
        snap.own != txn,
        forall|x: u64|
            x != txn.0 ==> (#[trigger] n.txns.contains_key(x) <==> m.txns.contains_key(x)),
        forall|x: u64|
            x != txn.0 && #[trigger] m.txns.contains_key(x) ==> n.txns[x].status
                == m.txns[x].status,
        n.txns.contains_key(txn.0),
        n.txns[txn.0].status == TxnStatus::InProgress,
        m.tables.contains_key(t),
        m.tables[t].rows.contains_key(id),
        0 <= i < m.tables[t].rows[id].len(),
    ensures
        ({
            let v = m.tables[t].rows[id][i];
            snap.visible(v.xmin, v.xmax, n.st()) == snap.visible(v.xmin, v.xmax, m.st())
        }),
        !snap.settled(txn, status_of(n.st(), txn)),
{
    let v = m.tables[t].rows[id][i];
    assert forall|x: TxnId| x != txn implies #[trigger] status_of(n.st(), x) == status_of(
        m.st(),
        x,
    ) by {
        assert(n.txns.contains_key(x.0) <==> m.txns.contains_key(x.0));
    }
    if m.txns.contains_key(txn.0) {
        assert(status_of(n.st(), txn) == status_of(m.st(), txn));
    }
}

/// An insert changes nothing of what other transactions see, until it is committed: for a
/// snapshot of another transaction every row of every table reads as before.
pub proof fn law_insert_is_hidden_from_others(
    m: StorageModel,
    txn: TxnId,
    table: TableId,
    data: Seq<ValueModel>,
    snap: Snapshot,
    t: TableId,
    id: RowId,
)
    requires
        m.wf(),
        m.has_table(table),
        m.has_table(t),
        running_or_new(m, txn),
        snap.own != txn,
    ensures
        m.inserted(txn, table, data).seen(snap, t, id) == m.seen(snap, t, id),
{
    let n = m.inserted(txn, table, data);
    let key = t.0 as u64;
    let fresh = m.table(table).next_row_id;
    let rows = m.table(t).rows;
    if t == table && id.0 == fresh {
        assert(!rows.contains_key(fresh)) by {
            assert(m.tables.contains_key(key));
        }
        let chain = n.table(t).rows[id.0];
        assert(n.txns[txn.0].status == TxnStatus::InProgress);
        assert(status_of(n.st(), txn) == TxnStatus::InProgress);
        lemma_none_is_seen(chain, snap, n.st());
    } else if rows.contains_key(id.0) {
        let chain = rows[id.0];
        assert(n.table(t).rows[id.0] == chain);
        assert forall|i: int| 0 <= i < chain.len() implies snap.visible(
            (#[trigger] chain[i]).xmin,
            chain[i].xmax,
            m.st(),
        ) == snap.visible(chain[i].xmin, chain[i].xmax, n.st()) by {
            lemma_registered_view(m, n, txn, snap, key, id.0, i);
        }
        lemma_same_view(chain, chain, snap, m.st(), n.st());
    }
}

/// An update or a delete changes nothing of what other transactions see, until it is committed.
/// `data` is the new content, `None` for a delete.
pub proof fn law_write_is_hidden_from_others(
    m: StorageModel,
    txn: TxnId,
    table: TableId,
    row: RowId,
    data: Option<Seq<ValueModel>>,
    snap: Snapshot,
    t: TableId,
    id: RowId,
)
    requires
        m.wf(),
        m.has_table(table),
        m.has_table(t),
        m.table(table).rows.contains_key(row.0),
        m.table(table).rows[row.0].last().xmax is None,
        running_or_new(m, txn),
        snap.own != txn,
    ensures
        ({
            let n = match data {
                Some(d) => m.updated(txn, table, row, d),
                None => m.deleted(txn, table, row),
            };
            n.seen(snap, t, id) == m.seen(snap, t, id)
        }),
{
    let n = match data {
        Some(d) => m.updated(txn, table, row, d),
        None => m.deleted(txn, table, row),
    };
    let key = t.0 as u64;
    let rows = m.table(t).rows;
    if rows.contains_key(id.0) {
        let a = rows[id.0];
        let b = n.table(t).rows[id.0];
        assert(m.tables.contains_key(key));
        assert forall|i: int| 0 <= i < a.len() implies snap.visible(
            (#[trigger] a[i]).xmin,
            a[i].xmax,
            m.st(),
        ) == snap.visible(b[i].xmin, b[i].xmax, n.st()) && a[i].data == b[i].data by {
            lemma_registered_view(m, n, txn, snap, key, id.0, i);
        }
        if t == table && id == row {
            assert(a.len() > 0);
            lemma_registered_view(m, n, txn, snap, key, id.0, 0);
            assert forall|i: int| a.len() <= i < b.len() implies !snap.visible(
                (#[trigger] b[i]).xmin,
                b[i].xmax,
                n.st(),
            ) by {}
        } else {
            assert(b == a);
        }
        lemma_same_view(a, b, snap, m.st(), n.st());
    }
}

/// A transaction sees the row it inserts at once.
pub proof fn law_insert_is_seen_by_its_transaction(
    m: StorageModel,
    txn: TxnId,
    table: TableId,
    data: Seq<ValueModel>,
    snap: Snapshot,
)
    requires
        m.has_table(table),
        snap.own == txn,
    ensures
        m.inserted(txn, table, data).seen(snap, table, RowId(m.table(table).next_row_id)) == Some(
            data,
        ),
{
    let n = m.inserted(txn, table, data);
    let chain = n.table(table).rows[m.table(table).next_row_id];
    lemma_first_is_seen(chain, snap, n.st(), 0);
}

/// Once its transaction has committed, an inserted row is seen by every snapshot taken after.
pub proof fn law_committed_insert_is_seen(
    m: StorageModel,
    txn: TxnId,
    table: TableId,
    data: Seq<ValueModel>,
    snap: Snapshot,
)
    requires
        m.has_table(table),
        txn.0 < snap.xmax.0,
        !snap.active@.contains(txn),
    ensures
        m.inserted(txn, table, data).ended(txn, TxnStatus::Committed).seen(
            snap,
            table,
            RowId(m.table(table).next_row_id),
        ) == Some(data),
{
    let n = m.inserted(txn, table, data).ended(txn, TxnStatus::Committed);
    let chain = n.table(table).rows[m.table(table).next_row_id];
    assert(status_of(n.st(), txn) == TxnStatus::Committed);
    lemma_first_is_seen(chain, snap, n.st(), 0);
}

/// Whether a snapshot sees the last version of a row and no earlier one.
pub open spec fn sees_last(m: StorageModel, snap: Snapshot, table: TableId, id: RowId) -> bool {
    let chain = m.table(table).rows[id.0];
    &&& m.table(table).rows.contains_key(id.0)
    &&& chain.len() > 0
    &&& snap.visible(chain.last().xmin, chain.last().xmax, m.st())
    &&& forall|i: int|
        0 <= i < chain.len() - 1 ==> !snap.visible(
            (#[trigger] chain[i]).xmin,
            chain[i].xmax,
            m.st(),
        )
}

/// A transaction that sees the last version of a row sees what it writes in its place.
pub proof fn law_update_is_seen_by_its_transaction(
    m: StorageModel,
    txn: TxnId,
    table: TableId,
    id: RowId,
    data: Seq<ValueModel>,
    snap: Snapshot,
)
    requires
        m.has_table(table),
        m.txns.contains_key(txn.0) ==> m.txns[txn.0].status == TxnStatus::InProgress,
        sees_last(m, snap, table, id),
        snap.own == txn,
    ensures
        m.updated(txn, table, id, data).seen(snap, table, id) == Some(data),
{
    let n = m.updated(txn, table, id, data);
    let a = m.table(table).rows[id.0];
    let b = n.table(table).rows[id.0];
    let z = b.len() - 1;
    lemma_own_status(m, n, txn, snap);
    assert forall|i: int| 0 <= i < z implies !snap.visible((#[trigger] b[i]).xmin, b[i].xmax, n.st()) by {
        if i < a.len() - 1 {
            assert(b[i] == a[i]);
            assert(!snap.visible(a[i].xmin, a[i].xmax, m.st()));
        }
    }
    lemma_first_is_seen(b, snap, n.st(), z);
}

/// A transaction that sees the last version of a row no longer sees the row once it deleted it.
pub proof fn law_delete_is_seen_by_its_transaction(
    m: StorageModel,
    txn: TxnId,
    table: TableId,
    id: RowId,
    snap: Snapshot,
)
    requires
        m.has_table(table),
        m.txns.contains_key(txn.0) ==> m.txns[txn.0].status == TxnStatus::InProgress,
        sees_last(m, snap, table, id),
        snap.own == txn,
    ensures
        m.deleted(txn, table, id).seen(snap, table, id) is None,
{
    let n = m.deleted(txn, table, id);
    let a = m.table(table).rows[id.0];
    let b = n.table(table).rows[id.0];
    lemma_own_status(m, n, txn, snap);
    assert forall|i: int| 0 <= i < b.len() implies !snap.visible(
        (#[trigger] b[i]).xmin,
        b[i].xmax,
        n.st(),
    ) by {
        if i < a.len() - 1 {
            assert(b[i] == a[i]);
            assert(!snap.visible(a[i].xmin, a[i].xmax, m.st()));
        }
    }
    lemma_none_is_seen(b, snap, n.st());
}

/// Registering the reader changes nothing of what it sees.
proof fn lemma_own_status(m: StorageModel, n: StorageModel, txn: TxnId, snap: Snapshot)
    requires
        snap.own == txn,
        forall|x: u64|
            x != txn.0 ==> (#[trigger] n.txns.contains_key(x) <==> m.txns.contains_key(x)),
        forall|x: u64|
            x != txn.0 && #[trigger] m.txns.contains_key(x) ==> n.txns[x].status
                == m.txns[x].status,
    ensures
        forall|x: TxnId, y: Option<TxnId>| #[trigger]
            snap.visible(x, y, n.st()) == snap.visible(x, y, m.st()),
{
    assert forall|x: TxnId| x != txn implies #[trigger] status_of(n.st(), x) == status_of(
        m.st(),
        x,
    ) by {
        assert(n.txns.contains_key(x.0) <==> m.txns.contains_key(x.0));
    }
}

/// What an aborted transaction wrote is never seen: no snapshot but its own sees a version it
/// created, nor is any version hidden because it replaced or deleted it.
pub proof fn law_aborted_write_is_never_seen(
    snap: Snapshot,
    st: Map<u64, TxnStatus>,
    txn: TxnId,
    xmin: TxnId,
    xmax: Option<TxnId>,
)
    requires
        status_of(st, txn) == TxnStatus::Aborted,
        snap.own != txn,
    ensures
        !snap.visible(txn, xmax, st),
        snap.visible(xmin, Some(txn), st) == snap.visible(xmin, None, st),
{
}

/// At most one version of a chain is visible, for a snapshot that settles the writer of a version
/// whenever it settles the writer of a later one. Each version but the last must be hidden by the
/// creator of the next.
pub proof fn law_at_most_one_version_is_seen(
    chain: Seq<VersionModel>,
    snap: Snapshot,
    st: Map<u64, TxnStatus>,
    i: int,
    j: int,
)
    requires
        0 <= i < j < chain.len(),
        forall|k: int| 0 <= k < chain.len() - 1 ==> hidden_by_next(chain, k),
        forall|a: int, b: int|
            0 <= a < b < chain.len() && snap.settled(
                (#[trigger] chain[b]).xmin,
                status_of(st, chain[b].xmin),
            ) ==> snap.settled((#[trigger] chain[a]).xmin, status_of(st, chain[a].xmin)),
        snap.visible(chain[j].xmin, chain[j].xmax, st),
    ensures
        !snap.visible(chain[i].xmin, chain[i].xmax, st),
{
    assert(hidden_by_next(chain, i));
    if i + 1 < j {
        assert(snap.settled(chain[j].xmin, status_of(st, chain[j].xmin)));
        assert(snap.settled(chain[i + 1].xmin, status_of(st, chain[i + 1].xmin)));
    }
}

/// Whether the version `k` of a chain was replaced by the creator of the next one.
pub open spec fn hidden_by_next(chain: Seq<VersionModel>, k: int) -> bool {
    chain[k].xmax == Some(chain[k + 1].xmin)
}

/// A prefix of no value designates every key: a point of it is the whole index.
pub proof fn law_empty_point_is_the_whole_index(order: Seq<Column>, key: Seq<ValueModel>)
    ensures
        in_range(order, key, KeyRangeModel::Point(Seq::empty())) == in_range(
            order,
            key,
            KeyRangeModel::Full,
        ),
{
    assert(key_relation(order, key, Seq::empty()) == Relation::Equal);
}

/// An identifier a row took is new to its table, and neither an undo nor a vacuum brings a counter
/// back: it is never handed out twice.
pub proof fn law_row_ids_are_not_reused(
    m: StorageModel,
    txn: TxnId,
    table: TableId,
    data: Seq<ValueModel>,
)
    requires
        m.wf(),
        m.has_table(table),
        m.has_room(table),
    ensures
        !m.table(table).rows.contains_key(m.table(table).next_row_id),
        m.inserted(txn, table, data).table(table).next_row_id == m.table(table).next_row_id + 1,
        forall|x: TxnId, writes: Seq<UndoEntry>|
            (#[trigger] m.all_undone(x, writes)).table(table).next_row_id == m.table(
                table,
            ).next_row_id && m.all_undone(x, writes).table(table).next_seq == m.table(
                table,
            ).next_seq,
        forall|h: TxnId|
            (#[trigger] m.vacuumed(h)).table(table).next_row_id == m.table(table).next_row_id
                && m.vacuumed(h).table(table).next_seq == m.table(table).next_seq,
{
    assert(m.tables.contains_key(table.0 as u64));
    assert forall|x: TxnId, writes: Seq<UndoEntry>|
        (#[trigger] m.all_undone(x, writes)).table(table).next_row_id == m.table(table).next_row_id
            && m.all_undone(x, writes).table(table).next_seq == m.table(table).next_seq by {
        lemma_undo_keeps_counters(m, x, writes, table);
    }
}

/// Undoing leaves the counters of a table.
pub proof fn lemma_undo_keeps_counters(
    m: StorageModel,
    txn: TxnId,
    writes: Seq<UndoEntry>,
    table: TableId,
)
    requires
        m.has_table(table),
    ensures
        m.all_undone(txn, writes).has_table(table),
        m.all_undone(txn, writes).table(table).next_row_id == m.table(table).next_row_id,
        m.all_undone(txn, writes).table(table).next_seq == m.table(table).next_seq,
    decreases writes.len(),
{
    if writes.len() > 0 && !m.undo_fails(txn, writes.last()) {
        lemma_undo_keeps_counters(
            m.undone(txn, writes.last()),
            txn,
            writes.drop_last(),
            table,
        );
    }
}

/// Whether two storages hold the same rows and the same index entries, whatever their counters and
/// their logs.
pub open spec fn same_data(a: StorageModel, b: StorageModel) -> bool {
    &&& a.tables.dom() == b.tables.dom()
    &&& forall|t: u64| #[trigger]
        a.tables.contains_key(t) ==> a.tables[t].rows == b.tables[t].rows
    &&& a.indexes == b.indexes
}

/// Taking the entry of a new version out again gives the entries back.
proof fn lemma_entry_taken_back(
    m: StorageModel,
    k: u64,
    table: TableId,
    row: RowId,
    data: Seq<ValueModel>,
    gone: Set<(RowId, usize)>,
)
    requires
        m.wf(),
        m.indexes.contains_key(k),
        m.indexes[k].table == table,
        forall|p: (RowId, usize)| #[trigger]
            gone.contains(p) <==> p == (row, m.table(table).next_seq),
    ensures
        ({
            let ix = m.indexes[k];
            entries_without(
                with_entry(ix.order, ix.entries, entry_for(ix, row, data, m.table(table).next_seq)),
                gone,
            ) == ix.entries
        }),
{
    let ix = m.indexes[k];
    let t = m.table(table);
    let e = entry_for(ix, row, data, t.next_seq);
    let p = slot(ix.order, ix.entries, e) as int;
    lemma_slot_bound(ix.order, ix.entries, e);
    let s = ix.entries.insert(p, e);
    let pred = |x: EntryModel| !gone.contains((x.row, x.version));
    assert(m.tables.contains_key(table.0 as u64));
    assert forall|i: int| 0 <= i < s.len() && i != p implies pred(#[trigger] s[i]) by {
        let o = if i < p {
            i
        } else {
            i - 1
        };
        assert(s[i] == ix.entries[o]);
        lemma_entry_is_older(m, k, o);
    }
    assert(s[p] == e);
    assert(!pred(s[p]));
    lemma_filter_one(s, pred, p);
    assert(s.remove(p) =~= ix.entries);
}

/// An entry belongs within the entries or at their end.
proof fn lemma_slot_bound(order: Seq<Column>, entries: Seq<EntryModel>, e: EntryModel)
    ensures
        slot(order, entries, e) <= entries.len(),
    decreases entries.len(),
{
    if entries.len() > 0 {
        lemma_slot_bound(order, entries.drop_last(), e);
    }
}

/// An entry names a version whose serial was handed out.
proof fn lemma_entry_is_older(m: StorageModel, k: u64, i: int)
    requires
        m.wf(),
        m.indexes.contains_key(k),
        0 <= i < m.indexes[k].entries.len(),
    ensures
        m.indexes[k].entries[i].version < m.table(m.indexes[k].table).next_seq,
{
    let ix = m.indexes[k];
    let t = m.table(ix.table);
    let e = ix.entries[i];
    assert(entries_match(ix, t.rows));
    assert(super::index::version_at(t.rows, e.row, e.version) is Some);
    lemma_chain_found(t.rows[e.row.0], e.version);
    assert(m.tables.contains_key(ix.table.0 as u64));
    assert(t.rows.contains_key(e.row.0));
}

/// Undoing an insert at once gives the rows and the index entries back.
pub proof fn law_undo_takes_an_insert_back(
    m: StorageModel,
    txn: TxnId,
    table: TableId,
    data: Seq<ValueModel>,
)
    requires
        m.wf(),
        m.has_table(table),
    ensures
        ({
            let row = RowId(m.table(table).next_row_id);
            same_data(
                m.inserted(txn, table, data).undone(txn, UndoEntry::Insert { table, row }),
                m,
            )
        }),
{
    let t = m.table(table);
    let row = RowId(t.next_row_id);
    let n = m.inserted(txn, table, data);
    let b = n.undone(txn, UndoEntry::Insert { table, row });
    assert(m.tables.contains_key(table.0 as u64));
    assert(!t.rows.contains_key(row.0));
    assert(t.rows.insert(row.0, n.table(table).rows[row.0]).remove(row.0) =~= t.rows);
    let gone = chain_names(row, n.table(table).rows[row.0]);
    assert forall|p: (RowId, usize)| #[trigger] gone.contains(p) <==> p == (row, t.next_seq) by {
        assert(n.table(table).rows[row.0][0].seq == t.next_seq);
    }
    lemma_indexes_taken_back(m, table, row, data, gone);
    assert(b.tables.dom() =~= m.tables.dom());
    assert forall|k: u64| #[trigger] b.tables.contains_key(k) implies b.tables[k].rows
        == m.tables[k].rows by {}
}

/// The indexes of a table are back once the entries of a new version are taken out.
proof fn lemma_indexes_taken_back(
    m: StorageModel,
    table: TableId,
    row: RowId,
    data: Seq<ValueModel>,
    gone: Set<(RowId, usize)>,
)
    requires
        m.wf(),
        m.has_table(table),
        forall|p: (RowId, usize)| #[trigger]
            gone.contains(p) <==> p == (row, m.table(table).next_seq),
    ensures
        indexes_without(
            indexes_with(m.indexes, table, row, data, m.table(table).next_seq),
            table,
            gone,
        ) == m.indexes,
{
    let with = indexes_with(m.indexes, table, row, data, m.table(table).next_seq);
    let back = indexes_without(with, table, gone);
    assert forall|k: u64| #[trigger] m.indexes.contains_key(k) implies back[k] == m.indexes[k] by {
        if m.indexes[k].table == table {
            lemma_entry_taken_back(m, k, table, row, data, gone);
            assert(back[k] =~= m.indexes[k]);
        }
    }
    assert(back =~= m.indexes);
}

/// Undoing an update at once gives the rows and the index entries back.
pub proof fn law_undo_takes_an_update_back(
    m: StorageModel,
    txn: TxnId,
    table: TableId,
    row: RowId,
    data: Seq<ValueModel>,
)
    requires
        m.wf(),
        m.has_table(table),
        m.table(table).rows.contains_key(row.0),
        m.table(table).rows[row.0].last().xmax is None,
    ensures
        !m.updated(txn, table, row, data).undo_fails(txn, UndoEntry::Update { table, row }),
        same_data(
            m.updated(txn, table, row, data).undone(txn, UndoEntry::Update { table, row }),
            m,
        ),
{
    let t = m.table(table);
    let n = m.updated(txn, table, row, data);
    let b = n.undone(txn, UndoEntry::Update { table, row });
    assert(m.tables.contains_key(table.0 as u64));
    let a = t.rows[row.0];
    let c = n.table(table).rows[row.0];
    assert(a.len() > 0);
    assert(c.drop_last() =~= super::table::set_last_xmax(a, Some(txn)));
    assert(super::table::update_undone(c) =~= a) by {
        assert(a.last().with_xmax(Some(txn)).with_xmax(None) =~= a.last());
    }
    assert(t.rows.insert(row.0, c).insert(row.0, a) =~= t.rows);
    let gone = set![(row, c.last().seq)];
    assert(c.last().seq == t.next_seq);
    lemma_indexes_taken_back(m, table, row, data, gone);
    assert(b.tables.dom() =~= m.tables.dom());
    assert forall|k: u64| #[trigger] b.tables.contains_key(k) implies b.tables[k].rows
        == m.tables[k].rows by {}
}

/// Undoing a delete at once gives the rows back.
pub proof fn law_undo_takes_a_delete_back(
    m: StorageModel,
    txn: TxnId,
    table: TableId,
    row: RowId,
)
    requires
        m.wf(),
        m.has_table(table),
        m.table(table).rows.contains_key(row.0),
        m.table(table).rows[row.0].last().xmax is None,
    ensures
        !m.deleted(txn, table, row).undo_fails(txn, UndoEntry::Delete { table, row }),
        same_data(
            m.deleted(txn, table, row).undone(txn, UndoEntry::Delete { table, row }),
            m,
        ),
{
    let t = m.table(table);
    let n = m.deleted(txn, table, row);
    let b = n.undone(txn, UndoEntry::Delete { table, row });
    assert(m.tables.contains_key(table.0 as u64));
    let a = t.rows[row.0];
    let c = n.table(table).rows[row.0];
    assert(a.len() > 0);
    assert(super::table::set_last_xmax(c, None) =~= a) by {
        assert(a.last().with_xmax(Some(txn)).with_xmax(None) =~= a.last());
    }
    assert(t.rows.insert(row.0, c).insert(row.0, a) =~= t.rows);
    assert(b.tables.dom() =~= m.tables.dom());
    assert forall|k: u64| #[trigger] b.tables.contains_key(k) implies b.tables[k].rows
        == m.tables[k].rows by {}
}

/// A rollback to a savepoint taken just now undoes nothing.
pub proof fn law_fresh_savepoint_undoes_nothing(m: StorageModel, txn: TxnId)
    requires
        m.wf(),
        !m.finished(txn),
        m.writes_of(txn).len() <= usize::MAX,
    ensures
        ({
            let n = m.saved(txn);
            let last = n.txns[txn.0].savepoints.len() - 1;
            &&& n.savepoint_at(txn, SavepointId(m.next_savepoint_id), last)
            &&& n.writes_after(txn, last).len() == 0
            &&& n.all_undone(txn, n.writes_after(txn, last)) == n
        }),
{
}

/// Whether a snapshot may still be read once the storage was vacuumed up to `horizon`: the horizon
/// is not past its lower end, no transaction below that end was active when it was taken, and its
/// own transaction did not roll back.
pub open spec fn outlives(m: StorageModel, snap: Snapshot, horizon: TxnId) -> bool {
    &&& horizon.0 <= snap.xmin.0 <= snap.xmax.0
    &&& forall|t: TxnId| #[trigger] snap.active@.contains(t) ==> t.0 >= snap.xmin.0
    &&& status_of(m.st(), snap.own) != TxnStatus::Aborted
}

/// Whether no version carries the mark of a transaction that rolled back: a rollback takes its
/// marks away.
pub open spec fn marks_stand(chain: Seq<VersionModel>, st: Map<u64, TxnStatus>) -> bool {
    forall|i: int|
        0 <= i < chain.len() && (#[trigger] chain[i]).xmax is Some ==> status_of(
            st,
            chain[i].xmax->0,
        ) != TxnStatus::Aborted
}

/// A vacuum changes nothing of what a snapshot at or past its horizon sees.
pub proof fn law_vacuum_keeps_what_is_seen(
    m: StorageModel,
    horizon: TxnId,
    snap: Snapshot,
    t: TableId,
    id: RowId,
)
    requires
        m.wf(),
        m.has_table(t),
        outlives(m, snap, horizon),
        marks_stand(m.table(t).rows[id.0], m.st()),
    ensures
        m.vacuumed(horizon).seen(snap, t, id) == m.seen(snap, t, id),
{
    let n = m.vacuumed(horizon);
    let key = t.0 as u64;
    let rows = m.table(t).rows;
    assert(m.tables.contains_key(key));
    assert(n.tables[key].rows == super::table::vacuumed(rows, horizon, m.st()));
    if rows.contains_key(id.0) {
        let a = rows[id.0];
        let b = survivors(a, horizon, m.st());
        lemma_survivors_view(m, n, horizon, snap, a);
        if b.len() == 0 {
            assert(!n.table(t).rows.contains_key(id.0));
        }
    }
}

/// The survivors of a chain look like the chain.
proof fn lemma_survivors_view(
    m: StorageModel,
    n: StorageModel,
    horizon: TxnId,
    snap: Snapshot,
    chain: Seq<VersionModel>,
)
    requires
        n == m.vacuumed(horizon),
        outlives(m, snap, horizon),
        marks_stand(chain, m.st()),
    ensures
        content_seen(survivors(chain, horizon, m.st()), snap, n.st()) == content_seen(
            chain,
            snap,
            m.st(),
        ),
    decreases chain.len(),
{
    let pred = |v: VersionModel| !v.dead(horizon, m.st());
    if chain.len() == 0 {
        reveal(Seq::filter);
        assert(survivors(chain, horizon, m.st()) =~= Seq::empty());
    } else {
        let v = chain[0];
        let rest = chain.drop_first();
        assert forall|i: int| 0 <= i < rest.len() && (#[trigger] rest[i]).xmax is Some implies
            status_of(m.st(), rest[i].xmax->0) != TxnStatus::Aborted by {
            assert(rest[i] == chain[i + 1]);
        }
        lemma_survivors_view(m, n, horizon, snap, rest);
        assert(chain =~= seq![v] + rest);
        Seq::filter_distributes_over_add(seq![v], rest, pred);
        assert(seq![v].filter(pred) =~= if pred(v) {
            seq![v]
        } else {
            Seq::empty()
        }) by {
            reveal(Seq::filter);
            assert(seq![v].drop_last() =~= Seq::<VersionModel>::empty());
            assert(Seq::<VersionModel>::empty().filter(pred) =~= Seq::empty());
        }
        let out = survivors(chain, horizon, m.st());
        let tail = survivors(rest, horizon, m.st());
        if pred(v) {
            assert(out =~= seq![v] + tail);
            assert(out.drop_first() =~= tail);
            lemma_pruned_view(m, n, horizon, snap, v);
        } else {
            assert(out =~= tail);
            assert(!snap.visible(v.xmin, v.xmax, m.st()));
        }
    }
}

/// Forgetting the transactions that ended below the horizon changes nothing of whether a version
/// that survives is seen.
pub proof fn lemma_pruned_view(
    m: StorageModel,
    n: StorageModel,
    horizon: TxnId,
    snap: Snapshot,
    v: VersionModel,
)
    requires
        n == m.vacuumed(horizon),
        outlives(m, snap, horizon),
        !v.dead(horizon, m.st()),
        v.xmax matches Some(x) ==> status_of(m.st(), x) != TxnStatus::Aborted,
    ensures
        snap.visible(v.xmin, v.xmax, n.st()) == snap.visible(v.xmin, v.xmax, m.st()),
{
    assert forall|x: TxnId| #[trigger]
        status_of(m.st(), x) != TxnStatus::Aborted implies status_of(n.st(), x) == status_of(
        m.st(),
        x,
    ) by {}
}

/// A `unique` index never takes the key of a live row: where a write is accepted, no live version
/// of another row holds the key of the new one in any `unique` index of the table, `NULL` equal to
/// `NULL`.
pub proof fn law_accepted_write_is_unique(
    m: StorageModel,
    txn: TxnId,
    table: TableId,
    data: Seq<ValueModel>,
    replacing: Option<RowId>,
    k: u64,
    i: int,
)
    requires
        m.accepted(txn, table, data, replacing),
        m.index_on(k, table),
        m.indexes[k].shape.unique,
        0 <= i < m.indexes[k].entries.len(),
        Some(m.indexes[k].entries[i].row) != replacing,
        super::index::live_entry(
            m.table(m.indexes[k].table).rows,
            m.indexes[k].entries[i],
            Some(txn),
            m.st(),
        ),
    ensures
        key_relation(
            m.indexes[k].order,
            m.indexes[k].entries[i].key,
            key_in(m.indexes[k].order, data),
        ) != Relation::Equal,
{
    assert(m.index_accepts(k, txn, data, replacing));
}

} // verus!
