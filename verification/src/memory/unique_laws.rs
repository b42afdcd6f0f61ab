//! A `unique` index of a table in memory: no two rows with the same key are live in it, whoever wrote
//! them, and a row is refused for the key of another row alone.

use vstd::prelude::*;

use super::ddl::{built, holds_duplicate};
use super::index::{duplicated_at, live_entry, version_at, IndexModel};
use super::keeps::{lemma_chain_find, lemma_chain_found};
use super::key_order::{
    key_in, key_relation, lemma_key_relation_flips, lemma_key_relation_transitive, order_of,
};
use super::laws::law_accepted_write_is_unique;
use super::model::{chain_ok, has_entry, index_ok, table_ok, StorageModel};
use super::table::{set_last_xmax, VersionModel};
use super::txn_log::UndoEntry;
use crate::error::SqlError;
use crate::ids::{RowId, TableId, TxnId};
use crate::snapshot::{status_of, Snapshot, TxnStatus};
use crate::snapshot_laws::{law_settled_is_own_or_committed_before, taken_after};
use crate::value::{Relation, ValueModel};

verus! {

impl StorageModel {
    /// Whether a transaction rolled back.
    pub open spec fn rolled_back(self, x: TxnId) -> bool {
        self.txns.contains_key(x.0) && self.txns[x.0].status == TxnStatus::Aborted
    }

    /// Whether a transaction is still running.
    pub open spec fn running(self, x: TxnId) -> bool {
        self.txns.contains_key(x.0) && self.txns[x.0].status == TxnStatus::InProgress
    }

    /// Whether `v` is a version of the row `a` of `table`.
    pub open spec fn holds(self, table: TableId, a: u64, v: VersionModel) -> bool {
        self.table(table).rows.contains_key(a) && self.table(table).rows[a].contains(v)
    }

    /// Whether a version of a row stands: nothing took it away, and its creator has not rolled back.
    pub open spec fn stands(self, table: TableId, a: u64, v: VersionModel) -> bool {
        self.holds(table, a, v) && v.xmax is None && !self.rolled_back(v.xmin)
    }

    /// Whether a version of a row counts against the key of a row that `txn` writes: it stands, or
    /// another transaction that is still running took it away.
    pub open spec fn counts(self, table: TableId, txn: TxnId, a: u64, v: VersionModel) -> bool {
        &&& self.holds(table, a, v)
        &&& !self.rolled_back(v.xmin)
        &&& v.xmax matches Some(x) ==> x != txn && self.running(x)
    }

    /// Whether two rows of `table` hold the same key of the index `k`.
    pub open spec fn same_key(self, k: u64, a: Seq<ValueModel>, b: Seq<ValueModel>) -> bool {
        let order = order_of(
            self.indexes[k].shape.columns,
            self.table(self.indexes[k].table).shape.columns,
        );
        key_relation(order, key_in(order, a), key_in(order, b)) == Relation::Equal
    }

    /// Whether the `unique` indexes hold what they promise: no two rows hold the same key in versions
    /// that stand.
    pub open spec fn unique_keys_differ(self) -> bool {
        forall|k: u64, a: u64, b: u64, v: VersionModel, w: VersionModel|
            #![trigger self.indexes.contains_key(k), self.stands(self.indexes[k].table, a, v),
                self.stands(self.indexes[k].table, b, w)]
            self.indexes.contains_key(k) && self.indexes[k].shape.unique && a != b && self.stands(
                self.indexes[k].table,
                a,
                v,
            ) && self.stands(self.indexes[k].table, b, w) ==> !self.same_key(k, v.data, w.data)
    }
}

/// A version whose creator has not rolled back has an entry with its key in an index of its table.
proof fn lemma_entry_in(m: StorageModel, ix: IndexModel, a: u64, v: VersionModel) -> (i: int)
    requires
        m.wf(),
        m.has_table(ix.table),
        index_ok(ix, m.table(ix.table), m.st()),
        m.holds(ix.table, a, v),
        !m.rolled_back(v.xmin),
    ensures
        0 <= i < ix.entries.len(),
        ix.entries[i].row == RowId(a),
        ix.entries[i].key == key_in(ix.order, v.data),
        version_at(m.table(ix.table).rows, RowId(a), ix.entries[i].version) == Some(v),
{
    let t = m.table(ix.table);
    assert(m.tables.contains_key(ix.table.0 as u64));
    assert(table_ok(t));
    let chain = t.rows[a];
    assert(chain_ok(chain, t.shape.columns.len(), t.next_seq));
    let j = choose|j: int| 0 <= j < chain.len() && chain[j] == v;
    assert(t.rows[a][j].xmin == v.xmin);
    assert(has_entry(ix.entries, a, t.rows[a][j].seq));
    let i = choose|i: int|
        0 <= i < ix.entries.len() && (#[trigger] ix.entries[i]).row.0 == a && ix.entries[i].version
            == v.seq;
    lemma_chain_find(chain, j);
    assert(ix.entries[i].row == RowId(a));
    i
}

/// A version whose creator has not rolled back has an entry with its key in every index.
proof fn lemma_entry_of(m: StorageModel, k: u64, a: u64, v: VersionModel) -> (i: int)
    requires
        m.wf(),
        m.indexes.contains_key(k),
        m.holds(m.indexes[k].table, a, v),
        !m.rolled_back(v.xmin),
    ensures
        0 <= i < m.indexes[k].entries.len(),
        m.indexes[k].entries[i].row == RowId(a),
        m.indexes[k].entries[i].key == key_in(m.indexes[k].order, v.data),
        version_at(
            m.table(m.indexes[k].table).rows,
            RowId(a),
            m.indexes[k].entries[i].version,
        ) == Some(v),
{
    let ix = m.indexes[k];
    assert(m.tables.contains_key(ix.table.0 as u64));
    lemma_entry_in(m, ix, a, v)
}

/// Where a write is accepted, no version of another row that counts holds its key in a `unique` index:
/// neither one that stands, whether its writer committed yet or not, nor one that another running
/// transaction is about to take away.
pub proof fn law_accepted_key_is_free(
    m: StorageModel,
    table: TableId,
    txn: TxnId,
    data: Seq<ValueModel>,
    replacing: Option<RowId>,
    k: u64,
    a: u64,
    v: VersionModel,
)
    requires
        m.wf(),
        m.accepted(txn, table, data, replacing),
        m.index_on(k, table),
        m.indexes[k].shape.unique,
        m.counts(table, txn, a, v),
        replacing != Some(RowId(a)),
    ensures
        !m.same_key(k, v.data, data),
{
    let i = lemma_entry_of(m, k, a, v);
    let ix = m.indexes[k];
    assert(index_ok(ix, m.table(ix.table), m.st()));
    assert(live_entry(m.table(table).rows, ix.entries[i], Some(txn), m.st()));
    law_accepted_write_is_unique(m, txn, table, data, replacing, k, i);
}

/// A write is refused for a duplicate key only where a version of another row that counts holds that
/// key in a `unique` index, the one the error names.
pub proof fn law_refused_key_is_taken(
    m: StorageModel,
    table: TableId,
    txn: TxnId,
    data: Seq<ValueModel>,
    replacing: Option<RowId>,
    e: SqlError,
)
    requires
        m.wf(),
        m.has_table(table),
        m.refusal(txn, table, data, replacing, e),
        e is DuplicateKey,
    ensures
        e->DuplicateKey_table == table,
        exists|k: u64, a: u64, v: VersionModel|
            {
                &&& #[trigger] m.index_on(k, table)
                &&& m.indexes[k].shape.unique
                &&& e->DuplicateKey_index.0 == k as u32
                &&& #[trigger] m.counts(table, txn, a, v)
                &&& replacing != Some(RowId(a))
                &&& m.same_key(k, v.data, data)
            },
{
    let k = choose|k: u64| #[trigger]
        m.first_refusing(k, txn, table, data, replacing) && super::model::refusal_of(
            m.indexes[k],
            k,
            data,
            e,
        );
    let ix = m.indexes[k];
    let t = m.table(table);
    assert(m.tables.contains_key(table.0 as u64));
    assert(index_ok(ix, t, m.st()));
    let key = key_in(ix.order, data);
    let i = choose|i: int|
        0 <= i < ix.entries.len() && key_relation(ix.order, (#[trigger] ix.entries[i]).key, key)
            == Relation::Equal && Some(ix.entries[i].row) != replacing && live_entry(
            t.rows,
            ix.entries[i],
            Some(txn),
            m.st(),
        );
    let entry = ix.entries[i];
    let v = version_at(t.rows, entry.row, entry.version)->0;
    lemma_chain_found(t.rows[entry.row.0], entry.version);
    assert(m.counts(table, txn, entry.row.0, v));
    assert(m.same_key(k, v.data, data));
    assert(m.index_on(k, table));
}

/// A write is refused wherever a version of another row that counts holds its key in a `unique` index.
pub proof fn law_taken_key_is_refused(
    m: StorageModel,
    table: TableId,
    txn: TxnId,
    data: Seq<ValueModel>,
    replacing: Option<RowId>,
    k: u64,
    a: u64,
    v: VersionModel,
)
    requires
        m.wf(),
        m.index_on(k, table),
        m.indexes[k].shape.unique,
        m.counts(table, txn, a, v),
        replacing != Some(RowId(a)),
        m.same_key(k, v.data, data),
    ensures
        !m.accepted(txn, table, data, replacing),
{
    if m.accepted(txn, table, data, replacing) {
        law_accepted_key_is_free(m, table, txn, data, replacing, k, a, v);
    }
}

/// An update that leaves the key of every `unique` index as it was is never refused for a duplicate, in
/// a table in which the keys of the versions that count differ from row to row.
pub proof fn law_unchanged_key_is_no_duplicate(
    m: StorageModel,
    table: TableId,
    txn: TxnId,
    id: RowId,
    data: Seq<ValueModel>,
    e: SqlError,
)
    requires
        m.wf(),
        m.has_table(table),
        m.current(txn, table, id),
        !m.finished(txn),
        forall|k: u64, a: u64, b: u64, v: VersionModel, w: VersionModel|
            #![trigger m.index_on(k, table), m.counts(table, txn, a, v),
                m.counts(table, txn, b, w)]
            m.index_on(k, table) && m.indexes[k].shape.unique && a != b && m.counts(
                table,
                txn,
                a,
                v,
            ) && m.counts(table, txn, b, w) ==> !m.same_key(k, v.data, w.data),
        forall|k: u64| #[trigger]
            m.index_on(k, table) && m.indexes[k].shape.unique ==> m.same_key(
                k,
                data,
                m.table(table).rows[id.0].last().data,
            ),
        m.refusal(txn, table, data, Some(id), e),
    ensures
        !(e is DuplicateKey),
{
    if e is DuplicateKey {
        law_refused_key_is_taken(m, table, txn, data, Some(id), e);
        let (k, a, v) = choose|k: u64, a: u64, v: VersionModel|
            {
                &&& #[trigger] m.index_on(k, table)
                &&& m.indexes[k].shape.unique
                &&& e->DuplicateKey_index.0 == k as u32
                &&& #[trigger] m.counts(table, txn, a, v)
                &&& Some(id) != Some(RowId(a))
                &&& m.same_key(k, v.data, data)
            };
        let own = m.table(table).rows[id.0].last();
        assert(m.counts(table, txn, id.0, own)) by {
            assert(m.table(table).rows[id.0].contains(own));
        }
        let order = order_of(m.indexes[k].shape.columns, m.table(table).shape.columns);
        lemma_key_relation_transitive(
            order,
            key_in(order, v.data),
            key_in(order, data),
            key_in(order, own.data),
        );
        lemma_key_relation_flips(order, key_in(order, v.data), key_in(order, data));
        lemma_key_relation_flips(order, key_in(order, data), key_in(order, own.data));
        lemma_key_relation_flips(order, key_in(order, v.data), key_in(order, own.data));
        lemma_key_relation_transitive(
            order,
            key_in(order, own.data),
            key_in(order, data),
            key_in(order, v.data),
        );
        assert(m.same_key(k, v.data, own.data));
    }
}

/// A write that adds one version, of a key no other row holds, keeps the keys different.
proof fn lemma_fresh_differs(
    m: StorageModel,
    n: StorageModel,
    table: TableId,
    id: u64,
    fresh: VersionModel,
)
    requires
        m.unique_keys_differ(),
        forall|x: TxnId| #[trigger] n.rolled_back(x) == m.rolled_back(x),
        forall|k: u64| #[trigger]
            n.indexes.contains_key(k) ==> m.indexes.contains_key(k) && n.indexes[k].shape
                == m.indexes[k].shape && n.indexes[k].table == m.indexes[k].table && n.table(
                n.indexes[k].table,
            ).shape == m.table(m.indexes[k].table).shape,
        forall|t: TableId, a: u64, v: VersionModel| #[trigger]
            n.stands(t, a, v) ==> m.stands(t, a, v) || t == table && a == id && v == fresh,
        forall|k: u64, a: u64, v: VersionModel|
            #![trigger m.index_on(k, table), m.stands(table, a, v)]
            m.index_on(k, table) && m.indexes[k].shape.unique && a != id && m.stands(table, a, v)
                ==> !m.same_key(k, v.data, fresh.data),
    ensures
        n.unique_keys_differ(),
{
    assert forall|k: u64, a: u64, b: u64, v: VersionModel, w: VersionModel|
        #![trigger n.indexes.contains_key(k), n.stands(n.indexes[k].table, a, v),
            n.stands(n.indexes[k].table, b, w)]
        n.indexes.contains_key(k) && n.indexes[k].shape.unique && a != b && n.stands(
            n.indexes[k].table,
            a,
            v,
        ) && n.stands(n.indexes[k].table, b, w) implies !n.same_key(k, v.data, w.data) by {
        let t = m.indexes[k].table;
        assert(m.indexes.contains_key(k));
        assert(n.same_key(k, v.data, w.data) == m.same_key(k, v.data, w.data));
        let order = order_of(m.indexes[k].shape.columns, m.table(t).shape.columns);
        lemma_key_relation_flips(order, key_in(order, v.data), key_in(order, w.data));
        if !m.stands(t, a, v) {
            assert(m.stands(t, b, w));
            assert(m.index_on(k, table));
        } else if !m.stands(t, b, w) {
            assert(m.index_on(k, table));
        }
    }
}

/// An insert keeps the keys of the `unique` indexes different from row to row, whichever transaction
/// inserts, and whether those of the other rows are over or not.
pub proof fn law_insert_keeps_keys_different(
    m: StorageModel,
    txn: TxnId,
    table: TableId,
    data: Seq<ValueModel>,
)
    requires
        m.wf(),
        m.has_table(table),
        !m.finished(txn),
        m.accepted(txn, table, data, None),
        m.unique_keys_differ(),
    ensures
        m.inserted(txn, table, data).unique_keys_differ(),
{
    let n = m.inserted(txn, table, data);
    let t = m.table(table);
    let fresh = VersionModel { xmin: txn, xmax: None, data, seq: t.next_seq };
    assert forall|u: TableId, a: u64, v: VersionModel| #[trigger] n.stands(u, a, v) implies m.stands(
        u,
        a,
        v,
    ) || u == table && a == t.next_row_id && v == fresh by {
        assert(n.rolled_back(v.xmin) == m.rolled_back(v.xmin));
        if u.0 as u64 == table.0 as u64 {
            assert(u == table);
        }
    }
    assert forall|k: u64, a: u64, v: VersionModel|
        #![trigger m.index_on(k, table), m.stands(table, a, v)]
        m.index_on(k, table) && m.indexes[k].shape.unique && a != t.next_row_id && m.stands(
            table,
            a,
            v,
        ) implies !m.same_key(k, v.data, fresh.data) by {
        law_accepted_key_is_free(m, table, txn, data, None, k, a, v);
    }
    lemma_fresh_differs(m, n, table, t.next_row_id, fresh);
}

/// An update keeps the keys of the `unique` indexes different from row to row, whichever transaction
/// updates.
pub proof fn law_update_keeps_keys_different(
    m: StorageModel,
    txn: TxnId,
    table: TableId,
    id: RowId,
    data: Seq<ValueModel>,
)
    requires
        m.wf(),
        m.has_table(table),
        m.current(txn, table, id),
        !m.finished(txn),
        m.accepted(txn, table, data, Some(id)),
        m.unique_keys_differ(),
    ensures
        m.updated(txn, table, id, data).unique_keys_differ(),
{
    let n = m.updated(txn, table, id, data);
    let t = m.table(table);
    let chain = t.rows[id.0];
    let after = n.table(table).rows[id.0];
    let fresh = VersionModel { xmin: txn, xmax: None, data, seq: t.next_seq };
    assert forall|u: TableId, a: u64, v: VersionModel| #[trigger] n.stands(u, a, v) implies m.stands(
        u,
        a,
        v,
    ) || u == table && a == id.0 && v == fresh by {
        assert(n.rolled_back(v.xmin) == m.rolled_back(v.xmin));
        if u.0 as u64 == table.0 as u64 {
            assert(u == table);
        }
        if u == table && a == id.0 {
            let i = choose|i: int| 0 <= i < after.len() && after[i] == v;
            if i < chain.len() - 1 {
                assert(chain[i] == v);
            }
        }
    }
    assert forall|k: u64, a: u64, v: VersionModel|
        #![trigger m.index_on(k, table), m.stands(table, a, v)]
        m.index_on(k, table) && m.indexes[k].shape.unique && a != id.0 && m.stands(
            table,
            a,
            v,
        ) implies !m.same_key(k, v.data, fresh.data) by {
        law_accepted_key_is_free(m, table, txn, data, Some(id), k, a, v);
    }
    lemma_fresh_differs(m, n, table, id.0, fresh);
}

/// A `unique` index is built exactly over a table in which no two rows hold the same key in versions that
/// are live: not taken away but by a transaction still running, and of a creator that has not rolled
/// back.
pub proof fn law_unique_index_is_built_over_different_keys(
    m: StorageModel,
    ix: IndexModel,
    a: u64,
    b: u64,
    v: VersionModel,
    w: VersionModel,
)
    requires
        m.wf(),
        m.has_table(ix.table),
        built(ix, m.table(ix.table), m.st()),
        !holds_duplicate(ix, m.table(ix.table), m.st()),
        a != b,
        m.holds(ix.table, a, v),
        m.holds(ix.table, b, w),
        !m.rolled_back(v.xmin),
        !m.rolled_back(w.xmin),
        v.xmax matches Some(x) ==> m.running(x),
        w.xmax matches Some(x) ==> m.running(x),
    ensures
        ({
            let order = order_of(ix.shape.columns, m.table(ix.table).shape.columns);
            key_relation(order, key_in(order, v.data), key_in(order, w.data)) != Relation::Equal
        }),
{
    let t = m.table(ix.table);
    assert(m.tables.contains_key(ix.table.0 as u64));
    let i = lemma_entry_in(m, ix, a, v);
    let j = lemma_entry_in(m, ix, b, w);
    if key_relation(ix.order, key_in(ix.order, v.data), key_in(ix.order, w.data))
        == Relation::Equal {
        lemma_key_relation_flips(ix.order, ix.entries[j].key, ix.entries[j].key);
        assert(live_entry(t.rows, ix.entries[i], None, m.st()));
        assert(live_entry(t.rows, ix.entries[j], None, m.st()));
        assert(ix.entries[i].row != ix.entries[j].row);
        assert(duplicated_at(ix.order, ix.entries, t.rows, m.st(), j));
    }
}

/// A `unique` index is refused only over a table in which two rows hold the same key in versions that
/// are live.
pub proof fn law_unique_index_is_refused_for_equal_keys(m: StorageModel, ix: IndexModel)
    requires
        m.wf(),
        m.has_table(ix.table),
        built(ix, m.table(ix.table), m.st()),
        holds_duplicate(ix, m.table(ix.table), m.st()),
    ensures
        exists|a: u64, b: u64, v: VersionModel, w: VersionModel|
            {
                let order = order_of(ix.shape.columns, m.table(ix.table).shape.columns);
                &&& a != b
                &&& #[trigger] m.holds(ix.table, a, v)
                &&& #[trigger] m.holds(ix.table, b, w)
                &&& !m.rolled_back(v.xmin)
                &&& !m.rolled_back(w.xmin)
                &&& v.xmax matches Some(x) ==> m.running(x)
                &&& w.xmax matches Some(x) ==> m.running(x)
                &&& key_relation(order, key_in(order, v.data), key_in(order, w.data))
                    == Relation::Equal
            },
{
    let t = m.table(ix.table);
    let g = choose|g: int|
        0 <= g < ix.entries.len() && #[trigger] duplicated_at(
            ix.order,
            ix.entries,
            t.rows,
            m.st(),
            g,
        );
    let (i, j) = choose|i: int, j: int|
        0 <= i < ix.entries.len() && 0 <= j < ix.entries.len() && (#[trigger] ix.entries[i]).row != (
        #[trigger] ix.entries[j]).row && key_relation(
            ix.order,
            ix.entries[i].key,
            ix.entries[g].key,
        ) == Relation::Equal && key_relation(ix.order, ix.entries[j].key, ix.entries[g].key)
            == Relation::Equal && live_entry(t.rows, ix.entries[i], None, m.st()) && live_entry(
            t.rows,
            ix.entries[j],
            None,
            m.st(),
        );
    let a = ix.entries[i];
    let b = ix.entries[j];
    let c = ix.entries[g];
    let v = version_at(t.rows, a.row, a.version)->0;
    let w = version_at(t.rows, b.row, b.version)->0;
    lemma_chain_found(t.rows[a.row.0], a.version);
    lemma_chain_found(t.rows[b.row.0], b.version);
    lemma_key_relation_flips(ix.order, b.key, c.key);
    lemma_key_relation_flips(ix.order, a.key, c.key);
    lemma_key_relation_flips(ix.order, a.key, b.key);
    lemma_key_relation_transitive(ix.order, a.key, c.key, b.key);
    lemma_key_relation_transitive(ix.order, b.key, c.key, a.key);
    assert(m.holds(ix.table, a.row.0, v));
    assert(m.holds(ix.table, b.row.0, w));
}

impl StorageModel {
    /// Whether a version of a row may yet be the one that is left: its creator has not rolled back, and
    /// nothing took it away but perhaps a transaction that is still running.
    pub open spec fn may_stay(self, table: TableId, a: u64, v: VersionModel) -> bool {
        &&& self.holds(table, a, v)
        &&& !self.rolled_back(v.xmin)
        &&& v.xmax matches Some(x) ==> self.running(x)
    }

    /// Whether two rows share a key of a `unique` index, in versions that may stay, only where one
    /// running transaction took the one away and wrote the other: whichever way it ends, one is left.
    pub open spec fn live_keys_apart(self) -> bool {
        forall|k: u64, a: u64, b: u64, v: VersionModel, w: VersionModel|
            #![trigger self.indexes.contains_key(k), self.may_stay(self.indexes[k].table, a, v),
                self.may_stay(self.indexes[k].table, b, w)]
            self.indexes.contains_key(k) && self.indexes[k].shape.unique && a != b
                && self.may_stay(self.indexes[k].table, a, v) && self.may_stay(
                self.indexes[k].table,
                b,
                w,
            ) && self.same_key(k, v.data, w.data) ==> v.xmax == Some(w.xmin) || w.xmax == Some(
                v.xmin,
            )
    }

    /// Whether a transaction nothing is registered of took no version away.
    pub open spec fn new_took_nothing(self, txn: TxnId) -> bool {
        forall|t: TableId, a: u64, v: VersionModel| #[trigger]
            self.holds(t, a, v) && !self.txns.contains_key(txn.0) ==> v.xmax != Some(txn)
    }
}

/// Where the keys of the versions that may stay are apart, no two rows hold the same key in versions that
/// stand.
pub proof fn law_keys_apart_differ(m: StorageModel)
    requires
        m.live_keys_apart(),
    ensures
        m.unique_keys_differ(),
{
    assert forall|k: u64, a: u64, b: u64, v: VersionModel, w: VersionModel|
        #![trigger m.indexes.contains_key(k), m.stands(m.indexes[k].table, a, v),
            m.stands(m.indexes[k].table, b, w)]
        m.indexes.contains_key(k) && m.indexes[k].shape.unique && a != b && m.stands(
            m.indexes[k].table,
            a,
            v,
        ) && m.stands(m.indexes[k].table, b, w) implies !m.same_key(k, v.data, w.data) by {
        assert(m.may_stay(m.indexes[k].table, a, v) && m.may_stay(m.indexes[k].table, b, w));
    }
}

/// Whether a version of `n` comes from one of `m`: of the same creator and content, still taken away by
/// whom it was, unless that one rolled back.
spec fn comes_from(
    m: StorageModel,
    n: StorageModel,
    t: TableId,
    a: u64,
    u: VersionModel,
    v: VersionModel,
) -> bool {
    &&& m.may_stay(t, a, u)
    &&& u.data == v.data
    &&& u.xmin == v.xmin
    &&& u.xmax matches Some(x) ==> v.xmax == Some(x) || n.rolled_back(x)
}

/// What comes from versions whose keys are apart has keys that are apart, and so has one more version
/// that shares its key with none but those its own creator took away.
proof fn lemma_apart(
    m: StorageModel,
    n: StorageModel,
    table: TableId,
    id: u64,
    fresh: Option<VersionModel>,
)
    requires
        m.live_keys_apart(),
        forall|k: u64| #[trigger]
            n.indexes.contains_key(k) ==> m.indexes.contains_key(k) && n.indexes[k].shape
                == m.indexes[k].shape && n.indexes[k].table == m.indexes[k].table && n.table(
                n.indexes[k].table,
            ).shape == m.table(m.indexes[k].table).shape,
        forall|t: TableId, a: u64, v: VersionModel| #[trigger]
            n.may_stay(t, a, v) ==> t == table && a == id && fresh == Some(v) || exists|
                u: VersionModel,
            | #[trigger]
                comes_from(m, n, t, a, u, v),
        forall|k: u64, a: u64, v: VersionModel|
            #![trigger n.index_on(k, table), n.may_stay(table, a, v)]
            fresh is Some && n.index_on(k, table) && n.indexes[k].shape.unique && a != id
                && n.may_stay(table, a, v) && n.same_key(k, v.data, (fresh->0).data) ==> v.xmax
                == Some((fresh->0).xmin),
    ensures
        n.live_keys_apart(),
{
    assert forall|k: u64, a: u64, b: u64, v: VersionModel, w: VersionModel|
        #![trigger n.indexes.contains_key(k), n.may_stay(n.indexes[k].table, a, v),
            n.may_stay(n.indexes[k].table, b, w)]
        n.indexes.contains_key(k) && n.indexes[k].shape.unique && a != b && n.may_stay(
            n.indexes[k].table,
            a,
            v,
        ) && n.may_stay(n.indexes[k].table, b, w) && n.same_key(k, v.data, w.data) implies v.xmax
        == Some(w.xmin) || w.xmax == Some(v.xmin) by {
        let t = n.indexes[k].table;
        let order = order_of(n.indexes[k].shape.columns, n.table(t).shape.columns);
        lemma_key_relation_flips(order, key_in(order, v.data), key_in(order, w.data));
        assert(n.same_key(k, w.data, v.data));
        assert(n.same_key(k, v.data, w.data) == m.same_key(k, v.data, w.data));
        if t == table && a == id && fresh == Some(v) {
            assert(n.index_on(k, table));
        } else if t == table && b == id && fresh == Some(w) {
            assert(n.index_on(k, table));
        } else {
            let p = choose|u: VersionModel| #[trigger] comes_from(m, n, t, a, u, v);
            let q = choose|u: VersionModel| #[trigger] comes_from(m, n, t, b, u, w);
            assert(m.may_stay(t, a, p) && m.may_stay(t, b, q));
            assert(m.indexes.contains_key(k));
            assert(m.same_key(k, p.data, q.data));
        }
    }
}

/// An insert keeps the keys of the versions that may stay apart.
pub proof fn law_insert_keeps_live_keys_apart(
    m: StorageModel,
    txn: TxnId,
    table: TableId,
    data: Seq<ValueModel>,
)
    requires
        m.wf(),
        m.has_table(table),
        !m.finished(txn),
        m.new_took_nothing(txn),
        m.accepted(txn, table, data, None),
        m.live_keys_apart(),
    ensures
        m.inserted(txn, table, data).live_keys_apart(),
{
    let n = m.inserted(txn, table, data);
    let t = m.table(table);
    let id = t.next_row_id;
    let fresh = VersionModel { xmin: txn, xmax: None, data, seq: t.next_seq };
    assert forall|u: TableId, a: u64, v: VersionModel| #[trigger] n.may_stay(u, a, v) implies u
        == table && a == id && v == fresh || comes_from(m, n, u, a, v, v) by {
        if u.0 as u64 == table.0 as u64 {
            assert(u == table);
        }
        if !(u == table && a == id) {
            assert(m.holds(u, a, v));
        }
    }
    assert forall|k: u64, a: u64, v: VersionModel|
        #![trigger n.index_on(k, table), n.may_stay(table, a, v)]
        n.index_on(k, table) && n.indexes[k].shape.unique && a != id && n.may_stay(table, a, v)
            && n.same_key(k, v.data, fresh.data) implies v.xmax == Some(fresh.xmin) by {
        assert(comes_from(m, n, table, a, v, v));
        assert(m.index_on(k, table));
        if v.xmax != Some(txn) {
            assert(m.counts(table, txn, a, v));
            law_accepted_key_is_free(m, table, txn, data, None, k, a, v);
        }
    }
    lemma_apart(m, n, table, id, Some(fresh));
}

/// The version of a chain with another mark on its last version.
proof fn lemma_marked(chain: Seq<VersionModel>, x: Option<TxnId>, v: VersionModel)
    requires
        chain.len() > 0,
        set_last_xmax(chain, x).contains(v),
    ensures
        chain.contains(v) || v == chain.last().with_xmax(x),
{
    let after = set_last_xmax(chain, x);
    let i = choose|i: int| 0 <= i < after.len() && after[i] == v;
    if i < chain.len() - 1 {
        assert(chain[i] == v);
    }
}

/// An update keeps the keys of the versions that may stay apart.
pub proof fn law_update_keeps_live_keys_apart(
    m: StorageModel,
    txn: TxnId,
    table: TableId,
    id: RowId,
    data: Seq<ValueModel>,
)
    requires
        m.wf(),
        m.has_table(table),
        m.current(txn, table, id),
        !m.finished(txn),
        m.new_took_nothing(txn),
        m.accepted(txn, table, data, Some(id)),
        m.live_keys_apart(),
    ensures
        m.updated(txn, table, id, data).live_keys_apart(),
{
    let n = m.updated(txn, table, id, data);
    let t = m.table(table);
    let chain = t.rows[id.0];
    let marked = set_last_xmax(chain, Some(txn));
    let fresh = VersionModel { xmin: txn, xmax: None, data, seq: t.next_seq };
    assert forall|u: TableId, a: u64, v: VersionModel| #[trigger] n.may_stay(u, a, v) implies u
        == table && a == id.0 && v == fresh || exists|w: VersionModel| #[trigger]
        comes_from(m, n, u, a, w, v) by {
        if u.0 as u64 == table.0 as u64 {
            assert(u == table);
        }
        if u == table && a == id.0 {
            let after = n.table(table).rows[id.0];
            let i = choose|i: int| 0 <= i < after.len() && after[i] == v;
            if i < marked.len() {
                assert(marked[i] == v);
                assert(marked.contains(v));
                lemma_marked(chain, Some(txn), v);
                if chain.contains(v) {
                    assert(m.holds(table, id.0, v));
                    assert(comes_from(m, n, u, a, v, v));
                } else {
                    assert(chain.contains(chain.last()));
                    assert(m.holds(table, id.0, chain.last()));
                    assert(comes_from(m, n, u, a, chain.last(), v));
                }
            }
        } else {
            assert(m.holds(u, a, v));
            assert(comes_from(m, n, u, a, v, v));
        }
    }
    assert forall|k: u64, a: u64, v: VersionModel|
        #![trigger n.index_on(k, table), n.may_stay(table, a, v)]
        n.index_on(k, table) && n.indexes[k].shape.unique && a != id.0 && n.may_stay(table, a, v)
            && n.same_key(k, v.data, fresh.data) implies v.xmax == Some(fresh.xmin) by {
        assert(m.holds(table, a, v));
        assert(m.index_on(k, table));
        if v.xmax != Some(txn) {
            assert(m.counts(table, txn, a, v));
            law_accepted_key_is_free(m, table, txn, data, Some(id), k, a, v);
        }
    }
    lemma_apart(m, n, table, id.0, Some(fresh));
}

/// A delete keeps the keys of the versions that may stay apart.
pub proof fn law_delete_keeps_live_keys_apart(
    m: StorageModel,
    txn: TxnId,
    table: TableId,
    id: RowId,
)
    requires
        m.wf(),
        m.has_table(table),
        m.current(txn, table, id),
        !m.finished(txn),
        m.new_took_nothing(txn),
        m.live_keys_apart(),
    ensures
        m.deleted(txn, table, id).live_keys_apart(),
{
    let n = m.deleted(txn, table, id);
    let chain = m.table(table).rows[id.0];
    assert forall|u: TableId, a: u64, v: VersionModel| #[trigger] n.may_stay(u, a, v) implies exists|
        w: VersionModel,
    | #[trigger] comes_from(m, n, u, a, w, v) by {
        if u.0 as u64 == table.0 as u64 {
            assert(u == table);
        }
        if u == table && a == id.0 {
            lemma_marked(chain, Some(txn), v);
            if chain.contains(v) {
                assert(m.holds(table, id.0, v));
                assert(comes_from(m, n, u, a, v, v));
            } else {
                assert(chain.contains(chain.last()));
                assert(m.holds(table, id.0, chain.last()));
                assert(comes_from(m, n, u, a, chain.last(), v));
            }
        } else {
            assert(m.holds(u, a, v));
            assert(comes_from(m, n, u, a, v, v));
        }
    }
    lemma_apart(m, n, table, id.0, None);
}

/// A commit keeps the keys of the versions that may stay apart.
pub proof fn law_commit_keeps_live_keys_apart(m: StorageModel, txn: TxnId)
    requires
        !m.finished(txn),
        m.live_keys_apart(),
    ensures
        m.ended(txn, TxnStatus::Committed).live_keys_apart(),
{
    let n = m.ended(txn, TxnStatus::Committed);
    assert forall|u: TableId, a: u64, v: VersionModel| #[trigger] n.may_stay(u, a, v) implies exists|
        w: VersionModel,
    | #[trigger] comes_from(m, n, u, a, w, v) by {
        assert(m.holds(u, a, v));
        assert(comes_from(m, n, u, a, v, v));
    }
    lemma_apart(m, n, TableId(0), 0, None);
}

/// What undoing leaves was there, perhaps taken away by the transaction whose writes are undone.
proof fn lemma_undone_from(
    m: StorageModel,
    txn: TxnId,
    ws: Seq<UndoEntry>,
    t: TableId,
    a: u64,
    v: VersionModel,
)
    requires
        m.all_undone(txn, ws).holds(t, a, v),
    ensures
        m.holds(t, a, v) || v.xmax is None && m.holds(t, a, v.with_xmax(Some(txn))),
    decreases ws.len(),
{
    if ws.len() > 0 && !m.undo_fails(txn, ws.last()) {
        let e = ws.last();
        let n = m.undone(txn, e);
        lemma_undone_from(n, txn, ws.drop_last(), t, a, v);
        lemma_one_undone_from(m, txn, e, t, a, v);
        lemma_one_undone_from(m, txn, e, t, a, v.with_xmax(Some(txn)));
        assert(v.xmax is None ==> v.with_xmax(Some(txn)).with_xmax(None) == v);
    }
}

/// What undoing one write leaves was there, perhaps taken away by its transaction.
proof fn lemma_one_undone_from(
    m: StorageModel,
    txn: TxnId,
    e: UndoEntry,
    t: TableId,
    a: u64,
    v: VersionModel,
)
    requires
        !m.undo_fails(txn, e),
    ensures
        m.undone(txn, e).holds(t, a, v) ==> m.holds(t, a, v) || v.xmax is None && m.holds(
            t,
            a,
            v.with_xmax(Some(txn)),
        ),
{
    let table = e.table();
    if m.has_table(table) && m.undone(txn, e).holds(t, a, v) && t.0 as u64 == table.0 as u64 && a
        == e.row().0 {
        assert(t == table);
        let chain = m.table(table).rows[a];
        match e {
            UndoEntry::Insert { .. } => {},
            UndoEntry::Update { .. } => {
                let short = chain.drop_last();
                lemma_marked(short, None, v);
                if short.contains(v) {
                    let i = choose|i: int| 0 <= i < short.len() && short[i] == v;
                    assert(chain[i] == v);
                } else {
                    assert(chain[chain.len() - 2] == v.with_xmax(Some(txn)));
                }
            },
            UndoEntry::Delete { .. } => {
                lemma_marked(chain, None, v);
                if !chain.contains(v) {
                    assert(chain[chain.len() - 1] == v.with_xmax(Some(txn)));
                }
            },
        }
    }
}

/// Undoing leaves the registry, the shapes of the tables and those of the indexes alone.
proof fn lemma_undone_shapes(m: StorageModel, txn: TxnId, ws: Seq<UndoEntry>)
    ensures
        ({
            let n = m.all_undone(txn, ws);
            &&& n.txns == m.txns
            &&& forall|k: u64| #[trigger]
                n.indexes.contains_key(k) ==> m.indexes.contains_key(k) && n.indexes[k].shape
                    == m.indexes[k].shape && n.indexes[k].table == m.indexes[k].table
            &&& forall|t: TableId| (#[trigger] n.table(t)).shape == m.table(t).shape
        }),
    decreases ws.len(),
{
    if ws.len() > 0 && !m.undo_fails(txn, ws.last()) {
        lemma_undone_shapes(m.undone(txn, ws.last()), txn, ws.drop_last());
        let n = m.undone(txn, ws.last());
        assert forall|t: TableId| (#[trigger] n.table(t)).shape == m.table(t).shape by {}
    }
}

/// A rollback keeps the keys of the versions that may stay apart: what it gives back clashes with nothing
/// that others wrote meanwhile.
pub proof fn law_rollback_keeps_live_keys_apart(m: StorageModel, txn: TxnId)
    requires
        !m.finished(txn),
        m.new_took_nothing(txn),
        m.live_keys_apart(),
    ensures
        m.ended(txn, TxnStatus::Aborted).all_undone(txn, m.writes_of(txn)).live_keys_apart(),
{
    let e = m.ended(txn, TxnStatus::Aborted);
    let n = e.all_undone(txn, m.writes_of(txn));
    lemma_undone_shapes(e, txn, m.writes_of(txn));
    assert forall|u: TableId, a: u64, v: VersionModel| #[trigger] n.may_stay(u, a, v) implies exists|
        w: VersionModel,
    | #[trigger] comes_from(m, n, u, a, w, v) by {
        lemma_undone_from(e, txn, m.writes_of(txn), u, a, v);
        if e.holds(u, a, v) {
            assert(m.holds(u, a, v));
            assert(comes_from(m, n, u, a, v, v));
        } else {
            let w = v.with_xmax(Some(txn));
            assert(m.holds(u, a, w));
            assert(comes_from(m, n, u, a, w, v));
        }
    }
    assert forall|k: u64| #[trigger] n.indexes.contains_key(k) implies m.indexes.contains_key(k)
        && n.indexes[k].shape == m.indexes[k].shape && n.indexes[k].table == m.indexes[k].table
        && n.table(n.indexes[k].table).shape == m.table(m.indexes[k].table).shape by {}
    lemma_apart(m, n, TableId(0), 0, None);
}

/// Whether a snapshot was taken after every transaction that committed and took a version of the table
/// away, and its reader has not rolled back.
pub open spec fn up_to_date(m: StorageModel, snap: Snapshot, table: TableId) -> bool {
    &&& !m.rolled_back(snap.own)
    &&& forall|a: u64, v: VersionModel| #[trigger]
        m.holds(table, a, v) && v.xmax is Some && (m.txns.contains_key((v.xmax->0).0)
            ==> m.txns[(v.xmax->0).0].status == TxnStatus::Committed) ==> taken_after(
            snap,
            v.xmax->0,
        )
}

/// A snapshot that is up to date never sees two rows with the same key of a `unique` index, whatever
/// transactions are running.
pub proof fn law_each_key_is_seen_once(
    m: StorageModel,
    snap: Snapshot,
    k: u64,
    a: u64,
    b: u64,
    v: VersionModel,
    w: VersionModel,
)
    requires
        m.live_keys_apart(),
        m.indexes.contains_key(k),
        m.indexes[k].shape.unique,
        up_to_date(m, snap, m.indexes[k].table),
        a != b,
        m.holds(m.indexes[k].table, a, v),
        m.holds(m.indexes[k].table, b, w),
        v.xmax matches Some(x) ==> !m.rolled_back(x),
        w.xmax matches Some(x) ==> !m.rolled_back(x),
        m.sees(snap, v),
        m.sees(snap, w),
    ensures
        !m.same_key(k, v.data, w.data),
{
    let t = m.indexes[k].table;
    lemma_seen_may_stay(m, snap, t, a, v);
    lemma_seen_may_stay(m, snap, t, b, w);
}

/// A version that is seen may stay, and who may yet take it away is not its reader and wrote nothing the
/// reader sees.
proof fn lemma_seen_may_stay(
    m: StorageModel,
    snap: Snapshot,
    table: TableId,
    a: u64,
    v: VersionModel,
)
    requires
        up_to_date(m, snap, table),
        m.holds(table, a, v),
        v.xmax matches Some(x) ==> !m.rolled_back(x),
        m.sees(snap, v),
    ensures
        m.may_stay(table, a, v),
        v.xmax matches Some(x) ==> forall|c: VersionModel| #[trigger]
            m.sees(snap, c) ==> c.xmin != x,
{
    law_settled_is_own_or_committed_before(snap, v.xmin, status_of(m.st(), v.xmin));
    if let Some(x) = v.xmax {
        law_settled_is_own_or_committed_before(snap, x, status_of(m.st(), x));
        assert forall|c: VersionModel| #[trigger] m.sees(snap, c) implies c.xmin != x by {}
    }
}

} // verus!
