//! Building an index over the versions a table already holds.

use vstd::prelude::*;

use super::ddl::{
    built, first_duplicate, first_included_outside, holds_duplicate, index_shape_error,
    index_shape_ok, indexable, versions_clash,
};
use super::index::{
    all_comparable, entries_ok, lemma_slot_parts, lemma_with_entry_ok, names, points_into, slot,
    version_at, with_entry, EntryModel, Index, IndexEntry, IndexModel,
};
use super::keeps::lemma_chain_find;
use super::key_order::{fits, key_in, keys_comparable, order_of, Column, KeyOrder};
use super::model::{chain_ok, has_entry, index_ok, table_ok};
use super::table::{Table, TableModel, Version, VersionModel};
use super::txn_log::{status_in, statuses, TxnState};
use super::MemoryStorage;
use crate::error::{bug, Bug, IdSpace, KeyKind, SqlError, SqlResult};
use crate::ids::{IndexId, RowId, TableId};
use crate::ordmap::{increasing, OrdMap};
use crate::shape::IndexShape;
use crate::snapshot::{status_of, TxnStatus};
use crate::value::Value;

verus! {

/// Whether the entries are those of the versions `done`, each named by its row and its position
/// in the chain.
spec fn holds(
    ix: IndexModel,
    rows: Map<u64, Seq<VersionModel>>,
    st: Map<u64, TxnStatus>,
    done: Set<(u64, int)>,
) -> bool {
    &&& entries_ok(ix.order, ix.entries)
    &&& forall|i: int|
        0 <= i < ix.entries.len() ==> is_held(rows, st, done, ix.order, #[trigger] ix.entries[i])
    &&& forall|id: u64, j: int|
        done.contains((id, j)) && #[trigger] indexable(rows, st, id, j) ==> has_entry(
            ix.entries,
            id,
            rows[id][j].seq,
        )
}

/// Whether `e` is the entry of the version at position `j` of its row.
spec fn entry_of(
    rows: Map<u64, Seq<VersionModel>>,
    st: Map<u64, TxnStatus>,
    done: Set<(u64, int)>,
    order: Seq<Column>,
    e: EntryModel,
    j: int,
) -> bool {
    &&& done.contains((e.row.0, j))
    &&& indexable(rows, st, e.row.0, j)
    &&& rows[e.row.0][j].seq == e.version
    &&& e.key == key_in(order, rows[e.row.0][j].data)
}

/// Whether `e` is the entry of one of the versions `done`.
spec fn is_held(
    rows: Map<u64, Seq<VersionModel>>,
    st: Map<u64, TxnStatus>,
    done: Set<(u64, int)>,
    order: Seq<Column>,
    e: EntryModel,
) -> bool {
    exists|j: int| #[trigger] entry_of(rows, st, done, order, e, j)
}

/// Adding the entry of one more version.
proof fn lemma_holds_one_more(
    ix: IndexModel,
    t: TableModel,
    st: Map<u64, TxnStatus>,
    done: Set<(u64, int)>,
    id: u64,
    j: int,
)
    requires
        table_ok(t),
        fits(ix.order, t.shape.columns.len()),
        holds(ix, t.rows, st, done),
        !done.contains((id, j)),
        indexable(t.rows, st, id, j),
        all_comparable(ix.order, ix.entries, key_in(ix.order, t.rows[id][j].data)),
    ensures
        ({
            let v = t.rows[id][j];
            let e = EntryModel { key: key_in(ix.order, v.data), row: RowId(id), version: v.seq };
            holds(
                IndexModel { entries: with_entry(ix.order, ix.entries, e), ..ix },
                t.rows,
                st,
                done.insert((id, j)),
            )
        }),
{
    let v = t.rows[id][j];
    let chain = t.rows[id];
    let e = EntryModel { key: key_in(ix.order, v.data), row: RowId(id), version: v.seq };
    let more = with_entry(ix.order, ix.entries, e);
    let now = done.insert((id, j));
    let p = slot(ix.order, ix.entries, e) as int;
    assert(chain_ok(chain, t.shape.columns.len(), t.next_seq));
    assert forall|i: int| 0 <= i < ix.entries.len() implies !names(
        #[trigger] ix.entries[i],
        e.row,
        e.version,
    ) by {
        if names(ix.entries[i], e.row, e.version) {
            assert(is_held(t.rows, st, done, ix.order, ix.entries[i]));
            let k = choose|k: int| #[trigger] entry_of(t.rows, st, done, ix.order, ix.entries[i], k);
            assert(chain[k].seq == v.seq);
            if k < j {
                assert(chain[k].seq < chain[j].seq);
            }
            if j < k {
                assert(chain[j].seq < chain[k].seq);
            }
        }
    }
    lemma_with_entry_ok(ix.order, ix.entries, e);
    lemma_slot_parts(ix.order, ix.entries, e);
    assert forall|i: int| 0 <= i < more.len() implies is_held(t.rows, st, now, ix.order, #[trigger] more[i]) by {
        if i == p {
            assert(entry_of(t.rows, st, now, ix.order, more[i], j));
        } else {
            let x = if i < p { i } else { i - 1 };
            assert(more[i] == ix.entries[x]);
            assert(is_held(t.rows, st, done, ix.order, ix.entries[x]));
            let k = choose|k: int| #[trigger] entry_of(t.rows, st, done, ix.order, ix.entries[x], k);
            assert(entry_of(t.rows, st, now, ix.order, more[i], k));
        }
    }
    assert forall|a: u64, b: int|
        now.contains((a, b)) && #[trigger] indexable(t.rows, st, a, b) implies has_entry(
        more,
        a,
        t.rows[a][b].seq,
    ) by {
        if (a, b) == (id, j) {
            assert(more[p].row.0 == a && more[p].version == t.rows[a][b].seq);
        } else {
            assert(has_entry(ix.entries, a, t.rows[a][b].seq));
            let x = choose|x: int|
                0 <= x < ix.entries.len() && (#[trigger] ix.entries[x]).row.0 == a
                    && ix.entries[x].version == t.rows[a][b].seq;
            let y = if x < p { x } else { x + 1 };
            assert(more[y] == ix.entries[x]);
        }
    }
}

/// Passing over a version a new index does not hold.
proof fn lemma_holds_skip(
    ix: IndexModel,
    rows: Map<u64, Seq<VersionModel>>,
    st: Map<u64, TxnStatus>,
    done: Set<(u64, int)>,
    id: u64,
    j: int,
)
    requires
        holds(ix, rows, st, done),
        !indexable(rows, st, id, j),
    ensures
        holds(ix, rows, st, done.insert((id, j))),
{
    let now = done.insert((id, j));
    assert forall|i: int| 0 <= i < ix.entries.len() implies is_held(
        rows,
        st,
        now,
        ix.order,
        #[trigger] ix.entries[i],
    ) by {
        assert(is_held(rows, st, done, ix.order, ix.entries[i]));
        let k = choose|k: int| #[trigger] entry_of(rows, st, done, ix.order, ix.entries[i], k);
        assert(entry_of(rows, st, now, ix.order, ix.entries[i], k));
    }
}

/// Entries that cannot take a key name a version whose key is not comparable to it.
proof fn lemma_clash(
    ix: IndexModel,
    rows: Map<u64, Seq<VersionModel>>,
    st: Map<u64, TxnStatus>,
    done: Set<(u64, int)>,
    id: u64,
    j: int,
)
    requires
        holds(ix, rows, st, done),
        indexable(rows, st, id, j),
        !all_comparable(ix.order, ix.entries, key_in(ix.order, rows[id][j].data)),
    ensures
        versions_clash(ix.order, rows, st),
{
    let i = choose|i: int|
        0 <= i < ix.entries.len() && !keys_comparable(
            ix.order,
            #[trigger] ix.entries[i].key,
            key_in(ix.order, rows[id][j].data),
        );
    assert(is_held(rows, st, done, ix.order, ix.entries[i]));
    let k = choose|k: int| #[trigger] entry_of(rows, st, done, ix.order, ix.entries[i], k);
    assert(indexable(rows, st, ix.entries[i].row.0, k));
    assert(entry_of(rows, st, done, ix.order, ix.entries[i], k));
}

/// Indexes every version of `t` whose creator has not rolled back, one entry each.
///
/// # Errors
///
/// The error of the comparison when two of them have keys that are not comparable.
fn fill(start: Index, t: &Table, txns: &OrdMap<TxnState>) -> (r: SqlResult<Index>)
    requires
        table_ok(t@),
        start@.entries.len() == 0,
        fits(start@.order, t@.shape.columns.len()),
    ensures
        match r {
            Ok(full) => {
                &&& full@ == (IndexModel { entries: full@.entries, ..start@ })
                &&& !versions_clash(start@.order, t@.rows, statuses(txns@))
                &&& holds(
                    full@,
                    t@.rows,
                    statuses(txns@),
                    Set::new(|p: (u64, int)| indexable(t@.rows, statuses(txns@), p.0, p.1)),
                )
            },
            Err(e) => versions_clash(start@.order, t@.rows, statuses(txns@)) && e
                == SqlError::IncomparableValues,
        },
{
    let ghost order = start@.order;
    let ghost blank = start@;
    let mut index: Index = start;
    let ghost rows = t@.rows;
    let ghost st = statuses(txns@);
    let ghost mut done: Set<(u64, int)> = Set::empty();
    let keys: Vec<u64> = t.rows.keys();
    for n in 0..keys.len()
        invariant
            table_ok(t@),
            rows == t@.rows,
            st == statuses(txns@),
            blank == start@,
            order == blank.order,
            fits(order, t@.shape.columns.len()),
            index@ == (IndexModel { entries: index@.entries, ..blank }),
            increasing(keys@),
            forall|k: u64| #[trigger] keys@.contains(k) <==> rows.contains_key(k),
            holds(index@, rows, st, done),
            forall|id: u64, j: int| #[trigger]
                done.contains((id, j)) <==> keys@.take(n as int).contains(id) && 0 <= j
                    < rows[id].len(),
    {
        let k: u64 = keys[n];
        let ghost before = done;
        proof {
            assert(keys@.contains(k));
            assert(chain_ok(rows[k], t@.shape.columns.len(), t@.next_seq));
            assert(!keys@.take(n as int).contains(k)) by {
                if keys@.take(n as int).contains(k) {
                    let x = keys@.take(n as int).index_of(k);
                    assert(keys@[x] < keys@[n as int]);
                }
            }
        }
        if let Some(versions) = t.rows.get(k) {
            for j in 0..versions.len()
                invariant
                    table_ok(t@),
                    rows == t@.rows,
                    st == statuses(txns@),
                    blank == start@,
                    order == blank.order,
                    fits(order, t@.shape.columns.len()),
                    index@ == (IndexModel { entries: index@.entries, ..blank }),
                    rows.contains_key(k),
                    versions.deep_view() == rows[k],
                    chain_ok(rows[k], t@.shape.columns.len(), t@.next_seq),
                    holds(index@, rows, st, done),
                    forall|j0: int| !before.contains((k, j0)),
                    forall|id: u64, i: int| #[trigger]
                        done.contains((id, i)) <==> before.contains((id, i)) || (id == k && 0 <= i
                            < j),
            {
                let v: &Version = &versions[j];
                assert(v@ == rows[k][j as int]);
                if status_in(txns, v.xmin) != TxnStatus::Aborted {
                    assert(indexable(rows, st, k, j as int));
                    assert(!done.contains((k, j as int)));
                    assert(rows[k][j as int].data.len() == t@.shape.columns.len());
                    let key: Vec<Value> = match index.order.extract(&v.data) {
                        Ok(key) => key,
                        Err(e) => {
                            assert(false);
                            return Err(e);
                        },
                    };
                    assert(key.deep_view().len() == key@.len());
                    let position: usize = match index.position_for(&key, RowId(k), v.seq) {
                        Ok(p) => p,
                        Err(e) => {
                            proof {
                                lemma_clash(index@, rows, st, done, k, j as int);
                            }
                            return Err(e);
                        },
                    };
                    proof {
                        lemma_holds_one_more(index@, t@, st, done, k, j as int);
                    }
                    index.insert_at(position, IndexEntry { key, row: RowId(k), version: v.seq });
                } else {
                    proof {
                        lemma_holds_skip(index@, rows, st, done, k, j as int);
                    }
                }
                proof {
                    done = done.insert((k, j as int));
                }
            }
        }
        proof {
            assert(keys@.take(n + 1) =~= keys@.take(n as int).push(k));
            assert forall|id: u64, j: int| #[trigger]
                done.contains((id, j)) <==> keys@.take(n + 1).contains(id) && 0 <= j
                    < rows[id].len() by {
                if keys@.take(n as int).contains(id) {
                    assert(keys@.take(n + 1)[keys@.take(n as int).index_of(id)] == id);
                }
                assert(keys@.take(n + 1)[n as int] == k);
                if keys@.take(n + 1).contains(id) && id != k {
                    assert(keys@.take(n as int)[keys@.take(n + 1).index_of(id)] == id);
                }
            }
        }
    }
    proof {
        let all = Set::new(|p: (u64, int)| indexable(rows, st, p.0, p.1));
        assert(keys@.take(keys@.len() as int) =~= keys@);
        assert forall|i: int| 0 <= i < index@.entries.len() implies is_held(
            rows,
            st,
            all,
            order,
            #[trigger] index@.entries[i],
        ) by {
            assert(is_held(rows, st, done, order, index@.entries[i]));
            let k = choose|k: int| #[trigger] entry_of(rows, st, done, order, index@.entries[i], k);
            assert(entry_of(rows, st, all, order, index@.entries[i], k));
        }
        assert forall|id: u64, j: int|
            all.contains((id, j)) && #[trigger] indexable(rows, st, id, j) implies has_entry(
            index@.entries,
            id,
            rows[id][j].seq,
        ) by {
            assert(keys@.contains(id));
            assert(done.contains((id, j)));
        }
        assert(!versions_clash(order, rows, st)) by {
            if versions_clash(order, rows, st) {
                let (a, i, b, j) = choose|a: u64, i: int, b: u64, j: int| #[trigger]
                    indexable(rows, st, a, i) && #[trigger] indexable(rows, st, b, j)
                        && !keys_comparable(
                        order,
                        key_in(order, rows[a][i].data),
                        key_in(order, rows[b][j].data),
                    );
                lemma_entry_key(index@, t@, st, a, i);
                lemma_entry_key(index@, t@, st, b, j);
                let x = choose|x: int|
                    0 <= x < index@.entries.len() && (#[trigger] index@.entries[x]).key == key_in(
                        order,
                        rows[a][i].data,
                    );
                let y = choose|y: int|
                    0 <= y < index@.entries.len() && (#[trigger] index@.entries[y]).key == key_in(
                        order,
                        rows[b][j].data,
                    );
                assert(keys_comparable(order, index@.entries[x].key, index@.entries[y].key));
            }
        }
    }
    Ok(index)
}

/// The entry of an indexed version carries its key.
proof fn lemma_entry_key(
    ix: IndexModel,
    t: TableModel,
    st: Map<u64, TxnStatus>,
    id: u64,
    j: int,
)
    requires
        table_ok(t),
        holds(
            ix,
            t.rows,
            st,
            Set::new(|p: (u64, int)| indexable(t.rows, st, p.0, p.1)),
        ),
        indexable(t.rows, st, id, j),
    ensures
        exists|x: int|
            0 <= x < ix.entries.len() && (#[trigger] ix.entries[x]).key == key_in(
                ix.order,
                t.rows[id][j].data,
            ),
{
    let all = Set::new(|p: (u64, int)| indexable(t.rows, st, p.0, p.1));
    let chain = t.rows[id];
    assert(chain_ok(chain, t.shape.columns.len(), t.next_seq));
    assert(all.contains((id, j)));
    assert(has_entry(ix.entries, id, chain[j].seq));
    let x = choose|x: int|
        0 <= x < ix.entries.len() && (#[trigger] ix.entries[x]).row.0 == id && ix.entries[x].version
            == chain[j].seq;
    assert(is_held(t.rows, st, all, ix.order, ix.entries[x]));
    let k = choose|k: int| #[trigger] entry_of(t.rows, st, all, ix.order, ix.entries[x], k);
    assert(k == j) by {
        if k < j {
            assert(chain[k].seq < chain[j].seq);
        }
        if j < k {
            assert(chain[j].seq < chain[k].seq);
        }
    }
}

/// An index filled with every version is built.
proof fn lemma_built(ix: IndexModel, t: TableModel, st: Map<u64, TxnStatus>)
    requires
        table_ok(t),
        ix.shape.columns.len() > 0,
        super::key_order::key_inside(ix.shape.columns, t.shape.columns.len()),
        ix.order == order_of(ix.shape.columns, t.shape.columns),
        holds(
            ix,
            t.rows,
            st,
            Set::new(|p: (u64, int)| indexable(t.rows, st, p.0, p.1)),
        ),
    ensures
        built(ix, t, st),
        points_into(t.rows, ix.entries),
{
    let all = Set::new(|p: (u64, int)| indexable(t.rows, st, p.0, p.1));
    assert forall|i: int| 0 <= i < ix.entries.len() implies {
        &&& version_at(t.rows, (#[trigger] ix.entries[i]).row, ix.entries[i].version) matches Some(v)
        &&& ix.entries[i].key == key_in(ix.order, v.data)
        &&& status_of(st, v.xmin) != TxnStatus::Aborted
    } by {
        let e = ix.entries[i];
        assert(is_held(t.rows, st, all, ix.order, e));
        let k = choose|k: int| #[trigger] entry_of(t.rows, st, all, ix.order, e, k);
        assert(indexable(t.rows, st, e.row.0, k));
        assert(chain_ok(t.rows[e.row.0], t.shape.columns.len(), t.next_seq));
        lemma_chain_find(t.rows[e.row.0], k);
    }
    assert forall|id: u64, j: int|
        t.rows.contains_key(id) && 0 <= j < t.rows[id].len() && status_of(
            st,
            (#[trigger] t.rows[id][j]).xmin,
        ) != TxnStatus::Aborted implies has_entry(ix.entries, id, t.rows[id][j].seq) by {
        assert(indexable(t.rows, st, id, j));
        assert(all.contains((id, j)));
    }
}

impl MemoryStorage {
    /// Creates the index `def` on `table` and answers its fresh identifier. The versions already
    /// there are indexed, but those whose creator has rolled back.
    ///
    /// # Errors
    ///
    /// A bug for an unknown table, a key that is empty or names a column outside the table, an
    /// included column outside the table, and when the identifiers are exhausted, in that order;
    /// the error of the comparison when two versions have keys that are not comparable; a
    /// duplicate key when `def` is `unique` and live versions of two rows share a key. A refused
    /// call changes nothing.
    pub fn create_index(&mut self, table: TableId, def: &IndexShape) -> (r: SqlResult<IndexId>)
        requires
            old(self)@.wf(),
        ensures
            final(self)@.wf(),
            ({
                let m = old(self)@;
                let t = m.table(table);
                let order = order_of(def@.columns, t.shape.columns);
                match r {
                    Ok(id) => {
                        &&& m.has_table(table)
                        &&& index_shape_ok(def@, t.shape.columns.len())
                        &&& m.next_index_id < u32::MAX
                        &&& !versions_clash(order, t.rows, m.st())
                        &&& id == IndexId(m.next_index_id)
                        &&& exists|entries: Seq<EntryModel>| {
                            let ix = #[trigger] m.index_of_shape(table, def@, entries);
                            &&& built(ix, t, m.st())
                            &&& !(def@.unique && holds_duplicate(ix, t, m.st()))
                            &&& final(self)@ == m.with_index(ix)
                        }
                    },
                    Err(e) => {
                        &&& final(self)@ == m
                        &&& if !m.has_table(table) {
                            e.is_bug(Bug::UnknownTable(table))
                        } else if !index_shape_ok(def@, t.shape.columns.len()) {
                            index_shape_error(def@, t.shape.columns.len(), e)
                        } else if m.next_index_id == u32::MAX {
                            e.is_bug(Bug::IdsExhausted(IdSpace::Index))
                        } else if versions_clash(order, t.rows, m.st()) {
                            e == SqlError::IncomparableValues
                        } else {
                            &&& def@.unique
                            &&& exists|entries: Seq<EntryModel>| {
                                let ix = #[trigger] m.index_of_shape(table, def@, entries);
                                &&& built(ix, t, m.st())
                                &&& e matches SqlError::DuplicateKey { table: named, index, key }
                                &&& named == table
                                &&& index == IndexId(m.next_index_id)
                                &&& first_duplicate(ix, t, m.st(), key.deep_view())
                            }
                        }
                    },
                }
            }),
    {
        let ghost m = self@;
        let t: &Table = match self.table(table) {
            Ok(t) => t,
            Err(e) => {
                return Err(e);
            },
        };
        assert(table_ok(t@));
        let order: KeyOrder = match KeyOrder::new(KeyKind::Index, &def.columns, &t.shape) {
            Ok(order) => order,
            Err(e) => {
                proof {
                    if def@.columns.len() > 0 {
                        let i = choose|i: int| #[trigger]
                            super::key_order::first_outside(
                                def@.columns,
                                t@.shape.columns.len(),
                                i,
                            );
                        assert(def@.columns[i].column >= t@.shape.columns.len());
                    }
                }
                return Err(e);
            },
        };
        let arity: usize = t.arity();
        for i in 0..def.included.len()
            invariant
                arity == t@.shape.columns.len(),
                m == old(self)@,
                self@ == m,
                m.wf(),
                m.has_table(table),
                t@ == m.table(table),
                def@.columns.len() > 0,
                super::key_order::key_inside(def@.columns, t@.shape.columns.len()),
                forall|j: int| 0 <= j < i ==> (#[trigger] def@.included[j]) < t@.shape.columns.len(),
        {
            let column: u16 = def.included[i];
            if column as usize >= arity {
                assert(first_included_outside(
                    def@.included,
                    t@.shape.columns.len(),
                    i as int,
                ));
                assert(def@.included[i as int] == column);
                return bug(Bug::IncludedColumnOutOfRange { column, columns: arity });
            }
        }
        assert(index_shape_ok(def@, t@.shape.columns.len()));
        // The id the index receives, or would have received in the duplicate-key error.
        let next: u32 = match self.next_index_id.checked_add(1) {
            Some(next) => next,
            None => {
                return bug(Bug::IdsExhausted(IdSpace::Index));
            },
        };
        let id: IndexId = IndexId(self.next_index_id);
        proof {
            assert forall|i: int| 0 <= i < order@.len() implies (#[trigger] order@[i]).position
                < t@.shape.columns.len() by {
                assert(def@.columns[i].column < t@.shape.columns.len());
            }
        }
        let blank: Index = Index::new(table, def.duplicate(), order);
        let index: Index = match fill(blank, t, &self.txns) {
            Ok(index) => index,
            Err(e) => {
                return Err(e);
            },
        };
        let ghost ix = index@;
        proof {
            lemma_built(ix, t@, m.st());
            assert(m.index_of_shape(table, def@, ix.entries) == ix);
        }
        if def.unique {
            match index.first_duplicate_key(&t.rows, &self.txns) {
                Ok(Some(key)) => {
                    assert(first_duplicate(ix, t@, m.st(), key.deep_view()));
                    return Err(SqlError::DuplicateKey { table, index: id, key });
                },
                Ok(None) => {},
                Err(e) => {
                    return Err(e);
                },
            }
        }
        self.next_index_id = next;
        self.indexes.insert(id.0 as u64, index);
        proof {
            let after = self@;
            assert(after == m.with_index(ix));
            assert forall|k: u64| #[trigger] after.indexes.contains_key(k) implies k
                < after.next_index_id && after.tables.contains_key(after.indexes[k].table.0 as u64)
                && index_ok(
                after.indexes[k],
                after.tables[after.indexes[k].table.0 as u64],
                after.st(),
            ) by {
                if k != id.0 as u64 {
                    assert(m.indexes.contains_key(k));
                }
            }
            assert(after.wf());
        }
        Ok(id)
    }
}

} // verus!
