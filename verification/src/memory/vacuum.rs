//! Discarding the versions no usable snapshot can see, and forgetting finished transactions.

use vstd::prelude::*;

use super::index::{entries_without, names_of, version_at, EntryModel, IndexModel};
use super::keeps::{
    lemma_chain_find, lemma_chain_found, lemma_index_loses, same_versions,
};
use super::model::{
    chain_ok, entries_cover, has_entry, index_ok, indexes_without, table_ok, txn_ok, StorageModel,
};
use super::table::{
    lists_dead, removed_versions, survivors, vacuumed, TableModel, Version, VersionModel,
};
use super::txn_log::{TxnModel, TxnState};
use super::{lemma_removable, remove_entries, MemoryStorage};
use crate::error::SqlResult;
use crate::ids::{RowId, TableId, TxnId};
use crate::ordmap::OrdMap;
use crate::seqs::{lemma_filter_agree, lemma_filter_elements, lemma_filter_pairwise};
use crate::snapshot::{status_of, TxnStatus};

verus! {

/// Whether an entry names a version `vacuum` discards.
pub open spec fn entry_dead(
    e: EntryModel,
    rows: Map<u64, Seq<VersionModel>>,
    horizon: TxnId,
    st: Map<u64, TxnStatus>,
) -> bool {
    version_at(rows, e.row, e.version) matches Some(v) && v.dead(horizon, st)
}

/// The entries whose version `vacuum` keeps.
pub open spec fn live_entries(
    entries: Seq<EntryModel>,
    rows: Map<u64, Seq<VersionModel>>,
    horizon: TxnId,
    st: Map<u64, TxnStatus>,
) -> Seq<EntryModel> {
    entries.filter(|e: EntryModel| !entry_dead(e, rows, horizon, st))
}

/// The versions `vacuum` discards, as index entries name them.
pub open spec fn dead_names(
    rows: Map<u64, Seq<VersionModel>>,
    horizon: TxnId,
    st: Map<u64, TxnStatus>,
) -> Set<(RowId, usize)> {
    Set::new(
        |p: (RowId, usize)|
            version_at(rows, p.0, p.1) matches Some(v) && v.dead(horizon, st),
    )
}

/// The registry without the transactions finished below the horizon.
pub open spec fn pruned(txns: Map<u64, TxnModel>, horizon: TxnId) -> Map<u64, TxnModel> {
    Map::new(
        |t: u64| txns.contains_key(t) && !(txns[t].status != TxnStatus::InProgress && t < horizon.0),
        |t: u64| txns[t],
    )
}

impl StorageModel {
    /// The tables, the ones of `done` without the versions `vacuum` discards.
    pub open spec fn vacuumed_tables(self, horizon: TxnId, done: Set<u64>) -> Map<u64, TableModel> {
        Map::new(
            |k: u64| self.tables.contains_key(k),
            |k: u64|
                if done.contains(k) {
                    self.tables[k].with_rows(vacuumed(self.tables[k].rows, horizon, self.st()))
                } else {
                    self.tables[k]
                },
        )
    }

    /// The indexes, the ones of the tables of `done` without the entries `vacuum` discards.
    pub open spec fn vacuumed_indexes(self, horizon: TxnId, done: Set<u64>) -> Map<u64, IndexModel> {
        Map::new(
            |k: u64| self.indexes.contains_key(k),
            |k: u64|
                if done.contains(self.indexes[k].table.0 as u64) {
                    IndexModel {
                        entries: live_entries(
                            self.indexes[k].entries,
                            self.table(self.indexes[k].table).rows,
                            horizon,
                            self.st(),
                        ),
                        ..self.indexes[k]
                    }
                } else {
                    self.indexes[k]
                },
        )
    }

    /// The storage after `vacuum`: the versions deleted or replaced by a committed transaction
    /// below the horizon and the ones whose creator rolled back are gone, with their index
    /// entries; the rows left with no version are gone; the transactions finished below the
    /// horizon are forgotten.
    pub open spec fn vacuumed(self, horizon: TxnId) -> StorageModel {
        StorageModel {
            tables: self.vacuumed_tables(horizon, self.tables.dom()),
            indexes: self.vacuumed_indexes(horizon, self.tables.dom()),
            txns: pruned(self.txns, horizon),
            ..self
        }
    }
}

/// The survivors of a chain are its versions that are not dead, in order.
proof fn lemma_survivors(chain: Seq<VersionModel>, horizon: TxnId, st: Map<u64, TxnStatus>)
    requires
        forall|a: int, b: int|
            0 <= a < b < chain.len() ==> (#[trigger] chain[a]).seq < (#[trigger] chain[b]).seq,
    ensures
        forall|v: VersionModel| #[trigger]
            survivors(chain, horizon, st).contains(v) <==> chain.contains(v) && !v.dead(horizon, st),
        forall|a: int, b: int|
            0 <= a < b < survivors(chain, horizon, st).len() ==> (#[trigger] survivors(
                chain,
                horizon,
                st,
            )[a]).seq < (#[trigger] survivors(chain, horizon, st)[b]).seq,
{
    let pred = |v: VersionModel| !v.dead(horizon, st);
    let rel = |a: VersionModel, b: VersionModel| a.seq < b.seq;
    lemma_filter_elements(chain, pred);
    assert forall|a: int, b: int| 0 <= a < b < chain.len() implies #[trigger] rel(chain[a], chain[b]) by {}
    lemma_filter_pairwise(chain, pred, rel);
    let alive = survivors(chain, horizon, st);
    assert forall|a: int, b: int| 0 <= a < b < alive.len() implies (#[trigger] alive[a]).seq < (
    #[trigger] alive[b]).seq by {
        assert(rel(alive[a], alive[b]));
    }
}

/// A table without its dead versions is consistent, and holds the same versions but those.
proof fn lemma_vacuumed_table(t: TableModel, horizon: TxnId, st: Map<u64, TxnStatus>)
    requires
        table_ok(t),
    ensures
        table_ok(t.with_rows(vacuumed(t.rows, horizon, st))),
        same_versions(t.rows, vacuumed(t.rows, horizon, st), dead_names(t.rows, horizon, st)),
        forall|id: u64, j: int|
            vacuumed(t.rows, horizon, st).contains_key(id) && 0 <= j < vacuumed(
                t.rows,
                horizon,
                st,
            )[id].len() ==> status_of(st, (#[trigger] vacuumed(t.rows, horizon, st)[id][j]).xmin)
                != TxnStatus::Aborted,
{
    let after = vacuumed(t.rows, horizon, st);
    let gone = dead_names(t.rows, horizon, st);
    let t2 = t.with_rows(after);
    assert forall|id: u64| #[trigger] after.contains_key(id) implies id < t2.next_row_id && chain_ok(
        after[id],
        t2.shape.columns.len(),
        t2.next_seq,
    ) by {
        assert(t.rows.contains_key(id));
        let chain = t.rows[id];
        lemma_survivors(chain, horizon, st);
        assert forall|i: int| 0 <= i < after[id].len() implies (#[trigger] after[id][i]).data.len()
            == t.shape.columns.len() && after[id][i].seq < t.next_seq by {
            assert(survivors(chain, horizon, st).contains(after[id][i]));
            assert(chain[chain.index_of(after[id][i])].seq < t.next_seq);
        }
    }
    assert forall|row: RowId, seq: usize|
        !gone.contains((row, seq)) && version_at(t.rows, row, seq) is Some implies {
        &&& #[trigger] version_at(after, row, seq) is Some
        &&& version_at(after, row, seq)->0.data == version_at(t.rows, row, seq)->0.data
    } by {
        let chain = t.rows[row.0];
        let v = version_at(t.rows, row, seq)->0;
        assert(chain_ok(chain, t.shape.columns.len(), t.next_seq));
        lemma_chain_found(chain, seq);
        lemma_survivors(chain, horizon, st);
        let alive = survivors(chain, horizon, st);
        assert(alive.contains(v));
        assert(alive.len() > 0);
        lemma_chain_find(alive, alive.index_of(v));
    }
    assert forall|id: u64, j: int| after.contains_key(id) && 0 <= j < after[id].len() implies {
        &&& !gone.contains((RowId(id), (#[trigger] after[id][j]).seq))
        &&& t.rows.contains_key(id)
        &&& exists|k: int|
            0 <= k < t.rows[id].len() && (#[trigger] t.rows[id][k]).seq == after[id][j].seq
                && t.rows[id][k].xmin == after[id][j].xmin
    } by {
        let chain = t.rows[id];
        let v = after[id][j];
        assert(chain_ok(chain, t.shape.columns.len(), t.next_seq));
        lemma_survivors(chain, horizon, st);
        assert(survivors(chain, horizon, st).contains(v));
        let k = chain.index_of(v);
        assert(chain[k] == v);
        lemma_chain_find(chain, k);
    }
    assert forall|id: u64, j: int| after.contains_key(id) && 0 <= j < after[id].len() implies status_of(
        st,
        (#[trigger] after[id][j]).xmin,
    ) != TxnStatus::Aborted by {
        let chain = t.rows[id];
        assert(chain_ok(chain, t.shape.columns.len(), t.next_seq));
        lemma_survivors(chain, horizon, st);
        assert(survivors(chain, horizon, st).contains(after[id][j]));
    }
}

/// The entries of the discarded versions are the entries `vacuum` drops.
proof fn lemma_live_entries(
    entries: Seq<EntryModel>,
    rows: Map<u64, Seq<VersionModel>>,
    horizon: TxnId,
    st: Map<u64, TxnStatus>,
)
    ensures
        entries_without(entries, dead_names(rows, horizon, st)) == live_entries(
            entries,
            rows,
            horizon,
            st,
        ),
{
    let gone = dead_names(rows, horizon, st);
    lemma_filter_agree(
        entries,
        |e: EntryModel| !gone.contains((e.row, e.version)),
        |e: EntryModel| !entry_dead(e, rows, horizon, st),
    );
}

/// A vacuum keeps the storage consistent.
pub proof fn lemma_vacuumed_wf(m: StorageModel, horizon: TxnId)
    requires
        m.wf(),
    ensures
        m.vacuumed(horizon).wf(),
{
    let after = m.vacuumed(horizon);
    assert forall|k: u64| #[trigger] after.tables.contains_key(k) implies k < after.next_table_id
        && after.databases.contains_key(after.tables[k].db.0 as u64) && table_ok(after.tables[k]) by {
        assert(m.tables.contains_key(k));
        lemma_vacuumed_table(m.tables[k], horizon, m.st());
    }
    assert forall|k: u64| #[trigger] after.indexes.contains_key(k) implies k < after.next_index_id
        && after.tables.contains_key(after.indexes[k].table.0 as u64) && index_ok(
        after.indexes[k],
        after.tables[after.indexes[k].table.0 as u64],
        after.st(),
    ) by {
        assert(m.indexes.contains_key(k));
        let ix = m.indexes[k];
        let t = m.tables[ix.table.0 as u64];
        let t2 = t.with_rows(vacuumed(t.rows, horizon, m.st()));
        assert(m.tables.contains_key(ix.table.0 as u64));
        lemma_vacuumed_table(t, horizon, m.st());
        lemma_live_entries(ix.entries, t.rows, horizon, m.st());
        lemma_index_loses(ix, t, t2, m.st(), m.st(), dead_names(t.rows, horizon, m.st()));
        let less = live_entries(ix.entries, t.rows, horizon, m.st());
        assert(entries_cover(less, t2.rows, after.st())) by {
            assert forall|id: u64, j: int|
                t2.rows.contains_key(id) && 0 <= j < t2.rows[id].len() && status_of(
                    after.st(),
                    (#[trigger] t2.rows[id][j]).xmin,
                ) != TxnStatus::Aborted implies has_entry(less, id, t2.rows[id][j].seq) by {
                assert(status_of(m.st(), t2.rows[id][j].xmin) != TxnStatus::Aborted);
            }
        }
    }
    assert forall|k: u64| #[trigger] after.txns.contains_key(k) implies txn_ok(
        after.txns[k],
        after.next_savepoint_id,
    ) by {
        assert(m.txns.contains_key(k));
    }
}

/// The names of the discarded versions of one table.
proof fn lemma_removed_names(
    t: TableModel,
    removed: Seq<(RowId, VersionModel)>,
    horizon: TxnId,
    st: Map<u64, TxnStatus>,
)
    requires
        table_ok(t),
        lists_dead(removed, t.rows, horizon, st, t.rows.dom()),
    ensures
        names_of(removed) == dead_names(t.rows, horizon, st),
        forall|i: int|
            0 <= i < removed.len() ==> t.rows.contains_key((#[trigger] removed[i]).0.0)
                && t.rows[removed[i].0.0].contains(removed[i].1),
{
    assert forall|i: int| 0 <= i < removed.len() implies t.rows.contains_key(
        (#[trigger] removed[i]).0.0,
    ) && t.rows[removed[i].0.0].contains(removed[i].1) && removed[i].1.dead(horizon, st) by {
        assert(removed.contains(removed[i]));
        assert(removed.contains((RowId(removed[i].0.0), removed[i].1)));
    }
    assert forall|p: (RowId, usize)| #[trigger] names_of(removed).contains(p) <==> dead_names(
        t.rows,
        horizon,
        st,
    ).contains(p) by {
        if names_of(removed).contains(p) {
            let i = choose|i: int|
                0 <= i < removed.len() && (#[trigger] removed[i]).0 == p.0 && removed[i].1.seq
                    == p.1;
            let chain = t.rows[p.0.0];
            assert(chain_ok(chain, t.shape.columns.len(), t.next_seq));
            lemma_chain_find(chain, chain.index_of(removed[i].1));
        }
        if dead_names(t.rows, horizon, st).contains(p) {
            let v = version_at(t.rows, p.0, p.1)->0;
            lemma_chain_found(t.rows[p.0.0], p.1);
            assert(removed.contains((RowId(p.0.0), v)));
            let i = removed.index_of((RowId(p.0.0), v));
            assert(removed[i].0 == p.0 && removed[i].1.seq == p.1);
        }
    }
    assert(names_of(removed) =~= dead_names(t.rows, horizon, st));
}

/// Dropping the entries of one more table.
proof fn lemma_one_more_table(m: StorageModel, horizon: TxnId, done: Set<u64>, table: TableId)
    requires
        m.wf(),
        m.has_table(table),
        !done.contains(table.0 as u64),
    ensures
        indexes_without(
            m.vacuumed_indexes(horizon, done),
            table,
            dead_names(m.table(table).rows, horizon, m.st()),
        ) == m.vacuumed_indexes(horizon, done.insert(table.0 as u64)),
        m.vacuumed_tables(horizon, done).insert(
            table.0 as u64,
            m.table(table).with_rows(vacuumed(m.table(table).rows, horizon, m.st())),
        ) == m.vacuumed_tables(horizon, done.insert(table.0 as u64)),
{
    let now = m.vacuumed_indexes(horizon, done);
    let gone = dead_names(m.table(table).rows, horizon, m.st());
    let a = indexes_without(now, table, gone);
    let b = m.vacuumed_indexes(horizon, done.insert(table.0 as u64));
    assert forall|k: u64| #[trigger] m.indexes.contains_key(k) implies a[k] == b[k] by {
        if m.indexes[k].table == table {
            lemma_live_entries(m.indexes[k].entries, m.table(table).rows, horizon, m.st());
        }
    }
    assert(a =~= b);
    assert(m.vacuumed_tables(horizon, done).insert(
        table.0 as u64,
        m.table(table).with_rows(vacuumed(m.table(table).rows, horizon, m.st())),
    ) =~= m.vacuumed_tables(horizon, done.insert(table.0 as u64)));
}

/// Forgets the transactions finished below the horizon.
fn prune(txns: &mut OrdMap<TxnState>, horizon: TxnId)
    ensures
        final(txns)@ == pruned(old(txns)@, horizon),
{
    let ghost before = txns@;
    let keys: Vec<u64> = txns.keys();
    assert forall|j: int| 0 <= j < keys@.len() implies txns@.contains_key(#[trigger] keys@[j]) by {
        assert(keys@.contains(keys@[j]));
    }
    for n in 0..keys.len()
        invariant
            crate::ordmap::increasing(keys@),
            forall|k: u64| #[trigger] keys@.contains(k) <==> before.contains_key(k),
            forall|k: u64| #[trigger] txns@.contains_key(k) ==> before.contains_key(k) && txns@[k]
                == before[k],
            forall|j: int|
                0 <= j < n ==> (txns@.contains_key(#[trigger] keys@[j]) <==> pruned(
                    before,
                    horizon,
                ).contains_key(keys@[j])),
            forall|j: int| n <= j < keys@.len() ==> txns@.contains_key(#[trigger] keys@[j]),
    {
        let k: u64 = keys[n];
        assert(keys@.contains(k));
        assert(txns@.contains_key(keys@[n as int]));
        let finished: bool = match txns.get(k) {
            Some(state) => state.is_finished(),
            None => false,
        };
        let ghost now = txns@;
        if finished && k < horizon.0 {
            let _gone: Option<TxnState> = txns.remove(k);
        }
        proof {
            assert forall|j: int| 0 <= j < keys@.len() && j != n implies (txns@.contains_key(
                #[trigger] keys@[j],
            ) <==> now.contains_key(keys@[j])) by {
                if j < n {
                    assert(keys@[j] < keys@[n as int]);
                } else {
                    assert(keys@[n as int] < keys@[j]);
                }
            }
        }
    }
    assert(txns@ =~= pruned(before, horizon)) by {
        assert forall|k: u64| txns@.contains_key(k) <==> #[trigger] pruned(before, horizon).contains_key(k) by {
            if before.contains_key(k) {
                assert(keys@.contains(k));
                assert(keys@[keys@.index_of(k)] == k);
            }
        }
    }
}

impl MemoryStorage {
    /// Discards what no snapshot whose `xmin` is at or above `horizon` can see: the versions
    /// deleted or replaced by a committed transaction below the horizon, the versions whose
    /// creator rolled back and the rows left with no version; then forgets the transactions
    /// finished below the horizon. Row identifiers are never reused.
    pub fn vacuum(&mut self, horizon: TxnId) -> (r: SqlResult<()>)
        requires
            old(self)@.wf(),
        ensures
            r is Ok,
            final(self)@ == old(self)@.vacuumed(horizon),
            final(self)@.wf(),
    {
        let ghost m = self@;
        let keys: Vec<u64> = self.tables.keys();
        let ghost mut done: Set<u64> = Set::empty();
        assert(self@.tables =~= m.vacuumed_tables(horizon, done));
        assert(self@.indexes =~= m.vacuumed_indexes(horizon, done));
        for n in 0..keys.len()
            invariant
                m.wf(),
                crate::ordmap::increasing(keys@),
                forall|k: u64| #[trigger] keys@.contains(k) <==> m.tables.contains_key(k),
                forall|k: u64| #[trigger] done.contains(k) <==> keys@.take(n as int).contains(k),
                self@ == (StorageModel {
                    tables: m.vacuumed_tables(horizon, done),
                    indexes: m.vacuumed_indexes(horizon, done),
                    ..m
                }),
        {
            let k: u64 = keys[n];
            proof {
                assert(keys@.contains(k));
                assert(k < m.next_table_id);
                assert(!done.contains(k)) by {
                    if keys@.take(n as int).contains(k) {
                        let j = keys@.take(n as int).index_of(k);
                        assert(keys@[j] < keys@[n as int]);
                    }
                }
            }
            let table: TableId = TableId(k as u32);
            assert(table.0 as u64 == k);
            if let Some(mut t) = self.tables.remove(k) {
                assert(t@ == m.table(table));
                assert(table_ok(m.table(table)));
                let removed: Vec<(RowId, Version)> = t.vacuum(horizon, &self.txns);
                self.tables.insert(k, t);
                proof {
                    lemma_removed_names(m.table(table), removed_versions(removed@), horizon, m.st());
                    lemma_removable(m, table, removed_versions(removed@));
                    assert forall|x: u64| #[trigger]
                        self@.indexes.contains_key(x) && self@.indexes[x].table == table implies {
                        &&& super::index::entries_ok(
                            self@.indexes[x].order,
                            self@.indexes[x].entries,
                        )
                        &&& super::index::keys_agree(
                            self@.indexes[x],
                            removed_versions(removed@),
                        )
                        &&& forall|i: int|
                            0 <= i < removed_versions(removed@).len() ==> super::key_order::fits(
                                self@.indexes[x].order,
                                (#[trigger] removed_versions(removed@)[i]).1.data.len(),
                            )
                    } by {
                        assert(m.indexes.contains_key(x));
                        assert(self@.indexes[x] == m.indexes[x]);
                    }
                    lemma_one_more_table(m, horizon, done, table);
                }
                remove_entries(&mut self.indexes, table, &removed);
                assert(self@.tables =~= m.vacuumed_tables(horizon, done.insert(k)));
            }
            proof {
                let ghost now = done.insert(k);
                assert(keys@.take(n + 1) =~= keys@.take(n as int).push(k));
                assert forall|x: u64| #[trigger] now.contains(x) <==> keys@.take(n + 1).contains(x) by {
                    if keys@.take(n as int).contains(x) {
                        assert(keys@.take(n + 1)[keys@.take(n as int).index_of(x)] == x);
                    }
                    assert(keys@.take(n + 1)[n as int] == k);
                    if keys@.take(n + 1).contains(x) && x != k {
                        assert(keys@.take(n as int)[keys@.take(n + 1).index_of(x)] == x);
                    }
                }
                done = now;
            }
        }
        proof {
            assert(keys@.take(keys@.len() as int) =~= keys@);
            assert forall|k: u64| #[trigger] m.tables.contains_key(k) implies done.contains(k) by {
                assert(keys@.contains(k));
            }
            assert(self@.tables =~= m.vacuumed_tables(horizon, m.tables.dom()));
            assert(self@.indexes =~= m.vacuumed_indexes(horizon, m.tables.dom())) by {
                assert forall|k: u64| #[trigger] m.indexes.contains_key(k) implies self@.indexes[k]
                    == m.vacuumed_indexes(horizon, m.tables.dom())[k] by {
                    assert(m.tables.contains_key(m.indexes[k].table.0 as u64));
                }
            }
            lemma_vacuumed_wf(m, horizon);
        }
        prune(&mut self.txns, horizon);
        assert(self@ == m.vacuumed(horizon));
        Ok(())
    }
}

} // verus!
