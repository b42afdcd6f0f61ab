//! Every operation keeps the contents of the storage consistent.

use vstd::prelude::*;

use super::index::{
    all_comparable, chain_find, lemma_slot_parts, lemma_with_entry_ok, entries_without,
    lemma_entries_without_ok, names, slot, version_at, with_entry, EntryModel, IndexModel,
};
use super::model::{
    chain_names, chain_ok, entry_for, has_entry, index_ok, indexes_without, log_write, registered,
    table_ok, txn_ok, StorageModel,
};
use super::table::{ends_with_update, set_last_xmax, update_undone, TableModel, VersionModel};
use super::txn_log::{statuses, TxnModel, UndoEntry};
use crate::ids::{RowId, TableId, TxnId};
use crate::seqs::lemma_filter_elements;
use crate::snapshot::{status_of, TxnStatus};
use crate::value::ValueModel;

verus! {

/// In a chain of increasing serials a version is found by its serial.
pub proof fn lemma_chain_find(chain: Seq<VersionModel>, j: int)
    requires
        0 <= j < chain.len(),
        forall|a: int, b: int|
            0 <= a < b < chain.len() ==> (#[trigger] chain[a]).seq < (#[trigger] chain[b]).seq,
    ensures
        chain_find(chain, chain[j].seq) == Some(chain[j]),
    decreases chain.len(),
{
    if j > 0 {
        assert(chain[0].seq < chain[j].seq);
        let rest = chain.drop_first();
        assert forall|a: int, b: int| 0 <= a < b < rest.len() implies (#[trigger] rest[a]).seq < (
        #[trigger] rest[b]).seq by {
            assert(chain[a + 1].seq < chain[b + 1].seq);
        }
        lemma_chain_find(rest, j - 1);
    }
}

/// What is found by its serial is a version of the chain.
pub proof fn lemma_chain_found(chain: Seq<VersionModel>, seq: usize)
    ensures
        match chain_find(chain, seq) {
            Some(v) => v.seq == seq && chain.contains(v),
            None => forall|j: int| 0 <= j < chain.len() ==> (#[trigger] chain[j]).seq != seq,
        },
    decreases chain.len(),
{
    if chain.len() > 0 {
        let rest = chain.drop_first();
        lemma_chain_found(rest, seq);
        if chain[0].seq == seq {
            assert(chain.contains(chain[0]));
        } else {
            match chain_find(rest, seq) {
                Some(v) => {
                    let j = rest.index_of(v);
                    assert(chain[j + 1] == v);
                },
                None => {
                    assert forall|j: int| 0 <= j < chain.len() implies (#[trigger] chain[j]).seq != seq by {
                        if j > 0 {
                            assert(rest[j - 1] == chain[j]);
                        }
                    }
                },
            }
        }
    }
}

/// Whether a transaction that has not rolled back under `after` had not under `before`.
pub open spec fn no_revival(before: Map<u64, TxnStatus>, after: Map<u64, TxnStatus>) -> bool {
    forall|t: TxnId|
        #[trigger] status_of(after, t) != TxnStatus::Aborted ==> status_of(before, t)
            != TxnStatus::Aborted
}

/// Whether the versions of `after` are versions of `before` that are not in `gone`, their
/// content and creator unchanged, and none but those of `gone` is missing.
pub open spec fn same_versions(
    before: Map<u64, Seq<VersionModel>>,
    after: Map<u64, Seq<VersionModel>>,
    gone: Set<(RowId, usize)>,
) -> bool {
    &&& forall|row: RowId, seq: usize|
        !gone.contains((row, seq)) && version_at(before, row, seq) is Some ==> {
            &&& #[trigger] version_at(after, row, seq) is Some
            &&& version_at(after, row, seq)->0.data == version_at(before, row, seq)->0.data
        }
    &&& forall|id: u64, j: int|
        after.contains_key(id) && 0 <= j < after[id].len() ==> {
            &&& !gone.contains((RowId(id), (#[trigger] after[id][j]).seq))
            &&& before.contains_key(id)
            &&& exists|k: int|
                0 <= k < before[id].len() && (#[trigger] before[id][k]).seq == after[id][j].seq
                    && before[id][k].xmin == after[id][j].xmin
        }
}

/// An index that drops the entries of the versions its table lost stays consistent.
pub proof fn lemma_index_loses(
    ix: IndexModel,
    t: TableModel,
    after: TableModel,
    st: Map<u64, TxnStatus>,
    st_after: Map<u64, TxnStatus>,
    gone: Set<(RowId, usize)>,
)
    requires
        index_ok(ix, t, st),
        after.shape == t.shape,
        same_versions(t.rows, after.rows, gone),
        no_revival(st, st_after),
    ensures
        index_ok(
            IndexModel { entries: entries_without(ix.entries, gone), ..ix },
            after,
            st_after,
        ),
{
    let less = entries_without(ix.entries, gone);
    let ixx = IndexModel { entries: less, ..ix };
    let pred = |e: EntryModel| !gone.contains((e.row, e.version));
    lemma_entries_without_ok(ix.order, ix.entries, gone);
    lemma_filter_elements(ix.entries, pred);
    assert forall|i: int| 0 <= i < less.len() implies {
        &&& version_at(after.rows, (#[trigger] less[i]).row, less[i].version) matches Some(v)
        &&& less[i].key == super::key_order::key_in(ix.order, v.data)
    } by {
        assert(less.contains(less[i]));
        let k = ix.entries.index_of(less[i]);
        assert(ix.entries[k] == less[i]);
        assert(version_at(t.rows, ix.entries[k].row, ix.entries[k].version) is Some);
        assert(version_at(after.rows, less[i].row, less[i].version) is Some);
    }
    assert forall|id: u64, j: int|
        after.rows.contains_key(id) && 0 <= j < after.rows[id].len() && status_of(
            st_after,
            (#[trigger] after.rows[id][j]).xmin,
        ) != TxnStatus::Aborted implies has_entry(less, id, after.rows[id][j].seq) by {
        let v = after.rows[id][j];
        let k = choose|k: int|
            0 <= k < t.rows[id].len() && (#[trigger] t.rows[id][k]).seq == v.seq
                && t.rows[id][k].xmin == v.xmin;
        assert(status_of(st, t.rows[id][k].xmin) != TxnStatus::Aborted);
        assert(has_entry(ix.entries, id, v.seq));
        let e = choose|e: int|
            0 <= e < ix.entries.len() && (#[trigger] ix.entries[e]).row.0 == id
                && ix.entries[e].version == v.seq;
        assert(ix.entries[e].row == RowId(id));
        assert(ix.entries.contains(ix.entries[e]));
        assert(less.contains(ix.entries[e]));
        let x = less.index_of(ix.entries[e]);
        assert(less[x].row.0 == id && less[x].version == v.seq);
    }
}

/// An index whose table kept its versions stays consistent.
pub proof fn lemma_index_stays(
    ix: IndexModel,
    t: TableModel,
    after: TableModel,
    st: Map<u64, TxnStatus>,
    st_after: Map<u64, TxnStatus>,
)
    requires
        index_ok(ix, t, st),
        after.shape == t.shape,
        same_versions(t.rows, after.rows, Set::empty()),
        no_revival(st, st_after),
    ensures
        index_ok(ix, after, st_after),
{
    lemma_index_loses(ix, t, after, st, st_after, Set::empty());
    crate::seqs::lemma_filter_all(
        ix.entries,
        |e: EntryModel| !Set::<(RowId, usize)>::empty().contains((e.row, e.version)),
    );
}

/// An index that takes the entry of the version its table gained stays consistent.
pub proof fn lemma_index_gains(
    ix: IndexModel,
    t: TableModel,
    after: TableModel,
    st: Map<u64, TxnStatus>,
    st_after: Map<u64, TxnStatus>,
    row: RowId,
    data: Seq<ValueModel>,
    seq: usize,
)
    requires
        index_ok(ix, t, st),
        table_ok(t),
        after.shape == t.shape,
        data.len() == t.shape.columns.len(),
        all_comparable(ix.order, ix.entries, super::key_order::key_in(ix.order, data)),
        version_at(t.rows, row, seq) is None,
        version_at(after.rows, row, seq) is Some,
        version_at(after.rows, row, seq)->0.data == data,
        forall|r: RowId, s: usize|
            version_at(t.rows, r, s) is Some ==> {
                &&& #[trigger] version_at(after.rows, r, s) is Some
                &&& version_at(after.rows, r, s)->0.data == version_at(t.rows, r, s)->0.data
            },
        forall|id: u64, j: int|
            after.rows.contains_key(id) && 0 <= j < after.rows[id].len() ==> {
                ||| RowId(id) == row && (#[trigger] after.rows[id][j]).seq == seq
                ||| t.rows.contains_key(id) && exists|k: int|
                    0 <= k < t.rows[id].len() && (#[trigger] t.rows[id][k]).seq
                        == after.rows[id][j].seq && t.rows[id][k].xmin == after.rows[id][j].xmin
            },
        no_revival(st, st_after),
    ensures
        index_ok(
            IndexModel {
                entries: with_entry(ix.order, ix.entries, entry_for(ix, row, data, seq)),
                ..ix
            },
            after,
            st_after,
        ),
{
    let e = entry_for(ix, row, data, seq);
    let more = with_entry(ix.order, ix.entries, e);
    let p = slot(ix.order, ix.entries, e) as int;
    assert forall|i: int| 0 <= i < ix.entries.len() implies !names(
        #[trigger] ix.entries[i],
        row,
        seq,
    ) by {
        assert(version_at(t.rows, ix.entries[i].row, ix.entries[i].version) is Some);
    }
    lemma_with_entry_ok(ix.order, ix.entries, e);
    lemma_slot_parts(ix.order, ix.entries, e);
    assert forall|i: int| 0 <= i < more.len() implies {
        &&& version_at(after.rows, (#[trigger] more[i]).row, more[i].version) matches Some(v)
        &&& more[i].key == super::key_order::key_in(ix.order, v.data)
    } by {
        if i != p {
            let k = if i < p { i } else { i - 1 };
            assert(more[i] == ix.entries[k]);
            assert(version_at(t.rows, ix.entries[k].row, ix.entries[k].version) is Some);
            assert(version_at(after.rows, more[i].row, more[i].version) is Some);
        }
    }
    assert forall|id: u64, j: int|
        after.rows.contains_key(id) && 0 <= j < after.rows[id].len() && status_of(
            st_after,
            (#[trigger] after.rows[id][j]).xmin,
        ) != TxnStatus::Aborted implies has_entry(more, id, after.rows[id][j].seq) by {
        let v = after.rows[id][j];
        if RowId(id) == row && v.seq == seq {
            assert(more[p].row.0 == id && more[p].version == v.seq);
        } else {
            let k = choose|k: int|
                0 <= k < t.rows[id].len() && (#[trigger] t.rows[id][k]).seq == v.seq
                    && t.rows[id][k].xmin == v.xmin;
            assert(status_of(st, t.rows[id][k].xmin) != TxnStatus::Aborted);
            assert(has_entry(ix.entries, id, v.seq));
            let x = choose|x: int|
                0 <= x < ix.entries.len() && (#[trigger] ix.entries[x]).row.0 == id
                    && ix.entries[x].version == v.seq;
            let y = if x < p { x } else { x + 1 };
            assert(more[y] == ix.entries[x]);
            assert(more[y].row.0 == id && more[y].version == v.seq);
        }
    }
}

/// Registering a transaction revives none.
pub proof fn lemma_log_write_statuses(txns: Map<u64, TxnModel>, txn: TxnId, entry: UndoEntry)
    ensures
        no_revival(statuses(txns), statuses(log_write(txns, txn, entry))),
        no_revival(statuses(txns), statuses(registered(txns, txn))),
{
    let after = statuses(log_write(txns, txn, entry));
    let known = statuses(registered(txns, txn));
    assert forall|t: TxnId| #[trigger] status_of(after, t) != TxnStatus::Aborted implies status_of(
        statuses(txns),
        t,
    ) != TxnStatus::Aborted by {}
    assert forall|t: TxnId| #[trigger] status_of(known, t) != TxnStatus::Aborted implies status_of(
        statuses(txns),
        t,
    ) != TxnStatus::Aborted by {}
}

/// Logging a write of a transaction in progress keeps the registry consistent.
pub proof fn lemma_log_write_ok(m: StorageModel, txn: TxnId, entry: UndoEntry)
    requires
        m.wf(),
        !m.finished(txn),
    ensures
        forall|k: u64| #[trigger]
            log_write(m.txns, txn, entry).contains_key(k) ==> txn_ok(
                log_write(m.txns, txn, entry)[k],
                m.next_savepoint_id,
            ),
{
    let after = log_write(m.txns, txn, entry);
    assert forall|k: u64| #[trigger] after.contains_key(k) implies txn_ok(after[k], m.next_savepoint_id) by {
        if k == txn.0 {
            let before = registered(m.txns, txn)[txn.0];
            assert(txn_ok(before, m.next_savepoint_id)) by {
                if m.txns.contains_key(txn.0) {
                    assert(txn_ok(m.txns[txn.0], m.next_savepoint_id));
                }
            }
            assert(after[k].savepoints == before.savepoints);
            assert(after[k].writes == before.writes.push(entry));
        } else {
            assert(m.txns.contains_key(k));
        }
    }
}

/// An insert that every index takes keeps the storage consistent.
pub proof fn lemma_inserted_wf(m: StorageModel, txn: TxnId, table: TableId, data: Seq<ValueModel>)
    requires
        m.wf(),
        m.has_table(table),
        m.has_room(table),
        data.len() == m.table(table).shape.columns.len(),
        !m.finished(txn),
        m.accepted(txn, table, data, None),
    ensures
        m.inserted(txn, table, data).wf(),
{
    let t = m.table(table);
    let row = RowId(t.next_row_id);
    let after = m.inserted(txn, table, data);
    let t2 = t.insert(txn, data);
    assert(table_ok(t));
    lemma_log_write_statuses(m.txns, txn, UndoEntry::Insert { table, row });
    lemma_log_write_ok(m, txn, UndoEntry::Insert { table, row });
    assert(!t.rows.contains_key(row.0));
    assert(table_ok(t2)) by {
        assert forall|id: u64| #[trigger] t2.rows.contains_key(id) implies id < t2.next_row_id
            && chain_ok(t2.rows[id], t2.shape.columns.len(), t2.next_seq) by {
            if id != row.0 {
                assert(t.rows.contains_key(id));
                assert(t2.rows[id] == t.rows[id]);
            }
        }
    }
    assert forall|k: u64| #[trigger] after.tables.contains_key(k) implies k < after.next_table_id
        && after.databases.contains_key(after.tables[k].db.0 as u64) && table_ok(after.tables[k]) by {
        if k != table.0 as u64 {
            assert(m.tables.contains_key(k));
        } else {
            assert(m.tables.contains_key(k));
        }
    }
    assert forall|k: u64| #[trigger] after.indexes.contains_key(k) implies k < after.next_index_id
        && after.tables.contains_key(after.indexes[k].table.0 as u64) && index_ok(
        after.indexes[k],
        after.tables[after.indexes[k].table.0 as u64],
        after.st(),
    ) by {
        let ix = m.indexes[k];
        assert(m.indexes.contains_key(k));
        if ix.table == table {
            assert(m.index_on(k, table));
            assert(m.index_accepts(k, txn, data, None));
            let chain = t2.rows[row.0];
            assert(chain[0].seq == t.next_seq);
            assert(chain_find(chain, t.next_seq) == Some(chain[0]));
            assert forall|r: RowId, s: usize| version_at(t.rows, r, s) is Some implies {
                &&& #[trigger] version_at(t2.rows, r, s) is Some
                &&& version_at(t2.rows, r, s)->0.data == version_at(t.rows, r, s)->0.data
            } by {
                assert(r != row);
                assert(t2.rows[r.0] == t.rows[r.0]);
            }
            assert forall|id: u64, j: int|
                t2.rows.contains_key(id) && 0 <= j < t2.rows[id].len() implies {
                ||| RowId(id) == row && (#[trigger] t2.rows[id][j]).seq == t.next_seq
                ||| t.rows.contains_key(id) && exists|k: int|
                    0 <= k < t.rows[id].len() && (#[trigger] t.rows[id][k]).seq == t2.rows[id][j].seq
                        && t.rows[id][k].xmin == t2.rows[id][j].xmin
            } by {
                if id != row.0 {
                    assert(t2.rows[id] == t.rows[id]);
                    assert(t.rows[id][j].seq == t2.rows[id][j].seq);
                }
            }
            lemma_index_gains(ix, t, t2, m.st(), after.st(), row, data, t.next_seq);
        } else {
            let u = m.tables[ix.table.0 as u64];
            assert(after.tables[ix.table.0 as u64] == u);
            lemma_same_rows(u.rows);
            lemma_index_stays(ix, u, u, m.st(), after.st());
        }
    }
}

/// Rows are the same versions as themselves.
pub proof fn lemma_same_rows(rows: Map<u64, Seq<VersionModel>>)
    ensures
        same_versions(rows, rows, Set::empty()),
{
    assert forall|id: u64, j: int| rows.contains_key(id) && 0 <= j < rows[id].len() implies {
        &&& !Set::<(RowId, usize)>::empty().contains((RowId(id), (#[trigger] rows[id][j]).seq))
        &&& rows.contains_key(id)
        &&& exists|k: int|
            0 <= k < rows[id].len() && (#[trigger] rows[id][k]).seq == rows[id][j].seq
                && rows[id][k].xmin == rows[id][j].xmin
    } by {
        assert(rows[id][j].seq == rows[id][j].seq);
    }
}

/// Writing an `xmax` on the last version of a row leaves the same versions.
pub proof fn lemma_xmax_same(t: TableModel, id: u64, xmax: Option<TxnId>)
    requires
        table_ok(t),
        t.rows.contains_key(id),
    ensures
        same_versions(
            t.rows,
            t.rows.insert(id, set_last_xmax(t.rows[id], xmax)),
            Set::empty(),
        ),
        chain_ok(set_last_xmax(t.rows[id], xmax), t.shape.columns.len(), t.next_seq),
{
    let chain = t.rows[id];
    let marked = set_last_xmax(chain, xmax);
    let rows = t.rows.insert(id, marked);
    let n = chain.len() - 1;
    assert forall|j: int| 0 <= j < chain.len() implies (#[trigger] marked[j]).seq == chain[j].seq
        && marked[j].data == chain[j].data && marked[j].xmin == chain[j].xmin by {
        if j < n {
            assert(marked[j] == chain[j]);
        }
    }
    assert forall|a: int, b: int| 0 <= a < b < marked.len() implies (#[trigger] marked[a]).seq < (
    #[trigger] marked[b]).seq by {
        assert(chain[a].seq < chain[b].seq);
    }
    assert forall|row: RowId, seq: usize| version_at(t.rows, row, seq) is Some implies {
        &&& #[trigger] version_at(rows, row, seq) is Some
        &&& version_at(rows, row, seq)->0.data == version_at(t.rows, row, seq)->0.data
    } by {
        if row.0 == id {
            lemma_chain_found(chain, seq);
            let j = chain.index_of(version_at(t.rows, row, seq)->0);
            lemma_chain_find(marked, j);
            lemma_chain_find(chain, j);
        } else {
            assert(rows[row.0] == t.rows[row.0]);
        }
    }
    assert forall|r: u64, j: int| rows.contains_key(r) && 0 <= j < rows[r].len() implies {
        &&& !Set::<(RowId, usize)>::empty().contains((RowId(r), (#[trigger] rows[r][j]).seq))
        &&& t.rows.contains_key(r)
        &&& exists|k: int|
            0 <= k < t.rows[r].len() && (#[trigger] t.rows[r][k]).seq == rows[r][j].seq
                && t.rows[r][k].xmin == rows[r][j].xmin
    } by {
        assert(t.rows[r][j].seq == rows[r][j].seq && t.rows[r][j].xmin == rows[r][j].xmin);
    }
}

/// A change of one table that keeps its versions but those of `gone`, whose entries leave its
/// indexes, keeps the storage consistent.
pub proof fn lemma_table_changes(
    m: StorageModel,
    table: TableId,
    t2: TableModel,
    gone: Set<(RowId, usize)>,
)
    requires
        m.wf(),
        m.has_table(table),
        table_ok(t2),
        t2.shape == m.table(table).shape,
        t2.db == m.table(table).db,
        same_versions(m.table(table).rows, t2.rows, gone),
    ensures
        (StorageModel {
            indexes: indexes_without(m.indexes, table, gone),
            ..m.with_table(table, t2)
        }).wf(),
{
    let after = StorageModel {
        indexes: indexes_without(m.indexes, table, gone),
        ..m.with_table(table, t2)
    };
    let t = m.table(table);
    assert(table_ok(t));
    assert forall|k: u64| #[trigger] after.tables.contains_key(k) implies k < after.next_table_id
        && after.databases.contains_key(after.tables[k].db.0 as u64) && table_ok(after.tables[k]) by {
        assert(m.tables.contains_key(k));
        assert(m.tables.contains_key(table.0 as u64));
    }
    assert forall|k: u64| #[trigger] after.indexes.contains_key(k) implies k < after.next_index_id
        && after.tables.contains_key(after.indexes[k].table.0 as u64) && index_ok(
        after.indexes[k],
        after.tables[after.indexes[k].table.0 as u64],
        after.st(),
    ) by {
        let ix = m.indexes[k];
        assert(m.indexes.contains_key(k));
        if ix.table == table {
            lemma_index_loses(ix, t, t2, m.st(), m.st(), gone);
        }
    }
    assert forall|k: u64| #[trigger] after.txns.contains_key(k) implies txn_ok(
        after.txns[k],
        after.next_savepoint_id,
    ) by {
        assert(m.txns.contains_key(k));
    }
}

/// The same, when no version leaves and the indexes stand as they are.
pub proof fn lemma_table_stays(m: StorageModel, table: TableId, t2: TableModel)
    requires
        m.wf(),
        m.has_table(table),
        table_ok(t2),
        t2.shape == m.table(table).shape,
        t2.db == m.table(table).db,
        same_versions(m.table(table).rows, t2.rows, Set::empty()),
    ensures
        m.with_table(table, t2).wf(),
{
    lemma_table_changes(m, table, t2, Set::empty());
    lemma_indexes_without_none(m.indexes, table);
}

/// Dropping no entry changes nothing.
pub proof fn lemma_indexes_without_none(indexes: Map<u64, IndexModel>, table: TableId)
    ensures
        indexes_without(indexes, table, Set::empty()) == indexes,
{
    let after = indexes_without(indexes, table, Set::empty());
    assert forall|k: u64| indexes.contains_key(k) implies #[trigger] after[k] == indexes[k] by {
        crate::seqs::lemma_filter_all(
            indexes[k].entries,
            |e: EntryModel| !Set::<(RowId, usize)>::empty().contains((e.row, e.version)),
        );
    }
    assert(after =~= indexes);
}

/// Another registry that revives no transaction keeps the storage consistent.
pub proof fn lemma_txns_change(m: StorageModel, txns: Map<u64, TxnModel>, next_savepoint_id: u64)
    requires
        m.wf(),
        no_revival(m.st(), statuses(txns)),
        forall|k: u64| #[trigger] txns.contains_key(k) ==> txn_ok(txns[k], next_savepoint_id),
    ensures
        (StorageModel { txns, next_savepoint_id, ..m }).wf(),
{
    let after = StorageModel { txns, next_savepoint_id, ..m };
    assert forall|k: u64| #[trigger] after.tables.contains_key(k) implies k < after.next_table_id
        && after.databases.contains_key(after.tables[k].db.0 as u64) && table_ok(after.tables[k]) by {
        assert(m.tables.contains_key(k));
    }
    assert forall|k: u64| #[trigger] after.indexes.contains_key(k) implies k < after.next_index_id
        && after.tables.contains_key(after.indexes[k].table.0 as u64) && index_ok(
        after.indexes[k],
        after.tables[after.indexes[k].table.0 as u64],
        after.st(),
    ) by {
        assert(m.indexes.contains_key(k));
        let u = m.tables[m.indexes[k].table.0 as u64];
        lemma_same_rows(u.rows);
        lemma_index_stays(m.indexes[k], u, u, m.st(), after.st());
    }
}

/// A savepoint keeps the storage consistent.
pub proof fn lemma_saved_wf(m: StorageModel, txn: TxnId)
    requires
        m.wf(),
        !m.finished(txn),
        m.next_savepoint_id < u64::MAX,
        m.writes_of(txn).len() <= usize::MAX,
    ensures
        m.saved(txn).wf(),
{
    let n = m.saved(txn);
    let next = n.next_savepoint_id;
    let x = registered(m.txns, txn)[txn.0];
    let y = n.txns[txn.0];
    assert(txn_ok(x, m.next_savepoint_id)) by {
        if m.txns.contains_key(txn.0) {
            assert(txn_ok(m.txns[txn.0], m.next_savepoint_id));
        }
    }
    assert forall|t: TxnId| #[trigger] status_of(n.st(), t) != TxnStatus::Aborted implies status_of(
        m.st(),
        t,
    ) != TxnStatus::Aborted by {}
    assert forall|k: u64| #[trigger] n.txns.contains_key(k) implies txn_ok(n.txns[k], next) by {
        if k != txn.0 {
            assert(m.txns.contains_key(k));
            assert(txn_ok(m.txns[k], m.next_savepoint_id));
            assert(n.txns[k] == m.txns[k]);
        } else {
            assert forall|i: int| 0 <= i < y.savepoints.len() implies (
            #[trigger] y.savepoints[i]).0.0 < next && y.savepoints[i].1 <= y.writes.len() by {
                if i < x.savepoints.len() {
                    assert(y.savepoints[i] == x.savepoints[i]);
                }
            }
            assert forall|i: int, j: int| 0 <= i < j < y.savepoints.len() implies (
            #[trigger] y.savepoints[i]).0.0 < (#[trigger] y.savepoints[j]).0.0
                && y.savepoints[i].1 <= y.savepoints[j].1 by {
                assert(y.savepoints[i] == x.savepoints[i]);
                if j < x.savepoints.len() {
                    assert(y.savepoints[j] == x.savepoints[j]);
                }
            }
        }
    }
    lemma_txns_change(m, n.txns, next);
}

/// The end of a transaction keeps the storage consistent.
pub proof fn lemma_ended_wf(m: StorageModel, txn: TxnId, status: TxnStatus)
    requires
        m.wf(),
        !m.finished(txn),
    ensures
        m.ended(txn, status).wf(),
{
    let n = m.ended(txn, status);
    assert forall|t: TxnId| #[trigger] status_of(n.st(), t) != TxnStatus::Aborted implies status_of(
        m.st(),
        t,
    ) != TxnStatus::Aborted by {}
    assert forall|k: u64| #[trigger] n.txns.contains_key(k) implies txn_ok(
        n.txns[k],
        m.next_savepoint_id,
    ) by {
        if k != txn.0 {
            assert(m.txns.contains_key(k));
        }
    }
    lemma_txns_change(m, n.txns, m.next_savepoint_id);
}

/// Cutting the log of a running transaction at one of its savepoints keeps the storage consistent.
pub proof fn lemma_cut_wf(m: StorageModel, txn: TxnId, at: int)
    requires
        m.wf(),
        m.txns.contains_key(txn.0),
        !m.finished(txn),
        0 <= at < m.txns[txn.0].savepoints.len(),
    ensures
        m.cut_at(txn, at).wf(),
{
    let n = m.cut_at(txn, at);
    let x = m.txns[txn.0];
    let y = n.txns[txn.0];
    assert(txn_ok(x, m.next_savepoint_id));
    assert forall|t: TxnId| #[trigger] status_of(n.st(), t) != TxnStatus::Aborted implies status_of(
        m.st(),
        t,
    ) != TxnStatus::Aborted by {}
    assert forall|k: u64| #[trigger] n.txns.contains_key(k) implies txn_ok(
        n.txns[k],
        m.next_savepoint_id,
    ) by {
        if k != txn.0 {
            assert(m.txns.contains_key(k));
        } else {
            assert forall|i: int| 0 <= i < y.savepoints.len() implies (
            #[trigger] y.savepoints[i]).0.0 < m.next_savepoint_id && y.savepoints[i].1
                <= y.writes.len() by {
                assert(y.savepoints[i] == x.savepoints[i]);
                if i < at {
                    assert(x.savepoints[i].1 <= x.savepoints[at].1);
                }
            }
            assert forall|i: int, j: int| 0 <= i < j < y.savepoints.len() implies (
            #[trigger] y.savepoints[i]).0.0 < (#[trigger] y.savepoints[j]).0.0
                && y.savepoints[i].1 <= y.savepoints[j].1 by {
                assert(y.savepoints[i] == x.savepoints[i] && y.savepoints[j] == x.savepoints[j]);
            }
        }
    }
    lemma_txns_change(m, n.txns, m.next_savepoint_id);
}

/// Undoing writes, up to one that cannot be, keeps the storage consistent.
pub proof fn lemma_all_undone_wf(m: StorageModel, txn: TxnId, writes: Seq<UndoEntry>)
    requires
        m.wf(),
    ensures
        m.all_undone(txn, writes).wf(),
    decreases writes.len(),
{
    if writes.len() > 0 && !m.undo_fails(txn, writes.last()) {
        lemma_undone_wf(m, txn, writes.last());
        lemma_all_undone_wf(m.undone(txn, writes.last()), txn, writes.drop_last());
    }
}

/// A delete keeps the storage consistent.
pub proof fn lemma_deleted_wf(m: StorageModel, txn: TxnId, table: TableId, id: RowId)
    requires
        m.wf(),
        m.has_table(table),
        m.table(table).rows.contains_key(id.0),
        !m.finished(txn),
    ensures
        m.deleted(txn, table, id).wf(),
{
    let t = m.table(table);
    let t2 = t.supersede(txn, id, None);
    assert(table_ok(t));
    lemma_xmax_same(t, id.0, Some(txn));
    assert(table_ok(t2)) by {
        assert forall|r: u64| #[trigger] t2.rows.contains_key(r) implies r < t2.next_row_id
            && chain_ok(t2.rows[r], t2.shape.columns.len(), t2.next_seq) by {
            assert(t.rows.contains_key(r));
        }
    }
    lemma_table_stays(m, table, t2);
    let entry = UndoEntry::Delete { table, row: id };
    lemma_log_write_statuses(m.txns, txn, entry);
    lemma_log_write_ok(m, txn, entry);
    let mid = m.with_table(table, t2);
    lemma_txns_change(mid, log_write(m.txns, txn, entry), m.next_savepoint_id);
    assert(m.deleted(txn, table, id) == (StorageModel {
        txns: log_write(m.txns, txn, entry),
        next_savepoint_id: m.next_savepoint_id,
        ..mid
    }));
}

/// An update that every index takes keeps the storage consistent.
pub proof fn lemma_updated_wf(
    m: StorageModel,
    txn: TxnId,
    table: TableId,
    id: RowId,
    data: Seq<ValueModel>,
)
    requires
        m.wf(),
        m.has_table(table),
        m.has_room(table),
        m.table(table).rows.contains_key(id.0),
        data.len() == m.table(table).shape.columns.len(),
        !m.finished(txn),
        m.accepted(txn, table, data, Some(id)),
    ensures
        m.updated(txn, table, id, data).wf(),
{
    let t = m.table(table);
    let t2 = t.supersede(txn, id, Some(data));
    let after = m.updated(txn, table, id, data);
    let chain = t.rows[id.0];
    let marked = set_last_xmax(chain, Some(txn));
    let longer = t2.rows[id.0];
    let seq = t.next_seq;
    assert(table_ok(t));
    let entry = UndoEntry::Update { table, row: id };
    lemma_log_write_statuses(m.txns, txn, entry);
    lemma_log_write_ok(m, txn, entry);
    lemma_xmax_same(t, id.0, Some(txn));
    let mid = t.rows.insert(id.0, marked);
    assert forall|j: int| 0 <= j < marked.len() implies #[trigger] longer[j] == marked[j] by {}
    assert(chain_ok(longer, t.shape.columns.len(), t2.next_seq)) by {
        assert forall|i: int| 0 <= i < longer.len() implies (#[trigger] longer[i]).data.len()
            == t.shape.columns.len() && longer[i].seq < t2.next_seq by {
            if i < marked.len() {
                assert(marked[i].seq < t.next_seq);
            }
        }
        assert forall|i: int, j: int| 0 <= i < j < longer.len() implies (#[trigger] longer[i]).seq < (
        #[trigger] longer[j]).seq by {
            if j < marked.len() {
                assert(marked[i].seq < marked[j].seq);
            } else {
                assert(marked[i].seq < t.next_seq);
            }
        }
    }
    assert(table_ok(t2)) by {
        assert forall|r: u64| #[trigger] t2.rows.contains_key(r) implies r < t2.next_row_id
            && chain_ok(t2.rows[r], t2.shape.columns.len(), t2.next_seq) by {
            assert(t.rows.contains_key(r));
            if r != id.0 {
                assert(t2.rows[r] == t.rows[r]);
            }
        }
    }
    assert(version_at(t.rows, id, seq) is None) by {
        lemma_chain_found(chain, seq);
        if let Some(v) = chain_find(chain, seq) {
            let j = chain.index_of(v);
            assert(chain[j].seq < t.next_seq);
        }
    }
    lemma_chain_find(longer, longer.len() - 1);
    assert forall|r: RowId, s: usize| version_at(t.rows, r, s) is Some implies {
        &&& #[trigger] version_at(t2.rows, r, s) is Some
        &&& version_at(t2.rows, r, s)->0.data == version_at(t.rows, r, s)->0.data
    } by {
        assert(version_at(mid, r, s) is Some);
        if r == id {
            lemma_chain_found(marked, s);
            let j = marked.index_of(version_at(mid, r, s)->0);
            assert(marked[j] == longer[j]);
            lemma_chain_find(longer, j);
        } else {
            assert(t2.rows[r.0] == t.rows[r.0]);
            assert(mid[r.0] == t.rows[r.0]);
        }
    }
    assert forall|r: u64, j: int| t2.rows.contains_key(r) && 0 <= j < t2.rows[r].len() implies {
        ||| RowId(r) == id && (#[trigger] t2.rows[r][j]).seq == seq
        ||| t.rows.contains_key(r) && exists|k: int|
            0 <= k < t.rows[r].len() && (#[trigger] t.rows[r][k]).seq == t2.rows[r][j].seq
                && t.rows[r][k].xmin == t2.rows[r][j].xmin
    } by {
        if r != id.0 {
            assert(t2.rows[r] == t.rows[r]);
            assert(t.rows[r][j].seq == t2.rows[r][j].seq);
        } else if j < marked.len() {
            assert(mid[r][j] == t2.rows[r][j]);
        }
    }
    assert forall|k: u64| #[trigger] after.tables.contains_key(k) implies k < after.next_table_id
        && after.databases.contains_key(after.tables[k].db.0 as u64) && table_ok(after.tables[k]) by {
        assert(m.tables.contains_key(k));
    }
    assert forall|k: u64| #[trigger] after.indexes.contains_key(k) implies k < after.next_index_id
        && after.tables.contains_key(after.indexes[k].table.0 as u64) && index_ok(
        after.indexes[k],
        after.tables[after.indexes[k].table.0 as u64],
        after.st(),
    ) by {
        let ix = m.indexes[k];
        assert(m.indexes.contains_key(k));
        if ix.table == table {
            assert(m.index_on(k, table));
            assert(m.index_accepts(k, txn, data, Some(id)));
            lemma_index_gains(ix, t, t2, m.st(), after.st(), id, data, seq);
        } else {
            let u = m.tables[ix.table.0 as u64];
            assert(after.tables[ix.table.0 as u64] == u);
            lemma_same_rows(u.rows);
            lemma_index_stays(ix, u, u, m.st(), after.st());
        }
    }
}

/// Undoing one write keeps the storage consistent.
pub proof fn lemma_undone_wf(m: StorageModel, txn: TxnId, entry: UndoEntry)
    requires
        m.wf(),
        !m.undo_fails(txn, entry),
    ensures
        m.undone(txn, entry).wf(),
{
    let table = entry.table();
    let row = entry.row();
    if m.has_table(table) {
        let t = m.table(table);
        assert(table_ok(t));
        match entry {
            UndoEntry::Insert { .. } => {
                if t.rows.contains_key(row.0) {
                    let t2 = t.with_rows(t.rows.remove(row.0));
                    let gone = chain_names(row, t.rows[row.0]);
                    assert(table_ok(t2)) by {
                        assert forall|r: u64| #[trigger] t2.rows.contains_key(r) implies r
                            < t2.next_row_id && chain_ok(
                            t2.rows[r],
                            t2.shape.columns.len(),
                            t2.next_seq,
                        ) by {
                            assert(t.rows.contains_key(r));
                        }
                    }
                    assert forall|r: RowId, s: usize|
                        !gone.contains((r, s)) && version_at(t.rows, r, s) is Some implies {
                        &&& #[trigger] version_at(t2.rows, r, s) is Some
                        &&& version_at(t2.rows, r, s)->0.data == version_at(t.rows, r, s)->0.data
                    } by {
                        if r == row {
                            lemma_chain_found(t.rows[row.0], s);
                            let v = version_at(t.rows, r, s)->0;
                            let j = t.rows[row.0].index_of(v);
                            assert(t.rows[row.0][j].seq == s);
                            assert(gone.contains((r, s)));
                        }
                    }
                    assert forall|r: u64, j: int|
                        t2.rows.contains_key(r) && 0 <= j < t2.rows[r].len() implies {
                        &&& !gone.contains((RowId(r), (#[trigger] t2.rows[r][j]).seq))
                        &&& t.rows.contains_key(r)
                        &&& exists|k: int|
                            0 <= k < t.rows[r].len() && (#[trigger] t.rows[r][k]).seq
                                == t2.rows[r][j].seq && t.rows[r][k].xmin == t2.rows[r][j].xmin
                    } by {
                        assert(t.rows[r][j].seq == t2.rows[r][j].seq);
                    }
                    lemma_table_changes(m, table, t2, gone);
                }
            },
            UndoEntry::Update { .. } => {
                lemma_update_undone(m, txn, table, row);
            },
            UndoEntry::Delete { .. } => {
                let t2 = t.with_rows(t.rows.insert(row.0, set_last_xmax(t.rows[row.0], None)));
                lemma_xmax_same(t, row.0, None);
                assert(table_ok(t2)) by {
                    assert forall|r: u64| #[trigger] t2.rows.contains_key(r) implies r
                        < t2.next_row_id && chain_ok(
                        t2.rows[r],
                        t2.shape.columns.len(),
                        t2.next_seq,
                    ) by {
                        assert(t.rows.contains_key(r));
                    }
                }
                lemma_table_stays(m, table, t2);
            },
        }
    }
}

proof fn lemma_update_undone(m: StorageModel, txn: TxnId, table: TableId, row: RowId)
    requires
        m.wf(),
        m.has_table(table),
        m.table(table).rows.contains_key(row.0),
        ends_with_update(m.table(table).rows[row.0], txn),
    ensures
        m.undone(txn, UndoEntry::Update { table, row }).wf(),
{
    let t = m.table(table);
    assert(table_ok(t));
    let chain = t.rows[row.0];
    let shorter = update_undone(chain);
    let last = chain.len() - 1;
    let gone = set![(row, chain[last].seq)];
    let t2 = t.with_rows(t.rows.insert(row.0, shorter));
    assert forall|j: int| 0 <= j < last implies (#[trigger] shorter[j]).seq == chain[j].seq
        && shorter[j].data == chain[j].data && shorter[j].xmin == chain[j].xmin by {
        if j < last - 1 {
            assert(shorter[j] == chain[j]);
        }
    }
    assert(chain_ok(shorter, t.shape.columns.len(), t.next_seq)) by {
        assert forall|i: int, j: int| 0 <= i < j < shorter.len() implies (#[trigger] shorter[i]).seq < (
        #[trigger] shorter[j]).seq by {
            assert(chain[i].seq < chain[j].seq);
        }
    }
    assert(table_ok(t2)) by {
        assert forall|r: u64| #[trigger] t2.rows.contains_key(r) implies r < t2.next_row_id
            && chain_ok(t2.rows[r], t2.shape.columns.len(), t2.next_seq) by {
            assert(t.rows.contains_key(r));
        }
    }
    assert forall|r: RowId, s: usize|
        !gone.contains((r, s)) && version_at(t.rows, r, s) is Some implies {
        &&& #[trigger] version_at(t2.rows, r, s) is Some
        &&& version_at(t2.rows, r, s)->0.data == version_at(t.rows, r, s)->0.data
    } by {
        if r == row {
            lemma_chain_found(chain, s);
            let j = chain.index_of(version_at(t.rows, r, s)->0);
            assert(chain[j].seq == s);
            assert(j < last);
            lemma_chain_find(shorter, j);
            lemma_chain_find(chain, j);
        } else {
            assert(t2.rows[r.0] == t.rows[r.0]);
        }
    }
    assert forall|r: u64, j: int| t2.rows.contains_key(r) && 0 <= j < t2.rows[r].len() implies {
        &&& !gone.contains((RowId(r), (#[trigger] t2.rows[r][j]).seq))
        &&& t.rows.contains_key(r)
        &&& exists|k: int|
            0 <= k < t.rows[r].len() && (#[trigger] t.rows[r][k]).seq == t2.rows[r][j].seq
                && t.rows[r][k].xmin == t2.rows[r][j].xmin
    } by {
        assert(t.rows[r][j].seq == t2.rows[r][j].seq);
        if r == row.0 {
            assert(chain[j].seq < chain[last].seq);
        }
    }
    lemma_table_changes(m, table, t2, gone);
}

} // verus!
