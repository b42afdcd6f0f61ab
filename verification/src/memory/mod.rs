//! [`MemoryStorage`]: the in-memory storage engine. No durability, no optimisation: ordered
//! maps and sorted vectors.
//!
//! It covers databases, tables, `insert`/`get`/`scan`, `commit`/`rollback` and `checkpoint`;
//! `update`/`delete`/`latest_version`, savepoints and `vacuum`; the indexes
//! (`create_index`/`drop_index`/`indexes`/`seek`, uniqueness under MVCC, maintenance on each
//! write) and the clustered-key order of `scan`.
//!
//! What the operations promise: [`write_laws`] what a write changes and a vacuum takes away,
//! [`refusal_laws`] why a call is refused and when it is not, [`unique_laws`] that no two live rows share
//! a key of a `unique` index, [`read_laws`] what a read gives and in which order, [`key_laws`] how keys
//! are ordered and ranges select them, [`define_laws`] what creating and dropping does.

pub mod chain_laws;
pub mod create_index;
pub mod ddl;
pub mod define_laws;
pub mod index;
pub mod index_laws;
pub mod keeps;
pub mod key_laws;
pub mod key_order;
pub mod laws;
pub mod model;
pub mod read;
pub mod read_laws;
pub mod refusal_laws;
pub mod restore_laws;
pub mod savepoint_laws;
pub mod table;
pub mod txn_log;
pub mod undo_laws;
pub mod unique_laws;
pub mod vacuum;
pub mod vacuum_laws;
pub mod write_laws;

use vstd::prelude::*;

use crate::error::{bug, corruption, Bug, Corruption, IdSpace, SqlError, SqlResult};
use crate::ids::{IndexId, RowId, SavepointId, TableId, TxnId};
use crate::ordmap::OrdMap;
use crate::row::Row;
use crate::snapshot::{status_of, TxnStatus};
use crate::value::{Value, ValueModel};
use index::{
    entries_ok, keys_agree, names_of, points_into, slot, version_at, Index, IndexEntry, IndexModel,
};
use key_order::{fits, key_in};
use model::{
    entries_match, entry_for, indexes_with, indexes_without, log_write, refusal_of, registered,
    table_ok, txn_ok, StorageModel,
};
use table::{removed_versions, Table, Version, VersionModel};
use txn_log::{status_in, TxnModel, TxnState, UndoEntry};

verus! {

/// In-memory storage. Cheap to create, forgets everything when dropped.
///
/// # Indexes
///
/// An index is a `Vec` of entries sorted by `(key, RowId, version)`, one entry per row
/// **version**; a seek filters the entries of the requested range by the visibility of their
/// version. Every `insert`/`update` adds entries (after the uniqueness check),
/// `rollback`/`rollback_to` remove the entries of the versions they undo, `vacuum` those of the
/// versions it discards; `delete` leaves the index alone, visibility does the filtering. The
/// clustered key is not an index: a scan sorts the visible rows with the same comparator.
///
/// # Transaction statuses
///
/// The registry only knows the transactions that wrote, took a savepoint, or were explicitly
/// committed or rolled back, and `vacuum` forgets the finished ones below its horizon. Any other
/// transaction is reported as `Committed` to the visibility rule.
#[derive(Debug)]
pub struct MemoryStorage {
    /// The name of each database, as given.
    pub databases: OrdMap<String>,
    /// The tables of every database.
    pub tables: OrdMap<Table>,
    /// The indexes of every table.
    pub indexes: OrdMap<Index>,
    /// What is known of each transaction.
    pub txns: OrdMap<TxnState>,
    /// Counter for fresh database identifiers: an id is never reused.
    pub next_db_id: u32,
    /// Counter for fresh table identifiers: an id is never reused.
    pub next_table_id: u32,
    /// Counter for fresh index identifiers: an id is never reused.
    pub next_index_id: u32,
    /// Counter for savepoint identifiers, global to the instance.
    pub next_savepoint_id: u64,
}

impl View for MemoryStorage {
    type V = StorageModel;

    open spec fn view(&self) -> StorageModel {
        StorageModel {
            databases: self.databases@,
            tables: self.tables@,
            indexes: self.indexes@,
            txns: self.txns@,
            next_db_id: self.next_db_id,
            next_table_id: self.next_table_id,
            next_index_id: self.next_index_id,
            next_savepoint_id: self.next_savepoint_id,
        }
    }
}

/// Hands out the next value of an id counter without ever wrapping around.
pub(crate) fn next_id(counter: &mut u32, space: IdSpace) -> (r: SqlResult<u32>)
    ensures
        match r {
            Ok(id) => id == *old(counter) && *old(counter) < u32::MAX && *final(counter) == id + 1,
            Err(e) => *old(counter) == u32::MAX && *final(counter) == *old(counter) && e.is_bug(
                Bug::IdsExhausted(space),
            ),
        },
{
    let id: u32 = *counter;
    match id.checked_add(1) {
        Some(next) => {
            *counter = next;
            Ok(id)
        },
        None => bug(Bug::IdsExhausted(space)),
    }
}

/// An index entry prepared before any mutation: the index it goes to, its position there and
/// the entry itself.
#[derive(Debug)]
pub struct PlannedEntry {
    /// The index the entry goes to.
    pub index: u64,
    /// Its position there.
    pub position: usize,
    /// The entry itself.
    pub entry: IndexEntry,
}

impl Default for MemoryStorage {
    /// A storage that holds nothing.
    fn default() -> (r: Self)
        ensures
            r@ == StorageModel::empty(),
            r@.wf(),
    {
        MemoryStorage::new()
    }
}

impl MemoryStorage {
    /// An empty storage: no database, no table, no index, no transaction known.
    pub fn new() -> (r: Self)
        ensures
            r@ == StorageModel::empty(),
            r@.wf(),
    {
        MemoryStorage {
            databases: OrdMap::new(),
            tables: OrdMap::new(),
            indexes: OrdMap::new(),
            txns: OrdMap::new(),
            next_db_id: 1,
            next_table_id: 1,
            next_index_id: 1,
            next_savepoint_id: 1,
        }
    }

    /// The status of `t` as the visibility rule must see it.
    pub fn status(&self, t: TxnId) -> (r: TxnStatus)
        ensures
            r == status_of(self@.st(), t),
    {
        status_in(&self.txns, t)
    }

    /// The table `table`.
    pub(crate) fn table(&self, table: TableId) -> (r: SqlResult<&Table>)
        ensures
            match r {
                Ok(t) => self@.has_table(table) && t@ == self@.table(table),
                Err(e) => !self@.has_table(table) && e.is_bug(Bug::UnknownTable(table)),
            },
    {
        match self.tables.get(table.0 as u64) {
            Some(t) => Ok(t),
            None => bug(Bug::UnknownTable(table)),
        }
    }

    /// Refuses a transaction that already committed or rolled back, without registering
    /// anything.
    fn check_writable(&self, txn: TxnId) -> (r: SqlResult<()>)
        ensures
            match r {
                Ok(_) => !self@.finished(txn),
                Err(e) => self@.finished(txn) && self@.finished_error(txn, e),
            },
    {
        match self.txns.get(txn.0) {
            Some(state) => {
                if state.is_finished() {
                    bug(Bug::FinishedTxn { txn, status: state.status })
                } else {
                    Ok(())
                }
            },
            None => Ok(()),
        }
    }

    /// Checks the arity of `row` against `table`.
    fn check_arity(&self, table: TableId, row: &Row) -> (r: SqlResult<()>)
        ensures
            match r {
                Ok(_) => self@.has_table(table) && row@.len() == self@.table(
                    table,
                ).shape.columns.len(),
                Err(e) => if !self@.has_table(table) {
                    e.is_bug(Bug::UnknownTable(table))
                } else {
                    row@.len() != self@.table(table).shape.columns.len() && e.is_bug(
                        Bug::WrongArity {
                            table,
                            values: row@.len() as usize,
                            columns: self@.table(table).shape.columns.len() as usize,
                        },
                    )
                },
            },
    {
        let arity: usize = match self.table(table) {
            Ok(t) => t.arity(),
            Err(e) => {
                return Err(e);
            },
        };
        if row.0.len() != arity {
            return bug(Bug::WrongArity { table, values: row.0.len(), columns: arity });
        }
        Ok(())
    }

    /// The precondition shared by `update` and `delete`: `table` is known, `id` exists in it and
    /// its most recent version has no `xmax` and was created by `txn` itself or by a committed
    /// transaction.
    fn check_current(&self, txn: TxnId, table: TableId, id: RowId) -> (r: SqlResult<()>)
        ensures
            match r {
                Ok(_) => self@.has_table(table) && self@.current(txn, table, id),
                Err(e) => if !self@.has_table(table) {
                    e.is_bug(Bug::UnknownTable(table))
                } else {
                    !self@.current(txn, table, id) && self@.current_error(txn, table, id, e)
                },
            },
    {
        let t: &Table = match self.table(table) {
            Ok(t) => t,
            Err(e) => {
                return Err(e);
            },
        };
        match t.latest(id) {
            None => bug(Bug::UnknownRow { table, row: id }),
            Some(latest) => {
                if let Some(x) = latest.xmax {
                    return bug(Bug::StaleRow { table, row: id, by: x });
                }
                let status: TxnStatus = self.status(latest.xmin);
                if latest.xmin != txn && status != TxnStatus::Committed {
                    return bug(Bug::RowBeingWritten { table, row: id, by: latest.xmin, status });
                }
                Ok(())
            },
        }
    }

    /// Prepares the entry of one index.
    fn plan_entry(
        &self,
        k: u64,
        index: &Index,
        t: &Table,
        txn: TxnId,
        row: &Row,
        id: RowId,
        seq: usize,
        replacing: Option<RowId>,
    ) -> (r: SqlResult<PlannedEntry>)
        requires
            self@.wf(),
            self@.indexes.contains_key(k),
            index@ == self@.indexes[k],
            t@ == self@.table(index.table),
            row@.len() == t@.shape.columns.len(),
        ensures
            match r {
                Ok(planned) => {
                    &&& self@.index_accepts(k, txn, row@, replacing)
                    &&& planned.index == k
                    &&& planned.entry@ == entry_for(self@.indexes[k], id, row@, seq)
                    &&& planned.position == slot(
                        self@.indexes[k].order,
                        self@.indexes[k].entries,
                        planned.entry@,
                    )
                    &&& planned.position <= self@.indexes[k].entries.len()
                },
                Err(e) => {
                    &&& !self@.index_accepts(k, txn, row@, replacing)
                    &&& refusal_of(self@.indexes[k], k, row@, e)
                },
            },
    {
        let ghost m = self@;
        proof {
            lemma_points_into(m, k);
            lemma_order_fits(m, k);
        }
        let key: Vec<Value> = match index.order.extract(row) {
            Ok(key) => key,
            Err(e) => {
                assert(false);
                return Err(e);
            },
        };
        assert(key.deep_view().len() == key@.len());
        if index.shape.unique {
            match index.has_live_duplicate(&key, &t.rows, Some(txn), &self.txns, replacing) {
                Ok(duplicate) => {
                    if duplicate {
                        assert(k < m.next_index_id);
                        return Err(
                            SqlError::DuplicateKey {
                                table: index.table,
                                index: IndexId(k as u32),
                                key,
                            },
                        );
                    }
                },
                Err(e) => {
                    return Err(e);
                },
            }
        }
        match index.position_for(&key, id, seq) {
            Ok(position) => Ok(
                PlannedEntry { index: k, position, entry: IndexEntry { key, row: id, version: seq } },
            ),
            Err(e) => Err(e),
        }
    }

    /// Prepares the index entries of a version about to be created for row `id` of `table` with
    /// content `row` and serial `seq`, on behalf of `txn`: computes each key, checks uniqueness
    /// and the position of each entry. Nothing is modified: a refused key leaves no trace.
    /// `replacing` is the row an update supersedes, whose versions are not live for `txn`.
    fn plan_entries(
        &self,
        txn: TxnId,
        table: TableId,
        row: &Row,
        id: RowId,
        seq: usize,
        replacing: Option<RowId>,
    ) -> (r: SqlResult<Vec<PlannedEntry>>)
        requires
            self@.wf(),
            self@.has_table(table),
            row@.len() == self@.table(table).shape.columns.len(),
        ensures
            match r {
                Ok(planned) => {
                    &&& self@.accepted(txn, table, row@, replacing)
                    &&& plan_for(planned@, self@, table, id, row@, seq)
                },
                Err(e) => {
                    &&& !self@.accepted(txn, table, row@, replacing)
                    &&& self@.refusal(txn, table, row@, replacing, e)
                },
            },
    {
        let t: &Table = match self.table(table) {
            Ok(t) => t,
            Err(e) => {
                return Err(e);
            },
        };
        let mut planned: Vec<PlannedEntry> = Vec::new();
        let keys: Vec<u64> = self.indexes.keys();
        let ghost m = self@;
        for n in 0..keys.len()
            invariant
                m == self@,
                m.wf(),
                m.has_table(table),
                t@ == m.table(table),
                row@.len() == m.table(table).shape.columns.len(),
                crate::ordmap::increasing(keys@),
                forall|k: u64| #[trigger] keys@.contains(k) <==> m.indexes.contains_key(k),
                forall|j: int|
                    0 <= j < n && #[trigger] m.index_on(keys@[j], table) ==> m.index_accepts(
                        keys@[j],
                        txn,
                        row@,
                        replacing,
                    ),
                planned_upto(planned@, m, table, id, row@, seq, keys@.take(n as int)),
        {
            let k: u64 = keys[n];
            let ghost done = keys@.take(n as int);
            proof {
                assert(keys@.contains(k));
                assert(keys@.take(n + 1) =~= done.push(k));
                assert forall|x: u64| #[trigger] done.push(k).contains(x) <==> done.contains(x) || x == k by {
                    if done.contains(x) {
                        assert(done.push(k)[done.index_of(x)] == x);
                    }
                    assert(done.push(k)[n as int] == k);
                    if done.push(k).contains(x) && x != k {
                        assert(done[done.push(k).index_of(x)] == x);
                    }
                }
                assert forall|i: int| 0 <= i < planned@.len() implies (#[trigger] planned@[i]).index < k by {
                    let x = done.index_of(planned@[i].index);
                    assert(done.contains(planned@[i].index));
                    assert(keys@[x] < keys@[n as int]);
                }
            }
            if let Some(index) = self.indexes.get(k) {
                if index.table == table {
                    assert(m.index_on(k, table));
                    let ghost before = planned@;
                    match self.plan_entry(k, index, t, txn, row, id, seq, replacing) {
                        Ok(entry) => {
                            planned.push(entry);
                            proof {
                                assert forall|x: u64|
                                    done.push(k).contains(x) && #[trigger] m.index_on(
                                        x,
                                        table,
                                    ) implies exists|i: int|
                                    0 <= i < planned@.len() && (#[trigger] planned@[i]).index == x by {
                                    if x == k {
                                        assert(planned@[before.len() as int].index == k);
                                    } else {
                                        let i = choose|i: int|
                                            0 <= i < before.len() && (#[trigger] before[i]).index == x;
                                        assert(planned@[i].index == x);
                                    }
                                }
                                assert forall|i: int| 0 <= i < planned@.len() implies {
                                    let x = (#[trigger] planned@[i]).index;
                                    &&& done.push(k).contains(x)
                                    &&& m.index_on(x, table)
                                    &&& planned@[i].entry@ == entry_for(
                                        m.indexes[x],
                                        id,
                                        row@,
                                        seq,
                                    )
                                    &&& planned@[i].position == slot(
                                        m.indexes[x].order,
                                        m.indexes[x].entries,
                                        planned@[i].entry@,
                                    )
                                    &&& planned@[i].position <= m.indexes[x].entries.len()
                                } by {
                                    if i < before.len() {
                                        assert(planned@[i] == before[i]);
                                        assert(done.contains(before[i].index));
                                    }
                                }
                                assert forall|i: int, j: int|
                                    0 <= i < j < planned@.len() implies (#[trigger] planned@[i]).index < (
                                #[trigger] planned@[j]).index by {
                                    if j < before.len() {
                                        assert(before[i].index < before[j].index);
                                    } else {
                                        assert(before[i].index < k);
                                    }
                                }
                            }
                        },
                        Err(e) => {
                            proof {
                                assert forall|j: u64| j < k && #[trigger] m.index_on(j, table) implies m.index_accepts(
                                    j,
                                    txn,
                                    row@,
                                    replacing,
                                ) by {
                                    assert(keys@.contains(j));
                                    let x = keys@.index_of(j);
                                    assert(x < n) by {
                                        if x > n {
                                            assert(keys@[n as int] < keys@[x]);
                                        }
                                    }
                                    assert(m.index_on(keys@[x], table));
                                }
                                assert(m.first_refusing(k, txn, table, row@, replacing));
                            }
                            return Err(e);
                        },
                    }
                }
            }
        }
        proof {
            assert(keys@.take(keys@.len() as int) =~= keys@);
            assert forall|k: u64| #[trigger] m.index_on(k, table) implies m.index_accepts(
                k,
                txn,
                row@,
                replacing,
            ) by {
                assert(keys@.contains(k));
                let x = keys@.index_of(k);
                assert(m.index_on(keys@[x], table));
            }
        }
        Ok(planned)
    }
}

/// Whether `planned` holds, in increasing order, one entry for each index of `table` among
/// `keys`: the one of the version `seq` of `row`, at the position it belongs to.
pub open spec fn planned_upto(
    planned: Seq<PlannedEntry>,
    m: StorageModel,
    table: TableId,
    row: RowId,
    data: Seq<ValueModel>,
    seq: usize,
    keys: Seq<u64>,
) -> bool {
    &&& forall|i: int|
        0 <= i < planned.len() ==> {
            let k = (#[trigger] planned[i]).index;
            &&& keys.contains(k)
            &&& m.index_on(k, table)
            &&& planned[i].entry@ == entry_for(m.indexes[k], row, data, seq)
            &&& planned[i].position == slot(
                m.indexes[k].order,
                m.indexes[k].entries,
                planned[i].entry@,
            )
            &&& planned[i].position <= m.indexes[k].entries.len()
        }
    &&& forall|i: int, j: int|
        0 <= i < j < planned.len() ==> (#[trigger] planned[i]).index < (#[trigger] planned[j]).index
    &&& forall|k: u64|
        keys.contains(k) && #[trigger] m.index_on(k, table) ==> exists|i: int|
            0 <= i < planned.len() && (#[trigger] planned[i]).index == k
}

/// Whether `planned` holds one entry for each index of `table`.
pub open spec fn plan_for(
    planned: Seq<PlannedEntry>,
    m: StorageModel,
    table: TableId,
    row: RowId,
    data: Seq<ValueModel>,
    seq: usize,
) -> bool {
    exists|keys: Seq<u64>|
        (forall|k: u64| #[trigger] keys.contains(k) <==> m.indexes.contains_key(k))
            && #[trigger] planned_upto(planned, m, table, row, data, seq, keys)
}

/// In a consistent storage the entries of an index name existing versions.
pub proof fn lemma_points_into(m: StorageModel, k: u64)
    requires
        m.wf(),
        m.indexes.contains_key(k),
    ensures
        points_into(m.table(m.indexes[k].table).rows, m.indexes[k].entries),
        entries_ok(m.indexes[k].order, m.indexes[k].entries),
        m.has_table(m.indexes[k].table),
{
    let ix = m.indexes[k];
    let rows = m.table(ix.table).rows;
    assert forall|i: int| 0 <= i < ix.entries.len() implies version_at(
        rows,
        (#[trigger] ix.entries[i]).row,
        ix.entries[i].version,
    ) is Some by {
        assert(entries_match(ix, rows));
    }
}

/// In a consistent storage a row of the right arity holds every key column of an index.
proof fn lemma_order_fits(m: StorageModel, k: u64)
    requires
        m.wf(),
        m.indexes.contains_key(k),
    ensures
        fits(m.indexes[k].order, m.table(m.indexes[k].table).shape.columns.len()),
        m.indexes[k].order.len() > 0,
{
    let ix = m.indexes[k];
    let t = m.table(ix.table);
    assert forall|i: int| 0 <= i < ix.order.len() implies (#[trigger] ix.order[i]).position
        < t.shape.columns.len() by {
        assert(ix.shape.columns[i].column < t.shape.columns.len());
    }
}

/// The position of the planned entry of the index `k`, if there is one.
pub open spec fn planned_at(planned: Seq<PlannedEntry>, k: u64, i: int) -> bool {
    0 <= i < planned.len() && planned[i].index == k
}

/// The indexes once the planned entries were inserted at their positions.
pub open spec fn applied(indexes: Map<u64, IndexModel>, planned: Seq<PlannedEntry>) -> Map<
    u64,
    IndexModel,
> {
    Map::new(
        |k: u64| indexes.contains_key(k),
        |k: u64|
            if exists|i: int| #[trigger] planned_at(planned, k, i) {
                let i = choose|i: int| #[trigger] planned_at(planned, k, i);
                IndexModel {
                    entries: indexes[k].entries.insert(
                        planned[i].position as int,
                        planned[i].entry@,
                    ),
                    ..indexes[k]
                }
            } else {
                indexes[k]
            },
    )
}

/// Inserts entries prepared by [`MemoryStorage::plan_entries`]; their positions are still exact.
fn apply_entries(indexes: &mut OrdMap<Index>, planned: Vec<PlannedEntry>)
    requires
        forall|i: int|
            0 <= i < planned@.len() ==> old(indexes)@.contains_key((#[trigger] planned@[i]).index)
                && planned@[i].position <= old(indexes)@[planned@[i].index].entries.len(),
        forall|i: int, j: int|
            0 <= i < j < planned@.len() ==> (#[trigger] planned@[i]).index < (
            #[trigger] planned@[j]).index,
    ensures
        final(indexes)@ == applied(old(indexes)@, planned@),
{
    let ghost before = indexes@;
    assert(applied(before, planned@.take(0)) =~= before);
    for planned_entry in it: planned
        invariant
            it.seq() == planned@,
            forall|i: int|
                0 <= i < planned@.len() ==> before.contains_key((#[trigger] planned@[i]).index)
                    && planned@[i].position <= before[planned@[i].index].entries.len(),
            forall|i: int, j: int|
                0 <= i < j < planned@.len() ==> (#[trigger] planned@[i]).index < (
                #[trigger] planned@[j]).index,
            indexes@ == applied(before, planned@.take(it.index() as int)),
    {
        let ghost n = it.index() as int;
        let ghost done = planned@.take(n);
        let ghost now = indexes@;
        let k: u64 = planned_entry.index;
        assert(planned@[n] == planned_entry);
        assert(!exists|i: int| #[trigger] planned_at(done, k, i)) by {
            if exists|i: int| #[trigger] planned_at(done, k, i) {
                let i = choose|i: int| #[trigger] planned_at(done, k, i);
                assert(planned@[i].index < planned@[n].index);
            }
        }
        if let Some(mut index) = indexes.remove(k) {
            index.insert_at(planned_entry.position, planned_entry.entry);
            indexes.insert(k, index);
        }
        proof {
            let more = planned@.take(n + 1);
            assert(more =~= done.push(planned_entry));
            assert forall|x: u64| #[trigger] before.contains_key(x) implies indexes@[x] == applied(
                before,
                more,
            )[x] by {
                if x == k {
                    assert(planned_at(more, k, n));
                    let i = choose|i: int| #[trigger] planned_at(more, k, i);
                    assert(i == n) by {
                        if i < n {
                            assert(planned_at(done, k, i));
                        }
                    }
                } else {
                    if exists|i: int| #[trigger] planned_at(done, x, i) {
                        let i = choose|i: int| #[trigger] planned_at(done, x, i);
                        assert(planned_at(more, x, i));
                        let j = choose|j: int| #[trigger] planned_at(more, x, j);
                        assert(i == j) by {
                            assert(planned@[i].index == x && planned@[j].index == x);
                            if i < j {
                                assert(planned@[i].index < planned@[j].index);
                            }
                            if j < i {
                                assert(planned@[j].index < planned@[i].index);
                            }
                        }
                    } else if exists|i: int| #[trigger] planned_at(more, x, i) {
                        let i = choose|i: int| #[trigger] planned_at(more, x, i);
                        assert(planned_at(done, x, i));
                    }
                    assert(indexes@[x] == now[x]);
                }
            }
            assert(indexes@ =~= applied(before, more));
        }
    }
    assert(planned@.take(planned@.len() as int) =~= planned@);
}

/// A plan for the indexes of a table, once applied, adds the entry of the version to each.
proof fn lemma_plan_applies(
    planned: Seq<PlannedEntry>,
    m: StorageModel,
    table: TableId,
    row: RowId,
    data: Seq<ValueModel>,
    seq: usize,
)
    requires
        plan_for(planned, m, table, row, data, seq),
    ensures
        applied(m.indexes, planned) == indexes_with(m.indexes, table, row, data, seq),
        forall|i: int|
            0 <= i < planned.len() ==> m.indexes.contains_key((#[trigger] planned[i]).index)
                && planned[i].position <= m.indexes[planned[i].index].entries.len(),
        forall|i: int, j: int|
            0 <= i < j < planned.len() ==> (#[trigger] planned[i]).index < (
            #[trigger] planned[j]).index,
{
    let keys = choose|keys: Seq<u64>|
        (forall|k: u64| #[trigger] keys.contains(k) <==> m.indexes.contains_key(k))
            && #[trigger] planned_upto(planned, m, table, row, data, seq, keys);
    let a = applied(m.indexes, planned);
    let b = indexes_with(m.indexes, table, row, data, seq);
    assert forall|k: u64| #[trigger] m.indexes.contains_key(k) implies a[k] == b[k] by {
        if m.indexes[k].table == table {
            assert(m.index_on(k, table));
            assert(keys.contains(k));
            let i = choose|i: int| 0 <= i < planned.len() && (#[trigger] planned[i]).index == k;
            assert(planned_at(planned, k, i));
            let j = choose|j: int| #[trigger] planned_at(planned, k, j);
            assert(planned[j].index == k);
        } else {
            if exists|i: int| #[trigger] planned_at(planned, k, i) {
                let i = choose|i: int| #[trigger] planned_at(planned, k, i);
                assert(m.index_on(planned[i].index, table));
            }
        }
    }
    assert(a =~= b);
}

impl MemoryStorage {
    /// Registers `txn` as in progress if it is not known and appends `entry` to its undo log.
    fn log(&mut self, txn: TxnId, entry: UndoEntry)
        ensures
            final(self)@ == (StorageModel {
                txns: log_write(old(self)@.txns, txn, entry),
                ..old(self)@
            }),
    {
        let ghost before = self@.txns;
        let mut state: TxnState = match self.txns.remove(txn.0) {
            Some(state) => state,
            None => TxnState::in_progress(),
        };
        let ghost was = state@;
        state.writes.push(entry);
        assert(state@ == TxnModel { writes: was.writes.push(entry), ..was });
        self.txns.insert(txn.0, state);
        assert(self@.txns =~= log_write(before, txn, entry));
    }

    /// Whether `table` has a row identifier and a version serial left to hand out.
    pub fn has_room(&self, table: TableId) -> (r: bool)
        ensures
            r == self@.has_room(table),
    {
        match self.tables.get(table.0 as u64) {
            Some(t) => t.next_row_id < u64::MAX && t.next_seq < usize::MAX,
            None => true,
        }
    }

    /// Adds a row holding `row` to `table` on behalf of `txn` and answers its fresh identifier.
    ///
    /// # Errors
    ///
    /// A bug for an unknown table, a row of the wrong arity or a finished transaction, in that
    /// order; then the refusal of the first index, in increasing identifier order, that does
    /// not take the key of the row. A refused call changes nothing.
    pub fn insert(&mut self, txn: TxnId, table: TableId, row: &Row) -> (r: SqlResult<RowId>)
        requires
            old(self)@.wf(),
            old(self)@.has_room(table),
        ensures
            final(self)@.wf(),
            match r {
                Ok(id) => {
                    let m = old(self)@;
                    &&& m.has_table(table)
                    &&& row@.len() == m.table(table).shape.columns.len()
                    &&& !m.finished(txn)
                    &&& m.accepted(txn, table, row@, None)
                    &&& id == RowId(m.table(table).next_row_id)
                    &&& final(self)@ == m.inserted(txn, table, row@)
                },
                Err(e) => {
                    let m = old(self)@;
                    &&& final(self)@ == m
                    &&& m.write_error(txn, table, row@, None, e)
                },
            },
    {
        let ghost m = self@;
        match self.check_arity(table, row) {
            Ok(_) => {},
            Err(e) => {
                return Err(e);
            },
        }
        match self.check_writable(txn) {
            Ok(_) => {},
            Err(e) => {
                return Err(e);
            },
        }
        let (id, seq): (RowId, usize) = match self.table(table) {
            Ok(t) => (t.peek_row_id(), t.peek_seq()),
            Err(e) => {
                return Err(e);
            },
        };
        let planned: Vec<PlannedEntry> = match self.plan_entries(txn, table, row, id, seq, None) {
            Ok(planned) => planned,
            Err(e) => {
                return Err(e);
            },
        };
        proof {
            lemma_plan_applies(planned@, m, table, id, row@, seq);
            keeps::lemma_inserted_wf(m, txn, table, row@);
        }
        if let Some(mut t) = self.tables.remove(table.0 as u64) {
            let _id: RowId = t.insert(txn, row.duplicate());
            self.tables.insert(table.0 as u64, t);
        }
        assert(self@.tables =~= m.inserted(txn, table, row@).tables);
        apply_entries(&mut self.indexes, planned);
        self.log(txn, UndoEntry::Insert { table, row: id });
        assert(self@ == m.inserted(txn, table, row@));
        Ok(id)
    }

    /// Replaces the content of the row `id` of `table` on behalf of `txn`, keeping its
    /// identifier.
    ///
    /// # Errors
    ///
    /// A bug for an unknown table, a row of the wrong arity, a row that is unknown, stale or
    /// being written by another transaction, or a finished transaction, in that order; then the
    /// refusal of the first index, in increasing identifier order, that does not take the key of
    /// the row. A refused call changes nothing.
    pub fn update(&mut self, txn: TxnId, table: TableId, id: RowId, row: &Row) -> (r: SqlResult<()>)
        requires
            old(self)@.wf(),
            old(self)@.has_room(table),
        ensures
            final(self)@.wf(),
            match r {
                Ok(_) => {
                    let m = old(self)@;
                    &&& m.has_table(table)
                    &&& row@.len() == m.table(table).shape.columns.len()
                    &&& m.current(txn, table, id)
                    &&& !m.finished(txn)
                    &&& m.accepted(txn, table, row@, Some(id))
                    &&& final(self)@ == m.updated(txn, table, id, row@)
                },
                Err(e) => {
                    let m = old(self)@;
                    &&& final(self)@ == m
                    &&& m.write_error(txn, table, row@, Some(id), e)
                },
            },
    {
        let ghost m = self@;
        match self.check_arity(table, row) {
            Ok(_) => {},
            Err(e) => {
                return Err(e);
            },
        }
        match self.check_current(txn, table, id) {
            Ok(_) => {},
            Err(e) => {
                return Err(e);
            },
        }
        match self.check_writable(txn) {
            Ok(_) => {},
            Err(e) => {
                return Err(e);
            },
        }
        let seq: usize = match self.table(table) {
            Ok(t) => t.peek_seq(),
            Err(e) => {
                return Err(e);
            },
        };
        let planned: Vec<PlannedEntry> = match self.plan_entries(txn, table, row, id, seq, Some(id)) {
            Ok(planned) => planned,
            Err(e) => {
                return Err(e);
            },
        };
        proof {
            lemma_plan_applies(planned@, m, table, id, row@, seq);
            keeps::lemma_updated_wf(m, txn, table, id, row@);
        }
        if let Some(mut t) = self.tables.remove(table.0 as u64) {
            let _done: bool = t.supersede(txn, id, Some(row.duplicate()));
            self.tables.insert(table.0 as u64, t);
        }
        assert(self@.tables =~= m.updated(txn, table, id, row@).tables);
        apply_entries(&mut self.indexes, planned);
        self.log(txn, UndoEntry::Update { table, row: id });
        assert(self@ == m.updated(txn, table, id, row@));
        Ok(())
    }

    /// Deletes the row `id` of `table` on behalf of `txn`. No index changes: the entries of the
    /// deleted version stay until `vacuum`, visibility filters them out.
    ///
    /// # Errors
    ///
    /// A bug for an unknown table, a row that is unknown, stale or being written by another
    /// transaction, or a finished transaction, in that order. A refused call changes nothing.
    pub fn delete(&mut self, txn: TxnId, table: TableId, id: RowId) -> (r: SqlResult<()>)
        requires
            old(self)@.wf(),
        ensures
            final(self)@.wf(),
            match r {
                Ok(_) => {
                    let m = old(self)@;
                    &&& m.has_table(table)
                    &&& m.current(txn, table, id)
                    &&& !m.finished(txn)
                    &&& final(self)@ == m.deleted(txn, table, id)
                },
                Err(e) => {
                    let m = old(self)@;
                    &&& final(self)@ == m
                    &&& if !m.has_table(table) {
                        e.is_bug(Bug::UnknownTable(table))
                    } else if !m.current(txn, table, id) {
                        m.current_error(txn, table, id, e)
                    } else {
                        m.finished(txn) && m.finished_error(txn, e)
                    }
                },
            },
    {
        let ghost m = self@;
        match self.check_current(txn, table, id) {
            Ok(_) => {},
            Err(e) => {
                return Err(e);
            },
        }
        match self.check_writable(txn) {
            Ok(_) => {},
            Err(e) => {
                return Err(e);
            },
        }
        proof {
            keeps::lemma_deleted_wf(m, txn, table, id);
        }
        if let Some(mut t) = self.tables.remove(table.0 as u64) {
            let _done: bool = t.supersede(txn, id, None);
            self.tables.insert(table.0 as u64, t);
        }
        assert(self@.tables =~= m.deleted(txn, table, id).tables);
        self.log(txn, UndoEntry::Delete { table, row: id });
        assert(self@ == m.deleted(txn, table, id));
        Ok(())
    }
}

/// Whether the versions `removed` are versions of `table`: an index entry that names one of them
/// carries its key.
pub open spec fn removable(
    indexes: Map<u64, IndexModel>,
    table: TableId,
    removed: Seq<(RowId, VersionModel)>,
) -> bool {
    forall|k: u64| #[trigger]
        indexes.contains_key(k) && indexes[k].table == table ==> {
            &&& entries_ok(indexes[k].order, indexes[k].entries)
            &&& keys_agree(indexes[k], removed)
            &&& forall|i: int|
                0 <= i < removed.len() ==> fits(
                    indexes[k].order,
                    (#[trigger] removed[i]).1.data.len(),
                )
        }
}

/// Removes the entries of the versions `removed` from every index of `table`.
pub(crate) fn remove_entries(indexes: &mut OrdMap<Index>, table: TableId, removed: &Vec<(RowId, Version)>)
    requires
        removable(old(indexes)@, table, removed_versions(removed@)),
    ensures
        final(indexes)@ == indexes_without(
            old(indexes)@,
            table,
            names_of(removed_versions(removed@)),
        ),
{
    let ghost before = indexes@;
    let ghost gone = names_of(removed_versions(removed@));
    let ghost all = indexes_without(before, table, gone);
    let keys: Vec<u64> = indexes.keys();
    for n in 0..keys.len()
        invariant
            crate::ordmap::increasing(keys@),
            removable(before, table, removed_versions(removed@)),
            gone == names_of(removed_versions(removed@)),
            all == indexes_without(before, table, gone),
            forall|k: u64| #[trigger] keys@.contains(k) <==> before.contains_key(k),
            forall|k: u64| #[trigger] indexes@.contains_key(k) <==> before.contains_key(k),
            forall|j: int| 0 <= j < n ==> indexes@[#[trigger] keys@[j]] == all[keys@[j]],
            forall|j: int| n <= j < keys@.len() ==> indexes@[#[trigger] keys@[j]] == before[keys@[j]],
    {
        let k: u64 = keys[n];
        assert(keys@.contains(k));
        assert(before.contains_key(k));
        let ghost now = indexes@;
        if let Some(mut index) = indexes.remove(k) {
            assert(index@ == before[k]);
            if index.table == table {
                proof {
                    assert forall|i: int| 0 <= i < removed@.len() implies fits(
                        index@.order,
                        (#[trigger] removed@[i]).1@.data.len(),
                    ) by {
                        assert(fits(before[k].order, removed_versions(removed@)[i].1.data.len()));
                    }
                }
                index.remove_versions(removed);
            }
            indexes.insert(k, index);
        }
        proof {
            assert forall|j: int| 0 <= j < keys@.len() && j != n implies indexes@[#[trigger] keys@[j]]
                == now[keys@[j]] by {
                if j < n {
                    assert(keys@[j] < keys@[n as int]);
                } else {
                    assert(keys@[n as int] < keys@[j]);
                }
            }
        }
    }
    assert(indexes@ =~= all) by {
        assert forall|k: u64| before.contains_key(k) implies #[trigger] indexes@[k] == all[k] by {
            assert(keys@.contains(k));
            let j = keys@.index_of(k);
            assert(keys@[j] == k);
        }
    }
}

/// Versions of a consistent table may be removed from its indexes.
pub proof fn lemma_removable(m: StorageModel, table: TableId, removed: Seq<(RowId, VersionModel)>)
    requires
        m.wf(),
        m.has_table(table),
        forall|i: int|
            0 <= i < removed.len() ==> m.table(table).rows.contains_key((#[trigger] removed[i]).0.0)
                && m.table(table).rows[removed[i].0.0].contains(removed[i].1),
    ensures
        removable(m.indexes, table, removed),
{
    let t = m.table(table);
    assert(table_ok(t));
    assert forall|k: u64| #[trigger]
        m.indexes.contains_key(k) && m.indexes[k].table == table implies {
        &&& entries_ok(m.indexes[k].order, m.indexes[k].entries)
        &&& keys_agree(m.indexes[k], removed)
        &&& forall|i: int|
            0 <= i < removed.len() ==> fits(m.indexes[k].order, (#[trigger] removed[i]).1.data.len())
    } by {
        let ix = m.indexes[k];
        lemma_order_fits(m, k);
        assert forall|i: int| 0 <= i < removed.len() implies fits(
            ix.order,
            (#[trigger] removed[i]).1.data.len(),
        ) by {
            let chain = t.rows[removed[i].0.0];
            assert(chain[chain.index_of(removed[i].1)].data.len() == t.shape.columns.len());
        }
        assert forall|i: int, j: int|
            0 <= i < ix.entries.len() && 0 <= j < removed.len() && #[trigger] index::names(
                ix.entries[i],
                removed[j].0,
                removed[j].1.seq,
            ) implies ix.entries[i].key == key_in(ix.order, removed[j].1.data) by {
            let chain = t.rows[removed[j].0.0];
            assert(chain.contains(removed[j].1));
            keeps::lemma_chain_find(chain, chain.index_of(removed[j].1));
            assert(version_at(t.rows, ix.entries[i].row, ix.entries[i].version) is Some);
        }
    }
}

impl MemoryStorage {
    /// Applies one undo entry of `txn`. A table dropped since the write is ignored silently. A
    /// row whose chain no longer ends with the write being undone breaks the invariant described
    /// on [`UndoEntry`]: reported as a corruption, never repaired blindly. The index entries of
    /// the versions taken away are removed.
    fn undo(&mut self, txn: TxnId, entry: UndoEntry) -> (r: SqlResult<()>)
        requires
            old(self)@.wf(),
        ensures
            final(self)@.wf(),
            match r {
                Ok(_) => !old(self)@.undo_fails(txn, entry) && final(self)@ == old(self)@.undone(
                    txn,
                    entry,
                ),
                Err(e) => old(self)@.undo_fails(txn, entry) && old(self)@.undo_error(txn, entry, e)
                    && final(self)@ == old(self)@,
            },
    {
        let ghost m = self@;
        proof {
            if !m.undo_fails(txn, entry) {
                keeps::lemma_undone_wf(m, txn, entry);
            }
        }
        match entry {
            UndoEntry::Insert { table, row } => {
                let mut t: Table = match self.tables.remove(table.0 as u64) {
                    Some(t) => t,
                    None => {
                        assert(self@ == m);
                        return Ok(());
                    },
                };
                let ghost before = t@;
                assert(before == m.table(table));
                let removed: Option<Vec<Version>> = t.remove_row(row);
                self.tables.insert(table.0 as u64, t);
                assert(self@.tables =~= m.tables.insert(table.0 as u64, t@));
                match removed {
                    Some(chain) => {
                        let ghost versions = chain.deep_view();
                        let gone: Vec<(RowId, Version)> = with_row(row, chain);
                        proof {
                            assert forall|i: int| 0 <= i < removed_versions(gone@).len() implies m.table(
                                table,
                            ).rows.contains_key((#[trigger] removed_versions(gone@)[i]).0.0)
                                && m.table(table).rows[removed_versions(gone@)[i].0.0].contains(
                                removed_versions(gone@)[i].1,
                            ) by {
                                assert(versions[i] == removed_versions(gone@)[i].1);
                            }
                            lemma_removable(m, table, removed_versions(gone@));
                            assert(names_of(removed_versions(gone@)) =~= model::chain_names(
                                row,
                                versions,
                            )) by {
                                assert forall|p: (RowId, usize)| #[trigger]
                                    names_of(removed_versions(gone@)).contains(p)
                                        <==> model::chain_names(row, versions).contains(p) by {
                                    if names_of(removed_versions(gone@)).contains(p) {
                                        let i = choose|i: int|
                                            0 <= i < removed_versions(gone@).len() && (
                                            #[trigger] removed_versions(gone@)[i]).0 == p.0
                                                && removed_versions(gone@)[i].1.seq == p.1;
                                        assert(versions[i].seq == p.1);
                                    }
                                    if model::chain_names(row, versions).contains(p) {
                                        let i = choose|i: int|
                                            0 <= i < versions.len() && (#[trigger] versions[i]).seq
                                                == p.1;
                                        assert(removed_versions(gone@)[i].0 == p.0);
                                    }
                                }
                            }
                        }
                        remove_entries(&mut self.indexes, table, &gone);
                        assert(self@ == m.undone(txn, entry));
                    },
                    None => {
                        assert(t@.rows =~= before.rows);
                        assert(self@.tables =~= m.tables);
                        assert(self@ == m);
                    },
                }
                Ok(())
            },
            UndoEntry::Update { table, row } => {
                let mut t: Table = match self.tables.remove(table.0 as u64) {
                    Some(t) => t,
                    None => {
                        assert(self@ == m);
                        return Ok(());
                    },
                };
                let ghost before = t@;
                assert(before == m.table(table));
                let created: Option<Version> = t.undo_update(txn, row);
                self.tables.insert(table.0 as u64, t);
                assert(self@.tables =~= m.tables.insert(table.0 as u64, t@));
                match created {
                    Some(version) => {
                        let ghost last = before.rows[row.0].last();
                        assert(before.rows[row.0].contains(last));
                        let gone: Vec<(RowId, Version)> = vec![(row, version)];
                        proof {
                            assert(removed_versions(gone@) =~= seq![(row, last)]);
                            lemma_removable(m, table, removed_versions(gone@));
                            assert(names_of(removed_versions(gone@)) =~= set![(row, last.seq)]) by {
                                assert(removed_versions(gone@)[0] == (row, last));
                            }
                        }
                        remove_entries(&mut self.indexes, table, &gone);
                        assert(self@ == m.undone(txn, entry));
                        Ok(())
                    },
                    None => {
                        assert(self@.tables =~= m.tables);
                        assert(self@ == m);
                        corruption(Corruption::NotTheUpdate { table, row, txn })
                    },
                }
            },
            UndoEntry::Delete { table, row } => {
                let mut t: Table = match self.tables.remove(table.0 as u64) {
                    Some(t) => t,
                    None => {
                        assert(self@ == m);
                        return Ok(());
                    },
                };
                let ghost before = t@;
                assert(before == m.table(table));
                let done: bool = t.undo_delete(txn, row);
                self.tables.insert(table.0 as u64, t);
                assert(self@.tables =~= m.tables.insert(table.0 as u64, t@));
                if done {
                    assert(self@ == m.undone(txn, entry));
                    Ok(())
                } else {
                    assert(self@.tables =~= m.tables);
                    assert(self@ == m);
                    corruption(Corruption::NotTheDelete { table, row, txn })
                }
            },
        }
    }

    /// Undoes the writes of `txn`, the last one first.
    fn undo_all(&mut self, txn: TxnId, writes: Vec<UndoEntry>) -> (r: SqlResult<()>)
        requires
            old(self)@.wf(),
        ensures
            final(self)@.wf(),
            final(self)@ == old(self)@.all_undone(txn, writes@),
            match r {
                Ok(_) => old(self)@.stuck_on(txn, writes@) is None,
                Err(e) => {
                    &&& old(self)@.stuck_on(txn, writes@) matches Some(entry)
                    &&& old(self)@.undo_error(txn, entry, e)
                },
            },
    {
        let ghost m = self@;
        let mut left: usize = writes.len();
        assert(writes@.take(left as int) =~= writes@);
        while left > 0
            invariant
                left <= writes@.len(),
                m == old(self)@,
                self@.wf(),
                self@.all_undone(txn, writes@.take(left as int)) == m.all_undone(txn, writes@),
                self@.stuck_on(txn, writes@.take(left as int)) == m.stuck_on(txn, writes@),
            decreases left,
        {
            let ghost rest = writes@.take(left as int);
            let ghost now = self@;
            let entry: UndoEntry = writes[left - 1];
            assert(rest.last() == entry);
            assert(rest.drop_last() =~= writes@.take(left - 1));
            match self.undo(txn, entry) {
                Ok(_) => {},
                Err(e) => {
                    assert(now.all_undone(txn, rest) == now);
                    assert(now.stuck_on(txn, rest) == Some(entry));
                    return Err(e);
                },
            }
            left = left - 1;
        }
        Ok(())
    }
}

/// The versions of a chain, each with its row.
fn with_row(row: RowId, chain: Vec<Version>) -> (r: Vec<(RowId, Version)>)
    ensures
        r@.len() == chain@.len(),
        forall|i: int|
            0 <= i < r@.len() ==> (#[trigger] removed_versions(r@)[i]) == (row, chain.deep_view()[i]),
{
    let mut r: Vec<(RowId, Version)> = Vec::new();
    for version in it: chain
        invariant
            it.seq() == chain@,
            r@.len() == it.index(),
            forall|i: int| 0 <= i < r@.len() ==> #[trigger] r@[i] == (row, chain@[i]),
    {
        r.push((row, version));
    }
    r
}

impl MemoryStorage {
    /// Marks `txn` as finished with `status` and hands back its undo log; its savepoints become
    /// invalid. A transaction the storage never saw wrote nothing: it is registered with
    /// `status` and an empty log so that a second end is reported as a bug like for any other.
    fn finish_txn(&mut self, txn: TxnId, status: TxnStatus) -> (r: SqlResult<Vec<UndoEntry>>)
        requires
            old(self)@.wf(),
            status != TxnStatus::InProgress,
        ensures
            final(self)@.wf(),
            match r {
                Ok(writes) => {
                    &&& !old(self)@.finished(txn)
                    &&& writes@ == old(self)@.writes_of(txn)
                    &&& final(self)@ == old(self)@.ended(txn, status)
                },
                Err(e) => {
                    &&& old(self)@.finished(txn)
                    &&& old(self)@.finished_error(txn, e)
                    &&& final(self)@ == old(self)@
                },
            },
    {
        let ghost m = self@;
        match self.check_writable(txn) {
            Ok(_) => {},
            Err(e) => {
                return Err(e);
            },
        }
        let writes: Vec<UndoEntry> = match self.txns.remove(txn.0) {
            Some(state) => state.writes,
            None => Vec::new(),
        };
        assert(writes@ == m.writes_of(txn));
        self.txns.insert(txn.0, TxnState::finished(status));
        proof {
            assert(self@.txns =~= m.ended(txn, status).txns);
            keeps::lemma_ended_wf(m, txn, status);
        }
        Ok(writes)
    }

    /// Ends `txn`: its versions stay, with `txn` now `Committed`.
    ///
    /// # Errors
    ///
    /// A bug for a transaction that already committed or rolled back.
    pub fn commit(&mut self, txn: TxnId) -> (r: SqlResult<()>)
        requires
            old(self)@.wf(),
        ensures
            final(self)@.wf(),
            match r {
                Ok(_) => !old(self)@.finished(txn) && final(self)@ == old(self)@.ended(
                    txn,
                    TxnStatus::Committed,
                ),
                Err(e) => old(self)@.finished(txn) && old(self)@.finished_error(txn, e) && final(
                    self)@ == old(self)@,
            },
    {
        match self.finish_txn(txn, TxnStatus::Committed) {
            Ok(_) => Ok(()),
            Err(e) => Err(e),
        }
    }

    /// Ends `txn` by undoing its writes, the last one first.
    ///
    /// # Errors
    ///
    /// A bug for a transaction that already committed or rolled back; a corruption for a row
    /// whose chain no longer ends with the write being undone, where the undo stops.
    pub fn rollback(&mut self, txn: TxnId) -> (r: SqlResult<()>)
        requires
            old(self)@.wf(),
        ensures
            final(self)@.wf(),
            ({
                let m = old(self)@;
                let aborted = m.ended(txn, TxnStatus::Aborted);
                let writes = m.writes_of(txn);
                if m.finished(txn) {
                    &&& r matches Err(e)
                    &&& m.finished_error(txn, e)
                    &&& final(self)@ == m
                } else {
                    &&& final(self)@ == aborted.all_undone(txn, writes)
                    &&& match aborted.stuck_on(txn, writes) {
                        None => r is Ok,
                        Some(entry) => r matches Err(e) && m.undo_error(txn, entry, e),
                    }
                }
            }),
    {
        match self.finish_txn(txn, TxnStatus::Aborted) {
            Ok(writes) => self.undo_all(txn, writes),
            Err(e) => Err(e),
        }
    }

    /// Takes a savepoint of `txn`, registering an unknown transaction: a savepoint may come
    /// before the first write.
    ///
    /// # Errors
    ///
    /// A bug for a transaction that already committed or rolled back, and when the identifiers
    /// are exhausted (the transaction is registered then).
    pub fn savepoint(&mut self, txn: TxnId) -> (r: SqlResult<SavepointId>)
        requires
            old(self)@.wf(),
        ensures
            final(self)@.wf(),
            match r {
                Ok(sp) => {
                    let m = old(self)@;
                    &&& !m.finished(txn)
                    &&& m.next_savepoint_id < u64::MAX
                    &&& sp == SavepointId(m.next_savepoint_id)
                    &&& final(self)@ == m.saved(txn)
                },
                Err(e) => {
                    let m = old(self)@;
                    if m.finished(txn) {
                        m.finished_error(txn, e) && final(self)@ == m
                    } else {
                        &&& m.next_savepoint_id == u64::MAX
                        &&& e.is_bug(Bug::IdsExhausted(IdSpace::Savepoint))
                        &&& final(self)@ == m.register(txn)
                    }
                },
            },
    {
        let ghost m = self@;
        match self.check_writable(txn) {
            Ok(_) => {},
            Err(e) => {
                return Err(e);
            },
        }
        let mut state: TxnState = match self.txns.remove(txn.0) {
            Some(state) => state,
            None => TxnState::in_progress(),
        };
        let ghost x = registered(m.txns, txn)[txn.0];
        assert(state@ == x);
        proof {
            assert(txn_ok(x, m.next_savepoint_id)) by {
                if m.txns.contains_key(txn.0) {
                    assert(txn_ok(m.txns[txn.0], m.next_savepoint_id));
                }
            }
        }
        let id: u64 = self.next_savepoint_id;
        let next: u64 = match id.checked_add(1) {
            Some(next) => next,
            None => {
                self.txns.insert(txn.0, state);
                proof {
                    assert(self@.txns =~= registered(m.txns, txn));
                    keeps::lemma_log_write_statuses(
                        m.txns,
                        txn,
                        UndoEntry::Insert { table: TableId(0), row: RowId(0) },
                    );
                    assert forall|k: u64| #[trigger] self@.txns.contains_key(k) implies txn_ok(
                        self@.txns[k],
                        m.next_savepoint_id,
                    ) by {
                        if k != txn.0 {
                            assert(m.txns.contains_key(k));
                        }
                    }
                    keeps::lemma_txns_change(m, self@.txns, m.next_savepoint_id);
                }
                return bug(Bug::IdsExhausted(IdSpace::Savepoint));
            },
        };
        self.next_savepoint_id = next;
        let sp: SavepointId = SavepointId(id);
        let mark: usize = state.writes.len();
        state.savepoints.push((sp, mark));
        let ghost y = state@;
        self.txns.insert(txn.0, state);
        proof {
            assert(y == TxnModel { savepoints: x.savepoints.push((sp, mark)), ..x });
            assert(self@ == m.saved(txn)) by {
                assert(self@.txns =~= m.saved(txn).txns);
            }
            keeps::lemma_saved_wf(m, txn);
        }
        Ok(sp)
    }

    /// Undoes the writes `txn` made after its savepoint `sp`; `sp` stays valid, the later
    /// savepoints are invalidated.
    ///
    /// # Errors
    ///
    /// A bug for a transaction the storage never saw, for a finished one, and for a savepoint
    /// that is unknown, invalidated or owned by another transaction; a corruption for a row
    /// whose chain no longer ends with the write being undone, where the undo stops.
    pub fn rollback_to(&mut self, txn: TxnId, sp: SavepointId) -> (r: SqlResult<()>)
        requires
            old(self)@.wf(),
        ensures
            final(self)@.wf(),
            ({
                let m = old(self)@;
                if !m.txns.contains_key(txn.0) {
                    &&& r matches Err(e)
                    &&& e.is_bug(Bug::SavepointOfUnknownTxn { txn, savepoint: sp })
                    &&& final(self)@ == m
                } else if m.finished(txn) {
                    &&& r matches Err(e)
                    &&& m.finished_error(txn, e)
                    &&& final(self)@ == m
                } else if !exists|i: int| #[trigger] m.savepoint_at(txn, sp, i) {
                    &&& r matches Err(e)
                    &&& e.is_bug(Bug::UnknownSavepoint { txn, savepoint: sp })
                    &&& final(self)@ == m
                } else {
                    let i = choose|i: int| #[trigger] m.savepoint_at(txn, sp, i);
                    let cut = m.cut_at(txn, i);
                    &&& final(self)@ == cut.all_undone(txn, m.writes_after(txn, i))
                    &&& match cut.stuck_on(txn, m.writes_after(txn, i)) {
                        None => r is Ok,
                        Some(entry) => r matches Err(e) && m.undo_error(txn, entry, e),
                    }
                }
            }),
    {
        let ghost m = self@;
        let mut state: TxnState = match self.txns.remove(txn.0) {
            Some(state) => state,
            None => {
                assert(self@.txns =~= m.txns);
                return bug(Bug::SavepointOfUnknownTxn { txn, savepoint: sp });
            },
        };
        let ghost x = m.txns[txn.0];
        assert(txn_ok(x, m.next_savepoint_id));
        if state.is_finished() {
            let status: TxnStatus = state.status;
            self.txns.insert(txn.0, state);
            assert(self@.txns =~= m.txns);
            return bug(Bug::FinishedTxn { txn, status });
        }
        let mut pos: usize = 0;
        while pos < state.savepoints.len() && state.savepoints[pos].0 != sp
            invariant
                pos <= state.savepoints@.len(),
                state@ == m.txns[txn.0],
                m.txns.contains_key(txn.0),
                forall|i: int| 0 <= i < pos ==> !#[trigger] m.savepoint_at(txn, sp, i),
            decreases state.savepoints@.len() - pos,
        {
            pos = pos + 1;
        }
        if pos >= state.savepoints.len() {
            self.txns.insert(txn.0, state);
            assert(self@.txns =~= m.txns);
            return bug(Bug::UnknownSavepoint { txn, savepoint: sp });
        }
        let mark: usize = state.savepoints[pos].1;
        proof {
            assert(m.savepoint_at(txn, sp, pos as int));
            let i = choose|i: int| #[trigger] m.savepoint_at(txn, sp, i);
            assert(i == pos) by {
                if i < pos {
                    assert(x.savepoints[i].0.0 < x.savepoints[pos as int].0.0);
                }
                if i > pos {
                    assert(x.savepoints[pos as int].0.0 < x.savepoints[i].0.0);
                }
            }
            assert(x.savepoints[pos as int].1 <= x.writes.len());
        }
        // `sp` stays valid, the later ones are invalidated.
        state.savepoints.truncate(pos + 1);
        let undone: Vec<UndoEntry> = state.writes.split_off(mark);
        let ghost y = state@;
        assert(y.savepoints =~= x.savepoints.take(pos + 1));
        assert(y.writes =~= x.writes.take(mark as int));
        assert(undone@ =~= x.writes.skip(mark as int));
        self.txns.insert(txn.0, state);
        proof {
            assert(self@ == m.cut_at(txn, pos as int)) by {
                assert(self@.txns =~= m.cut_at(txn, pos as int).txns);
            }
            keeps::lemma_cut_wf(m, txn, pos as int);
        }
        self.undo_all(txn, undone)
    }

    /// Nothing to flush: memory is the only medium.
    pub fn checkpoint(&self) -> (r: SqlResult<()>)
        ensures
            r is Ok,
    {
        Ok(())
    }
}

} // verus!
