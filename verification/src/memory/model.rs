//! What the in-memory storage holds, as mathematics: its contents, when they are consistent, and
//! what each operation makes of them.

use vstd::prelude::*;

use super::index::{
    all_comparable, entries_ok, entries_without, live_duplicate, version_at, with_entry, EntryModel, IndexModel,
};
use super::key_order::{key_in, key_inside, order_of};
use super::table::{
    ends_with_update, set_last_xmax, update_undone, TableModel, VersionModel,
};
use super::txn_log::{statuses, TxnModel, UndoEntry};
use crate::error::{Bug, Corruption, SqlError};
use crate::ids::{IndexId, RowId, SavepointId, TableId, TxnId};
use crate::snapshot::{status_of, Snapshot, TxnStatus};
use crate::value::ValueModel;

verus! {

/// The contents of an in-memory storage.
#[verifier::ext_equal]
pub struct StorageModel {
    /// The name of each database.
    pub databases: Map<u64, Seq<char>>,
    /// The tables of every database.
    pub tables: Map<u64, TableModel>,
    /// The indexes of every table.
    pub indexes: Map<u64, IndexModel>,
    /// What is known of each transaction.
    pub txns: Map<u64, TxnModel>,
    /// The next database identifier.
    pub next_db_id: u32,
    /// The next table identifier.
    pub next_table_id: u32,
    /// The next index identifier.
    pub next_index_id: u32,
    /// The next savepoint identifier.
    pub next_savepoint_id: u64,
}

/// Whether the versions of a row are consistent: at least one, each with one value per column,
/// their serials increasing and already handed out.
pub open spec fn chain_ok(chain: Seq<VersionModel>, arity: nat, next_seq: usize) -> bool {
    &&& chain.len() > 0
    &&& forall|i: int|
        0 <= i < chain.len() ==> (#[trigger] chain[i]).data.len() == arity && chain[i].seq < next_seq
    &&& forall|i: int, j: int|
        0 <= i < j < chain.len() ==> (#[trigger] chain[i]).seq < (#[trigger] chain[j]).seq
}

/// Whether a table is consistent.
pub open spec fn table_ok(t: TableModel) -> bool {
    &&& t.shape.columns.len() > 0
    &&& match t.shape.clustered_key {
        Some(key) => {
            &&& t.clustered == Some(order_of(key, t.shape.columns))
            &&& key.len() > 0
            &&& key_inside(key, t.shape.columns.len())
        },
        None => t.clustered is None,
    }
    &&& forall|id: u64|
        #[trigger] t.rows.contains_key(id) ==> id < t.next_row_id && chain_ok(
            t.rows[id],
            t.shape.columns.len(),
            t.next_seq,
        )
}

/// Whether every entry carries the key of the version it names.
pub open spec fn entries_match(
    ix: IndexModel,
    rows: Map<u64, Seq<VersionModel>>,
) -> bool {
    forall|i: int|
        0 <= i < ix.entries.len() ==> {
            &&& version_at(rows, (#[trigger] ix.entries[i]).row, ix.entries[i].version) matches Some(v)
            &&& ix.entries[i].key == key_in(ix.order, v.data)
        }
}

/// Whether an index holds an entry for the version `seq` of `row`.
pub open spec fn has_entry(entries: Seq<EntryModel>, row: u64, seq: usize) -> bool {
    exists|i: int|
        0 <= i < entries.len() && (#[trigger] entries[i]).row.0 == row && entries[i].version == seq
}

/// Whether every version whose creator has not rolled back has an entry.
pub open spec fn entries_cover(
    entries: Seq<EntryModel>,
    rows: Map<u64, Seq<VersionModel>>,
    st: Map<u64, TxnStatus>,
) -> bool {
    forall|id: u64, j: int|
        rows.contains_key(id) && 0 <= j < rows[id].len() && status_of(
            st,
            (#[trigger] rows[id][j]).xmin,
        ) != TxnStatus::Aborted ==> has_entry(entries, id, rows[id][j].seq)
}

/// Whether an index is consistent with its table.
pub open spec fn index_ok(ix: IndexModel, t: TableModel, st: Map<u64, TxnStatus>) -> bool {
    &&& ix.shape.columns.len() > 0
    &&& key_inside(ix.shape.columns, t.shape.columns.len())
    &&& ix.order == order_of(ix.shape.columns, t.shape.columns)
    &&& entries_ok(ix.order, ix.entries)
    &&& entries_match(ix, t.rows)
    &&& entries_cover(ix.entries, t.rows, st)
}

/// Whether what is known of a transaction is consistent: nothing left of a finished one, the
/// savepoints in the order they were taken.
pub open spec fn txn_ok(x: TxnModel, next_savepoint_id: u64) -> bool {
    &&& x.status != TxnStatus::InProgress ==> x.writes.len() == 0 && x.savepoints.len() == 0
    &&& forall|i: int|
        0 <= i < x.savepoints.len() ==> (#[trigger] x.savepoints[i]).0.0 < next_savepoint_id
            && x.savepoints[i].1 <= x.writes.len()
    &&& forall|i: int, j: int|
        0 <= i < j < x.savepoints.len() ==> (#[trigger] x.savepoints[i]).0.0 < (
        #[trigger] x.savepoints[j]).0.0 && x.savepoints[i].1 <= x.savepoints[j].1
}

/// The entry of a version in an index.
pub open spec fn entry_for(ix: IndexModel, row: RowId, data: Seq<ValueModel>, seq: usize) -> EntryModel {
    EntryModel { key: key_in(ix.order, data), row, version: seq }
}

/// The indexes with an entry for a new version of `row` in each index of `table`.
pub open spec fn indexes_with(
    indexes: Map<u64, IndexModel>,
    table: TableId,
    row: RowId,
    data: Seq<ValueModel>,
    seq: usize,
) -> Map<u64, IndexModel> {
    Map::new(
        |k: u64| indexes.contains_key(k),
        |k: u64|
            if indexes[k].table == table {
                IndexModel {
                    entries: with_entry(
                        indexes[k].order,
                        indexes[k].entries,
                        entry_for(indexes[k], row, data, seq),
                    ),
                    ..indexes[k]
                }
            } else {
                indexes[k]
            },
    )
}

/// The indexes without the entries of the versions `gone` of `table`.
pub open spec fn indexes_without(
    indexes: Map<u64, IndexModel>,
    table: TableId,
    gone: Set<(RowId, usize)>,
) -> Map<u64, IndexModel> {
    Map::new(
        |k: u64| indexes.contains_key(k),
        |k: u64|
            if indexes[k].table == table {
                IndexModel { entries: entries_without(indexes[k].entries, gone), ..indexes[k] }
            } else {
                indexes[k]
            },
    )
}

/// The versions of one row, as index entries name them.
pub open spec fn chain_names(row: RowId, chain: Seq<VersionModel>) -> Set<(RowId, usize)> {
    Set::new(
        |p: (RowId, usize)|
            p.0 == row && exists|i: int| 0 <= i < chain.len() && (#[trigger] chain[i]).seq == p.1,
    )
}

/// The registry once `txn` has logged one more write, registered if it was not.
pub open spec fn log_write(txns: Map<u64, TxnModel>, txn: TxnId, entry: UndoEntry) -> Map<
    u64,
    TxnModel,
> {
    let before = registered(txns, txn)[txn.0];
    txns.insert(txn.0, TxnModel { writes: before.writes.push(entry), ..before })
}

/// The registry once `txn` is known.
pub open spec fn registered(txns: Map<u64, TxnModel>, txn: TxnId) -> Map<u64, TxnModel> {
    if txns.contains_key(txn.0) {
        txns
    } else {
        txns.insert(txn.0, TxnModel::blank(TxnStatus::InProgress))
    }
}

/// Whether an index takes a version holding `data`: its key is comparable to the ones there and,
/// for a `unique` index, no live version of another row holds it.
pub open spec fn accepts(
    ix: IndexModel,
    rows: Map<u64, Seq<VersionModel>>,
    data: Seq<ValueModel>,
    txn: TxnId,
    st: Map<u64, TxnStatus>,
    replacing: Option<RowId>,
) -> bool {
    let key = key_in(ix.order, data);
    &&& all_comparable(ix.order, ix.entries, key)
    &&& !(ix.shape.unique && live_duplicate(
        ix.order,
        ix.entries,
        key,
        rows,
        Some(txn),
        st,
        replacing,
    ))
}

/// The error of an index that does not take a version.
pub open spec fn refusal_of(
    ix: IndexModel,
    id: u64,
    data: Seq<ValueModel>,
    e: SqlError,
) -> bool {
    let key = key_in(ix.order, data);
    if !all_comparable(ix.order, ix.entries, key) {
        e == SqlError::IncomparableValues
    } else {
        &&& e matches SqlError::DuplicateKey { table, index, key: shown }
        &&& table == ix.table
        &&& index == IndexId(id as u32)
        &&& shown.deep_view() == key
    }
}

impl StorageModel {
    /// An empty storage.
    pub open spec fn empty() -> StorageModel {
        StorageModel {
            databases: Map::empty(),
            tables: Map::empty(),
            indexes: Map::empty(),
            txns: Map::empty(),
            next_db_id: 1,
            next_table_id: 1,
            next_index_id: 1,
            next_savepoint_id: 1,
        }
    }

    /// The registered statuses.
    pub open spec fn st(self) -> Map<u64, TxnStatus> {
        statuses(self.txns)
    }

    /// Whether the contents are consistent.
    pub open spec fn wf(self) -> bool {
        &&& forall|k: u64| #[trigger] self.databases.contains_key(k) ==> k < self.next_db_id
        &&& forall|k: u64| #[trigger]
            self.tables.contains_key(k) ==> k < self.next_table_id && self.databases.contains_key(
                self.tables[k].db.0 as u64,
            ) && table_ok(self.tables[k])
        &&& forall|k: u64| #[trigger]
            self.indexes.contains_key(k) ==> k < self.next_index_id && self.tables.contains_key(
                self.indexes[k].table.0 as u64,
            ) && index_ok(
                self.indexes[k],
                self.tables[self.indexes[k].table.0 as u64],
                self.st(),
            )
        &&& forall|k: u64| #[trigger]
            self.txns.contains_key(k) ==> txn_ok(self.txns[k], self.next_savepoint_id)
    }

    /// Whether `table` exists.
    pub open spec fn has_table(self, table: TableId) -> bool {
        self.tables.contains_key(table.0 as u64)
    }

    /// The table `table`.
    pub open spec fn table(self, table: TableId) -> TableModel {
        self.tables[table.0 as u64]
    }

    /// Whether `txn` already committed or rolled back.
    pub open spec fn finished(self, txn: TxnId) -> bool {
        self.txns.contains_key(txn.0) && self.txns[txn.0].status != TxnStatus::InProgress
    }

    /// The error of a transaction that already finished.
    pub open spec fn finished_error(self, txn: TxnId, e: SqlError) -> bool {
        e.is_bug(Bug::FinishedTxn { txn, status: self.txns[txn.0].status })
    }

    /// Whether `k` is an index of `table`.
    pub open spec fn index_on(self, k: u64, table: TableId) -> bool {
        self.indexes.contains_key(k) && self.indexes[k].table == table
    }

    /// Whether the index `k` takes a version of a row of its table holding `data`.
    pub open spec fn index_accepts(
        self,
        k: u64,
        txn: TxnId,
        data: Seq<ValueModel>,
        replacing: Option<RowId>,
    ) -> bool {
        accepts(
            self.indexes[k],
            self.table(self.indexes[k].table).rows,
            data,
            txn,
            self.st(),
            replacing,
        )
    }

    /// Whether every index of `table` takes a version holding `data`.
    pub open spec fn accepted(
        self,
        txn: TxnId,
        table: TableId,
        data: Seq<ValueModel>,
        replacing: Option<RowId>,
    ) -> bool {
        forall|k: u64| #[trigger]
            self.index_on(k, table) ==> self.index_accepts(k, txn, data, replacing)
    }

    /// Whether the index `k` is the first of `table` that does not take a version holding
    /// `data`.
    pub open spec fn first_refusing(
        self,
        k: u64,
        txn: TxnId,
        table: TableId,
        data: Seq<ValueModel>,
        replacing: Option<RowId>,
    ) -> bool {
        &&& self.index_on(k, table)
        &&& !self.index_accepts(k, txn, data, replacing)
        &&& forall|j: u64|
            j < k && #[trigger] self.index_on(j, table) ==> self.index_accepts(
                j,
                txn,
                data,
                replacing,
            )
    }

    /// The error of a write an index refuses.
    pub open spec fn refusal(
        self,
        txn: TxnId,
        table: TableId,
        data: Seq<ValueModel>,
        replacing: Option<RowId>,
        e: SqlError,
    ) -> bool {
        exists|k: u64| #[trigger]
            self.first_refusing(k, txn, table, data, replacing) && refusal_of(
                self.indexes[k],
                k,
                data,
                e,
            )
    }

    /// Whether the row `id` of `table` may be replaced or deleted by `txn`: it has a current
    /// version, created by `txn` itself or by a committed transaction.
    pub open spec fn current(self, txn: TxnId, table: TableId, id: RowId) -> bool {
        let rows = self.table(table).rows;
        &&& rows.contains_key(id.0)
        &&& rows[id.0].len() > 0
        &&& rows[id.0].last().xmax is None
        &&& rows[id.0].last().xmin == txn || status_of(self.st(), rows[id.0].last().xmin)
            == TxnStatus::Committed
    }

    /// The error of a row that may not be replaced or deleted.
    pub open spec fn current_error(self, txn: TxnId, table: TableId, id: RowId, e: SqlError) -> bool {
        let rows = self.table(table).rows;
        if !(rows.contains_key(id.0) && rows[id.0].len() > 0) {
            e.is_bug(Bug::UnknownRow { table, row: id })
        } else {
            let last = rows[id.0].last();
            match last.xmax {
                Some(x) => e.is_bug(Bug::StaleRow { table, row: id, by: x }),
                None => e.is_bug(
                    Bug::RowBeingWritten {
                        table,
                        row: id,
                        by: last.xmin,
                        status: status_of(self.st(), last.xmin),
                    },
                ),
            }
        }
    }

    /// The error of an insert, or of an update of the row `replacing`, that is refused: the
    /// first of the checks that fails, in their order.
    pub open spec fn write_error(
        self,
        txn: TxnId,
        table: TableId,
        data: Seq<ValueModel>,
        replacing: Option<RowId>,
        e: SqlError,
    ) -> bool {
        if !self.has_table(table) {
            e.is_bug(Bug::UnknownTable(table))
        } else if data.len() != self.table(table).shape.columns.len() {
            e.is_bug(
                Bug::WrongArity {
                    table,
                    values: data.len() as usize,
                    columns: self.table(table).shape.columns.len() as usize,
                },
            )
        } else if replacing matches Some(id) && !self.current(txn, table, id) {
            self.current_error(txn, table, replacing->0, e)
        } else if self.finished(txn) {
            self.finished_error(txn, e)
        } else {
            !self.accepted(txn, table, data, replacing) && self.refusal(
                txn,
                table,
                data,
                replacing,
                e,
            )
        }
    }

    /// Whether `table` has a row identifier and a version serial left to hand out.
    pub open spec fn has_room(self, table: TableId) -> bool {
        self.has_table(table) ==> self.table(table).next_row_id < u64::MAX && self.table(
            table,
        ).next_seq < usize::MAX
    }

    /// The storage with another table in place of `table`.
    pub open spec fn with_table(self, table: TableId, t: TableModel) -> StorageModel {
        StorageModel { tables: self.tables.insert(table.0 as u64, t), ..self }
    }

    /// The storage once `txn` is known.
    pub open spec fn register(self, txn: TxnId) -> StorageModel {
        StorageModel { txns: registered(self.txns, txn), ..self }
    }

    /// The storage after `txn` inserted a row holding `data` in `table`.
    pub open spec fn inserted(self, txn: TxnId, table: TableId, data: Seq<ValueModel>) -> StorageModel {
        let t = self.table(table);
        let row = RowId(t.next_row_id);
        StorageModel {
            tables: self.tables.insert(table.0 as u64, t.insert(txn, data)),
            indexes: indexes_with(self.indexes, table, row, data, t.next_seq),
            txns: log_write(self.txns, txn, UndoEntry::Insert { table, row }),
            ..self
        }
    }

    /// The storage after `txn` replaced the row `id` of `table` by `data`.
    pub open spec fn updated(
        self,
        txn: TxnId,
        table: TableId,
        id: RowId,
        data: Seq<ValueModel>,
    ) -> StorageModel {
        let t = self.table(table);
        StorageModel {
            tables: self.tables.insert(table.0 as u64, t.supersede(txn, id, Some(data))),
            indexes: indexes_with(self.indexes, table, id, data, t.next_seq),
            txns: log_write(self.txns, txn, UndoEntry::Update { table, row: id }),
            ..self
        }
    }

    /// The storage after `txn` deleted the row `id` of `table`.
    pub open spec fn deleted(self, txn: TxnId, table: TableId, id: RowId) -> StorageModel {
        let t = self.table(table);
        StorageModel {
            tables: self.tables.insert(table.0 as u64, t.supersede(txn, id, None)),
            txns: log_write(self.txns, txn, UndoEntry::Delete { table, row: id }),
            ..self
        }
    }

    /// Whether a write cannot be undone: the chain of its row no longer ends with it.
    pub open spec fn undo_fails(self, txn: TxnId, entry: UndoEntry) -> bool {
        let rows = self.table(entry.table()).rows;
        let row = entry.row().0;
        self.has_table(entry.table()) && match entry {
            UndoEntry::Insert { .. } => false,
            UndoEntry::Update { .. } => !(rows.contains_key(row) && ends_with_update(
                rows[row],
                txn,
            )),
            UndoEntry::Delete { .. } => !(rows.contains_key(row) && rows[row].len() > 0
                && rows[row].last().xmax == Some(txn)),
        }
    }

    /// The error of a write that cannot be undone.
    pub open spec fn undo_error(self, txn: TxnId, entry: UndoEntry, e: SqlError) -> bool {
        match entry {
            UndoEntry::Insert { .. } => false,
            UndoEntry::Update { table, row } => e.is_corruption(
                Corruption::NotTheUpdate { table, row, txn },
            ),
            UndoEntry::Delete { table, row } => e.is_corruption(
                Corruption::NotTheDelete { table, row, txn },
            ),
        }
    }

    /// The storage once one write was undone. A table dropped since the write is ignored.
    pub open spec fn undone(self, txn: TxnId, entry: UndoEntry) -> StorageModel {
        let table = entry.table();
        let t = self.table(table);
        let row = entry.row();
        if !self.has_table(table) {
            self
        } else {
            match entry {
                UndoEntry::Insert { .. } => if t.rows.contains_key(row.0) {
                    StorageModel {
                        indexes: indexes_without(
                            self.indexes,
                            table,
                            chain_names(row, t.rows[row.0]),
                        ),
                        ..self.with_table(table, t.with_rows(t.rows.remove(row.0)))
                    }
                } else {
                    self
                },
                UndoEntry::Update { .. } => StorageModel {
                    indexes: indexes_without(
                        self.indexes,
                        table,
                        set![(row, t.rows[row.0].last().seq)],
                    ),
                    ..self.with_table(
                        table,
                        t.with_rows(t.rows.insert(row.0, update_undone(t.rows[row.0]))),
                    )
                },
                UndoEntry::Delete { .. } => self.with_table(
                    table,
                    t.with_rows(t.rows.insert(row.0, set_last_xmax(t.rows[row.0], None))),
                ),
            }
        }
    }

    /// The storage once the writes were undone, the last one first, up to the first that cannot
    /// be.
    pub open spec fn all_undone(self, txn: TxnId, writes: Seq<UndoEntry>) -> StorageModel
        decreases writes.len(),
    {
        if writes.len() == 0 || self.undo_fails(txn, writes.last()) {
            self
        } else {
            self.undone(txn, writes.last()).all_undone(txn, writes.drop_last())
        }
    }

    /// The write that cannot be undone, if undoing the writes stops on one.
    pub open spec fn stuck_on(self, txn: TxnId, writes: Seq<UndoEntry>) -> Option<UndoEntry>
        decreases writes.len(),
    {
        if writes.len() == 0 {
            None
        } else if self.undo_fails(txn, writes.last()) {
            Some(writes.last())
        } else {
            self.undone(txn, writes.last()).stuck_on(txn, writes.drop_last())
        }
    }

    /// The writes `txn` has logged.
    pub open spec fn writes_of(self, txn: TxnId) -> Seq<UndoEntry> {
        if self.txns.contains_key(txn.0) {
            self.txns[txn.0].writes
        } else {
            Seq::empty()
        }
    }

    /// The storage with other knowledge of `txn`.
    pub open spec fn with_txn(self, txn: TxnId, x: TxnModel) -> StorageModel {
        StorageModel { txns: self.txns.insert(txn.0, x), ..self }
    }

    /// The storage once `txn` ended with `status`, its undo log and its savepoints dropped.
    pub open spec fn ended(self, txn: TxnId, status: TxnStatus) -> StorageModel {
        self.with_txn(txn, TxnModel::blank(status))
    }

    /// Whether the savepoint at position `i` of `txn` is `sp`.
    pub open spec fn savepoint_at(self, txn: TxnId, sp: SavepointId, i: int) -> bool {
        &&& self.txns.contains_key(txn.0)
        &&& 0 <= i < self.txns[txn.0].savepoints.len()
        &&& self.txns[txn.0].savepoints[i].0 == sp
    }

    /// The storage once `txn` took a savepoint.
    pub open spec fn saved(self, txn: TxnId) -> StorageModel {
        let x = registered(self.txns, txn)[txn.0];
        StorageModel {
            next_savepoint_id: (self.next_savepoint_id + 1) as u64,
            ..self.with_txn(
                txn,
                TxnModel {
                    savepoints: x.savepoints.push(
                        (SavepointId(self.next_savepoint_id), x.writes.len() as usize),
                    ),
                    ..x
                },
            )
        }
    }

    /// The storage once the log of `txn` was cut at its savepoint at position `i`, the later
    /// savepoints dropped.
    pub open spec fn cut_at(self, txn: TxnId, i: int) -> StorageModel {
        let x = self.txns[txn.0];
        self.with_txn(
            txn,
            TxnModel {
                writes: x.writes.take(x.savepoints[i].1 as int),
                savepoints: x.savepoints.take(i + 1),
                ..x
            },
        )
    }

    /// The writes `txn` logged after its savepoint at position `i`.
    pub open spec fn writes_after(self, txn: TxnId, i: int) -> Seq<UndoEntry> {
        self.txns[txn.0].writes.skip(self.txns[txn.0].savepoints[i].1 as int)
    }

    /// What `snap` sees of a chain: its versions that are visible.
    pub open spec fn sees(self, snap: Snapshot, v: VersionModel) -> bool {
        snap.visible(v.xmin, v.xmax, self.st())
    }
}

} // verus!
