//! Databases, tables and indexes of the in-memory storage: created, dropped and listed. None of
//! it is transactional.

use vstd::prelude::*;

use super::index::{duplicated_at, version_at, EntryModel, Index, IndexModel};
use super::key_order::{
    first_outside, key_in, key_inside, keys_comparable, order_of, Column, KeyOrder,
};
use super::model::{index_ok, table_ok, StorageModel};
use super::table::{Table, TableModel, VersionModel};
use super::{next_id, MemoryStorage};
use crate::error::{bug, Bug, IdSpace, KeyKind, SqlError, SqlResult};
use crate::ids::{DbId, IndexId, TableId};
use crate::ordmap::increasing;
use crate::shape::{IndexShape, IndexShapeModel, TableShape, TableShapeModel};
use crate::snapshot::{status_of, TxnStatus};
use crate::value::ValueModel;

verus! {

/// Whether a table of this shape may be created: at least one column, and a clustered key, if
/// any, of at least one column, all of them columns of the table.
pub open spec fn table_shape_ok(shape: TableShapeModel) -> bool {
    &&& shape.columns.len() > 0
    &&& shape.clustered_key matches Some(key) ==> key.len() > 0 && key_inside(
        key,
        shape.columns.len(),
    )
}

/// The error of a key that names no column, or a column outside the table.
pub open spec fn key_error(
    kind: KeyKind,
    key: Seq<crate::shape::KeyColumn>,
    columns: nat,
    e: SqlError,
) -> bool {
    if key.len() == 0 {
        e.is_bug(Bug::EmptyKey(kind))
    } else {
        exists|i: int| #[trigger]
            first_outside(key, columns, i) && e.is_bug(
                Bug::KeyColumnOutOfRange {
                    key: kind,
                    column: key[i].column,
                    columns: columns as usize,
                },
            )
    }
}

/// The error of a shape no table may be created with.
pub open spec fn table_shape_error(shape: TableShapeModel, e: SqlError) -> bool {
    if shape.columns.len() == 0 {
        e.is_bug(Bug::NoColumn)
    } else {
        shape.clustered_key matches Some(key) && key_error(
            KeyKind::Clustered,
            key,
            shape.columns.len(),
            e,
        )
    }
}

/// Whether `i` is the position of the first included column outside a table of `columns`
/// columns.
pub open spec fn first_included_outside(included: Seq<u16>, columns: nat, i: int) -> bool {
    &&& 0 <= i < included.len()
    &&& included[i] >= columns
    &&& forall|j: int| 0 <= j < i ==> (#[trigger] included[j]) < columns
}

/// Whether an index of this shape may be created on a table of `columns` columns.
pub open spec fn index_shape_ok(def: IndexShapeModel, columns: nat) -> bool {
    &&& def.columns.len() > 0
    &&& key_inside(def.columns, columns)
    &&& forall|j: int| 0 <= j < def.included.len() ==> (#[trigger] def.included[j]) < columns
}

/// The error of a shape no index may be created with.
pub open spec fn index_shape_error(def: IndexShapeModel, columns: nat, e: SqlError) -> bool {
    if !(def.columns.len() > 0 && key_inside(def.columns, columns)) {
        key_error(KeyKind::Index, def.columns, columns, e)
    } else {
        exists|i: int| #[trigger]
            first_included_outside(def.included, columns, i) && e.is_bug(
                Bug::IncludedColumnOutOfRange {
                    column: def.included[i],
                    columns: columns as usize,
                },
            )
    }
}

/// Whether the version `j` of row `id` is one a new index holds: its creator has not rolled
/// back.
pub open spec fn indexable(
    rows: Map<u64, Seq<VersionModel>>,
    st: Map<u64, TxnStatus>,
    id: u64,
    j: int,
) -> bool {
    &&& rows.contains_key(id)
    &&& 0 <= j < rows[id].len()
    &&& status_of(st, rows[id][j].xmin) != TxnStatus::Aborted
}

/// Whether two versions a new index would hold have keys that are not comparable.
pub open spec fn versions_clash(
    order: Seq<Column>,
    rows: Map<u64, Seq<VersionModel>>,
    st: Map<u64, TxnStatus>,
) -> bool {
    exists|a: u64, i: int, b: u64, j: int| #[trigger]
        indexable(rows, st, a, i) && #[trigger] indexable(rows, st, b, j) && !keys_comparable(
            order,
            key_in(order, rows[a][i].data),
            key_in(order, rows[b][j].data),
        )
}

/// Whether `ix` is the index just built on the table `t`: consistent with it, and holding no
/// version whose creator has rolled back.
pub open spec fn built(ix: IndexModel, t: TableModel, st: Map<u64, TxnStatus>) -> bool {
    &&& index_ok(ix, t, st)
    &&& forall|i: int|
        0 <= i < ix.entries.len() ==> status_of(
            st,
            version_at(t.rows, (#[trigger] ix.entries[i]).row, ix.entries[i].version)->0.xmin,
        ) != TxnStatus::Aborted
}

/// Whether live versions of two distinct rows of `t` share a key of the index `ix`.
pub open spec fn holds_duplicate(ix: IndexModel, t: TableModel, st: Map<u64, TxnStatus>) -> bool {
    exists|g: int|
        0 <= g < ix.entries.len() && #[trigger] duplicated_at(ix.order, ix.entries, t.rows, st, g)
}

/// Whether `key` is the first key of the index `ix` that live versions of two distinct rows of
/// `t` share.
pub open spec fn first_duplicate(
    ix: IndexModel,
    t: TableModel,
    st: Map<u64, TxnStatus>,
    key: Seq<ValueModel>,
) -> bool {
    exists|g: int|
        0 <= g < ix.entries.len() && #[trigger] duplicated_at(ix.order, ix.entries, t.rows, st, g)
            && key == ix.entries[g].key && forall|h: int|
            0 <= h < g ==> !#[trigger] duplicated_at(ix.order, ix.entries, t.rows, st, h)
}

impl StorageModel {
    /// The storage with one more database.
    pub open spec fn with_database(self, name: Seq<char>) -> StorageModel {
        StorageModel {
            databases: self.databases.insert(self.next_db_id as u64, name),
            next_db_id: (self.next_db_id + 1) as u32,
            ..self
        }
    }

    /// The storage without the database `db`, its tables and their indexes.
    pub open spec fn without_database(self, db: DbId) -> StorageModel {
        StorageModel {
            databases: self.databases.remove(db.0 as u64),
            tables: self.tables.remove_keys(
                Set::new(|k: u64| self.tables.contains_key(k) && self.tables[k].db == db),
            ),
            indexes: self.indexes.remove_keys(
                Set::new(
                    |k: u64|
                        self.indexes.contains_key(k) && self.table(self.indexes[k].table).db == db,
                ),
            ),
            ..self
        }
    }

    /// The storage with one more table.
    pub open spec fn with_new_table(self, db: DbId, shape: TableShapeModel) -> StorageModel {
        StorageModel {
            tables: self.tables.insert(
                self.next_table_id as u64,
                TableModel {
                    db,
                    shape,
                    clustered: match shape.clustered_key {
                        Some(key) => Some(order_of(key, shape.columns)),
                        None => None,
                    },
                    rows: Map::empty(),
                    next_row_id: 1,
                    next_seq: 1,
                },
            ),
            next_table_id: (self.next_table_id + 1) as u32,
            ..self
        }
    }

    /// The storage without the table `table` and its indexes.
    pub open spec fn without_table(self, table: TableId) -> StorageModel {
        StorageModel {
            tables: self.tables.remove(table.0 as u64),
            indexes: self.indexes.remove_keys(
                Set::new(
                    |k: u64| self.indexes.contains_key(k) && self.indexes[k].table == table,
                ),
            ),
            ..self
        }
    }

    /// The storage with one more index.
    pub open spec fn with_index(self, ix: IndexModel) -> StorageModel {
        StorageModel {
            indexes: self.indexes.insert(self.next_index_id as u64, ix),
            next_index_id: (self.next_index_id + 1) as u32,
            ..self
        }
    }

    /// The index of shape `def` on `table`, holding `entries`.
    pub open spec fn index_of_shape(
        self,
        table: TableId,
        def: IndexShapeModel,
        entries: Seq<EntryModel>,
    ) -> IndexModel {
        IndexModel {
            table,
            shape: def,
            order: order_of(def.columns, self.table(table).shape.columns),
            entries,
        }
    }
}

/// Whether `out` lists, in increasing identifier order, the name of every database.
pub open spec fn lists_databases(out: Seq<(DbId, String)>, databases: Map<u64, Seq<char>>) -> bool {
    &&& forall|i: int|
        0 <= i < out.len() ==> databases.contains_key((#[trigger] out[i]).0.0 as u64)
            && databases[out[i].0.0 as u64] == out[i].1@
    &&& forall|i: int, j: int|
        0 <= i < j < out.len() ==> (#[trigger] out[i]).0.0 < (#[trigger] out[j]).0.0
    &&& forall|k: u64| #[trigger]
        databases.contains_key(k) ==> exists|i: int|
            0 <= i < out.len() && (#[trigger] out[i]).0.0 == k
}

/// Whether `out` lists, in increasing identifier order, the shape of every table of `db`.
pub open spec fn lists_tables(
    out: Seq<(TableId, TableShape)>,
    tables: Map<u64, TableModel>,
    db: DbId,
) -> bool {
    &&& forall|i: int|
        0 <= i < out.len() ==> {
            let k = (#[trigger] out[i]).0.0 as u64;
            tables.contains_key(k) && tables[k].db == db && tables[k].shape == out[i].1@
        }
    &&& forall|i: int, j: int|
        0 <= i < j < out.len() ==> (#[trigger] out[i]).0.0 < (#[trigger] out[j]).0.0
    &&& forall|k: u64| #[trigger]
        tables.contains_key(k) && tables[k].db == db ==> exists|i: int|
            0 <= i < out.len() && (#[trigger] out[i]).0.0 == k
}

/// Whether `out` lists, in increasing identifier order, the shape of every index of `table`.
pub open spec fn lists_indexes(
    out: Seq<(IndexId, IndexShape)>,
    indexes: Map<u64, IndexModel>,
    table: TableId,
) -> bool {
    &&& forall|i: int|
        0 <= i < out.len() ==> {
            let k = (#[trigger] out[i]).0.0 as u64;
            indexes.contains_key(k) && indexes[k].table == table && indexes[k].shape == out[i].1@
        }
    &&& forall|i: int, j: int|
        0 <= i < j < out.len() ==> (#[trigger] out[i]).0.0 < (#[trigger] out[j]).0.0
    &&& forall|k: u64| #[trigger]
        indexes.contains_key(k) && indexes[k].table == table ==> exists|i: int|
            0 <= i < out.len() && (#[trigger] out[i]).0.0 == k
}

/// Checks a table shape and builds the comparator of its clustered key, if any.
fn check_shape(shape: &TableShape) -> (r: SqlResult<Option<KeyOrder>>)
    ensures
        match r {
            Ok(clustered) => {
                &&& table_shape_ok(shape@)
                &&& match shape@.clustered_key {
                    Some(key) => clustered matches Some(order) && order@ == order_of(
                        key,
                        shape@.columns,
                    ),
                    None => clustered is None,
                }
            },
            Err(e) => !table_shape_ok(shape@) && table_shape_error(shape@, e),
        },
{
    if shape.columns.len() == 0 {
        return bug(Bug::NoColumn);
    }
    match &shape.clustered_key {
        Some(key) => match KeyOrder::new(KeyKind::Clustered, key, shape) {
            Ok(order) => Ok(Some(order)),
            Err(e) => Err(e),
        },
        None => Ok(None),
    }
}

impl MemoryStorage {
    /// Creates a database named `name` and answers its fresh identifier.
    ///
    /// # Errors
    ///
    /// A bug when the identifiers are exhausted.
    pub fn create_database(&mut self, name: &str) -> (r: SqlResult<DbId>)
        requires
            old(self)@.wf(),
        ensures
            final(self)@.wf(),
            match r {
                Ok(db) => {
                    &&& old(self)@.next_db_id < u32::MAX
                    &&& db == DbId(old(self)@.next_db_id)
                    &&& final(self)@ == old(self)@.with_database(name@)
                },
                Err(e) => {
                    &&& old(self)@.next_db_id == u32::MAX
                    &&& e.is_bug(Bug::IdsExhausted(IdSpace::Database))
                    &&& final(self)@ == old(self)@
                },
            },
    {
        let ghost m = self@;
        let id: u32 = match next_id(&mut self.next_db_id, IdSpace::Database) {
            Ok(id) => id,
            Err(e) => {
                return Err(e);
            },
        };
        self.databases.insert(id as u64, name.to_owned());
        proof {
            let after = self@;
            assert(after == m.with_database(name@));
            lemma_wf_tables(m, after);
        }
        Ok(DbId(id))
    }

    /// Drops the database `db`, its tables and their indexes.
    ///
    /// # Errors
    ///
    /// A bug for an unknown database.
    pub fn drop_database(&mut self, db: DbId) -> (r: SqlResult<()>)
        requires
            old(self)@.wf(),
        ensures
            final(self)@.wf(),
            match r {
                Ok(_) => old(self)@.databases.contains_key(db.0 as u64) && final(self)@ == old(
                    self)@.without_database(db),
                Err(e) => !old(self)@.databases.contains_key(db.0 as u64) && e.is_bug(
                    Bug::UnknownDatabase(db),
                ) && final(self)@ == old(self)@,
            },
    {
        let ghost m = self@;
        if self.databases.remove(db.0 as u64).is_none() {
            assert(self@.databases =~= m.databases);
            return bug(Bug::UnknownDatabase(db));
        }
        let tables: Vec<u64> = self.tables.keys();
        let ghost doomed = Set::new(|k: u64| m.tables.contains_key(k) && m.tables[k].db == db);
        let ghost doomed_indexes = Set::new(
            |k: u64| m.indexes.contains_key(k) && m.table(m.indexes[k].table).db == db,
        );
        let indexes: Vec<u64> = self.indexes.keys();
        assert(self@.indexes =~= m.indexes.remove_keys(taken(indexes@, doomed_indexes, 0)));
        for n in 0..indexes.len()
            invariant
                self@ == (StorageModel {
                    databases: m.databases.remove(db.0 as u64),
                    indexes: m.indexes.remove_keys(taken(indexes@, doomed_indexes, n as int)),
                    ..m
                }),
                m.wf(),
                increasing(indexes@),
                forall|k: u64| #[trigger] indexes@.contains(k) <==> m.indexes.contains_key(k),
                forall|k: u64| #[trigger]
                    doomed_indexes.contains(k) <==> m.indexes.contains_key(k) && m.table(
                        m.indexes[k].table,
                    ).db == db,
        {
            let k: u64 = indexes[n];
            assert(indexes@.contains(k));
            assert(!taken(indexes@, doomed_indexes, n as int).contains(k)) by {
                lemma_not_taken(indexes@, doomed_indexes, n as int);
            }
            let doom: bool = match self.indexes.get(k) {
                Some(index) => match self.tables.get(index.table.0 as u64) {
                    Some(t) => t.db == db,
                    None => false,
                },
                None => false,
            };
            assert(m.indexes.contains_key(k));
            assert(doom == doomed_indexes.contains(k));
            if doom {
                let _gone: Option<Index> = self.indexes.remove(k);
            }
            proof {
                lemma_taken_one_more(indexes@, doomed_indexes, n as int);
                assert(self@.indexes =~= m.indexes.remove_keys(
                    taken(indexes@, doomed_indexes, n + 1),
                ));
            }
        }
        proof {
            lemma_taken_all(indexes@, doomed_indexes);
            assert(self@.tables =~= m.tables.remove_keys(taken(tables@, doomed, 0)));
        }
        for n in 0..tables.len()
            invariant
                self@ == (StorageModel {
                    databases: m.databases.remove(db.0 as u64),
                    tables: m.tables.remove_keys(taken(tables@, doomed, n as int)),
                    indexes: m.indexes.remove_keys(doomed_indexes),
                    ..m
                }),
                increasing(tables@),
                forall|k: u64| #[trigger] tables@.contains(k) <==> m.tables.contains_key(k),
                forall|k: u64| #[trigger]
                    doomed.contains(k) <==> m.tables.contains_key(k) && m.tables[k].db == db,
        {
            let k: u64 = tables[n];
            assert(tables@.contains(k));
            assert(!taken(tables@, doomed, n as int).contains(k)) by {
                lemma_not_taken(tables@, doomed, n as int);
            }
            let doom: bool = match self.tables.get(k) {
                Some(t) => t.db == db,
                None => false,
            };
            if doom {
                let _gone: Option<Table> = self.tables.remove(k);
            }
            proof {
                lemma_taken_one_more(tables@, doomed, n as int);
                assert(self@.tables =~= m.tables.remove_keys(taken(tables@, doomed, n + 1)));
            }
        }
        proof {
            lemma_taken_all(tables@, doomed);
            assert(self@ == m.without_database(db));
            lemma_wf_tables(m, self@);
        }
        Ok(())
    }

    /// The databases with their name, by increasing identifier.
    pub fn databases(&self) -> (r: SqlResult<Vec<(DbId, String)>>)
        requires
            self@.wf(),
        ensures
            r matches Ok(out) && lists_databases(out@, self@.databases),
    {
        let keys: Vec<u64> = self.databases.keys();
        let ghost m = self@;
        let mut out: Vec<(DbId, String)> = Vec::with_capacity(keys.len());
        for n in 0..keys.len()
            invariant
                m == self@,
                m.wf(),
                increasing(keys@),
                keys@ == self.databases.order(),
                forall|k: u64| #[trigger] keys@.contains(k) <==> m.databases.contains_key(k),
                out@.len() == n,
                forall|i: int|
                    0 <= i < n ==> (#[trigger] out@[i]).0.0 == keys@[i] && out@[i].1@
                        == m.databases[keys@[i]],
        {
            assert(keys@.contains(keys@[n as int]));
            let k: u64 = keys[n];
            let name: String = self.databases.value_at(n).clone();
            assert(k < m.next_db_id);
            out.push((DbId(k as u32), name));
        }
        proof {
            assert forall|i: int| 0 <= i < out@.len() implies m.databases.contains_key(
                (#[trigger] out@[i]).0.0 as u64,
            ) by {
                assert(keys@.contains(keys@[i]));
            }
            assert forall|i: int, j: int| 0 <= i < j < out@.len() implies (#[trigger] out@[i]).0.0
                < (#[trigger] out@[j]).0.0 by {
                assert(keys@[i] < keys@[j]);
            }
            assert forall|k: u64| #[trigger] m.databases.contains_key(k) implies exists|i: int|
                0 <= i < out@.len() && (#[trigger] out@[i]).0.0 == k by {
                assert(keys@.contains(k));
                assert(out@[keys@.index_of(k)].0.0 == k);
            }
        }
        Ok(out)
    }

    /// Creates a table of shape `shape` in `db` and answers its fresh identifier.
    ///
    /// # Errors
    ///
    /// A bug for a shape without column, a clustered key that is empty or names a column
    /// outside the shape, an unknown database, and when the identifiers are exhausted, in that
    /// order.
    pub fn create_table(&mut self, db: DbId, shape: &TableShape) -> (r: SqlResult<TableId>)
        requires
            old(self)@.wf(),
        ensures
            final(self)@.wf(),
            match r {
                Ok(table) => {
                    let m = old(self)@;
                    &&& table_shape_ok(shape@)
                    &&& m.databases.contains_key(db.0 as u64)
                    &&& m.next_table_id < u32::MAX
                    &&& table == TableId(m.next_table_id)
                    &&& final(self)@ == m.with_new_table(db, shape@)
                },
                Err(e) => {
                    let m = old(self)@;
                    &&& final(self)@ == m
                    &&& if !table_shape_ok(shape@) {
                        table_shape_error(shape@, e)
                    } else if !m.databases.contains_key(db.0 as u64) {
                        e.is_bug(Bug::UnknownDatabase(db))
                    } else {
                        m.next_table_id == u32::MAX && e.is_bug(Bug::IdsExhausted(IdSpace::Table))
                    }
                },
            },
    {
        let ghost m = self@;
        let clustered: Option<KeyOrder> = match check_shape(shape) {
            Ok(clustered) => clustered,
            Err(e) => {
                return Err(e);
            },
        };
        if !self.databases.contains_key(db.0 as u64) {
            return bug(Bug::UnknownDatabase(db));
        }
        let id: u32 = match next_id(&mut self.next_table_id, IdSpace::Table) {
            Ok(id) => id,
            Err(e) => {
                return Err(e);
            },
        };
        let t: Table = Table::new(db, shape.duplicate(), clustered);
        self.tables.insert(id as u64, t);
        proof {
            let after = self@;
            assert(after == m.with_new_table(db, shape@));
            assert(table_ok(after.tables[id as u64]));
            lemma_wf_tables(m, after);
        }
        Ok(TableId(id))
    }

    /// Drops the table `table` and its indexes.
    ///
    /// # Errors
    ///
    /// A bug for an unknown table.
    pub fn drop_table(&mut self, table: TableId) -> (r: SqlResult<()>)
        requires
            old(self)@.wf(),
        ensures
            final(self)@.wf(),
            match r {
                Ok(_) => old(self)@.has_table(table) && final(self)@ == old(self)@.without_table(
                    table,
                ),
                Err(e) => !old(self)@.has_table(table) && e.is_bug(Bug::UnknownTable(table))
                    && final(self)@ == old(self)@,
            },
    {
        let ghost m = self@;
        if self.tables.remove(table.0 as u64).is_none() {
            assert(self@.tables =~= m.tables);
            return bug(Bug::UnknownTable(table));
        }
        let indexes: Vec<u64> = self.indexes.keys();
        let ghost doomed = Set::new(
            |k: u64| m.indexes.contains_key(k) && m.indexes[k].table == table,
        );
        assert(self@.indexes =~= m.indexes.remove_keys(taken(indexes@, doomed, 0)));
        for n in 0..indexes.len()
            invariant
                self@ == (StorageModel {
                    tables: m.tables.remove(table.0 as u64),
                    indexes: m.indexes.remove_keys(taken(indexes@, doomed, n as int)),
                    ..m
                }),
                increasing(indexes@),
                forall|k: u64| #[trigger] indexes@.contains(k) <==> m.indexes.contains_key(k),
                forall|k: u64| #[trigger]
                    doomed.contains(k) <==> m.indexes.contains_key(k) && m.indexes[k].table
                        == table,
        {
            let k: u64 = indexes[n];
            assert(indexes@.contains(k));
            assert(!taken(indexes@, doomed, n as int).contains(k)) by {
                lemma_not_taken(indexes@, doomed, n as int);
            }
            let doom: bool = match self.indexes.get(k) {
                Some(index) => index.table == table,
                None => false,
            };
            if doom {
                let _gone: Option<Index> = self.indexes.remove(k);
            }
            proof {
                lemma_taken_one_more(indexes@, doomed, n as int);
                assert(self@.indexes =~= m.indexes.remove_keys(taken(indexes@, doomed, n + 1)));
            }
        }
        proof {
            lemma_taken_all(indexes@, doomed);
            assert(self@ == m.without_table(table));
            lemma_wf_tables(m, self@);
        }
        Ok(())
    }

    /// The tables of `db` with their shape, by increasing identifier.
    ///
    /// # Errors
    ///
    /// A bug for an unknown database.
    pub fn tables(&self, db: DbId) -> (r: SqlResult<Vec<(TableId, TableShape)>>)
        requires
            self@.wf(),
        ensures
            match r {
                Ok(out) => self@.databases.contains_key(db.0 as u64) && lists_tables(
                    out@,
                    self@.tables,
                    db,
                ),
                Err(e) => !self@.databases.contains_key(db.0 as u64) && e.is_bug(
                    Bug::UnknownDatabase(db),
                ),
            },
    {
        if !self.databases.contains_key(db.0 as u64) {
            return bug(Bug::UnknownDatabase(db));
        }
        let keys: Vec<u64> = self.tables.keys();
        let ghost m = self@;
        let mut out: Vec<(TableId, TableShape)> = Vec::new();
        for n in 0..keys.len()
            invariant
                m == self@,
                m.wf(),
                increasing(keys@),
                keys@ == self.tables.order(),
                forall|k: u64| #[trigger] keys@.contains(k) <==> m.tables.contains_key(k),
                forall|i: int|
                    0 <= i < out@.len() ==> {
                        let k = (#[trigger] out@[i]).0.0 as u64;
                        m.tables.contains_key(k) && m.tables[k].db == db && m.tables[k].shape
                            == out@[i].1@
                    },
                forall|i: int, j: int|
                    0 <= i < j < out@.len() ==> (#[trigger] out@[i]).0.0 < (
                    #[trigger] out@[j]).0.0,
                forall|i: int, j: int|
                    0 <= i < out@.len() && n <= j < keys@.len() ==> (#[trigger] out@[i]).0.0 < (
                    #[trigger] keys@[j]),
                forall|j: int|
                    0 <= j < n && m.tables[#[trigger] keys@[j]].db == db ==> exists|i: int|
                        0 <= i < out@.len() && (#[trigger] out@[i]).0.0 == keys@[j],
        {
            let k: u64 = keys[n];
            let ghost before = out@;
            assert(keys@.contains(keys@[n as int]));
            assert(k < m.next_table_id);
            let t: &Table = self.tables.value_at(n);
            if t.db == db {
                out.push((TableId(k as u32), t.shape.duplicate()));
            }
            proof {
                assert forall|i: int, j: int|
                    0 <= i < out@.len() && n + 1 <= j < keys@.len() implies (#[trigger] out@[i]).0.0
                        < (#[trigger] keys@[j]) by {
                    assert(keys@[n as int] < keys@[j]);
                    if i < before.len() {
                        assert(out@[i] == before[i]);
                    }
                }
                assert forall|j: int|
                    0 <= j < n + 1 && m.tables[#[trigger] keys@[j]].db == db implies exists|i: int|
                    0 <= i < out@.len() && (#[trigger] out@[i]).0.0 == keys@[j] by {
                    if j < n {
                        let i = choose|i: int|
                            0 <= i < before.len() && (#[trigger] before[i]).0.0 == keys@[j];
                        assert(out@[i] == before[i]);
                    } else {
                        assert(out@[before.len() as int].0.0 == k);
                    }
                }
            }
        }
        proof {
            assert forall|k: u64| #[trigger]
                m.tables.contains_key(k) && m.tables[k].db == db implies exists|i: int|
                0 <= i < out@.len() && (#[trigger] out@[i]).0.0 == k by {
                assert(keys@.contains(k));
                let j = keys@.index_of(k);
                assert(m.tables[keys@[j]].db == db);
            }
        }
        Ok(out)
    }

    /// Drops the index `index`; the rows are untouched.
    ///
    /// # Errors
    ///
    /// A bug for an unknown index.
    pub fn drop_index(&mut self, index: IndexId) -> (r: SqlResult<()>)
        requires
            old(self)@.wf(),
        ensures
            final(self)@.wf(),
            match r {
                Ok(_) => {
                    &&& old(self)@.indexes.contains_key(index.0 as u64)
                    &&& final(self)@ == (StorageModel {
                        indexes: old(self)@.indexes.remove(index.0 as u64),
                        ..old(self)@
                    })
                },
                Err(e) => {
                    &&& !old(self)@.indexes.contains_key(index.0 as u64)
                    &&& e.is_bug(Bug::UnknownIndex(index))
                    &&& final(self)@ == old(self)@
                },
            },
    {
        let ghost m = self@;
        if self.indexes.remove(index.0 as u64).is_none() {
            assert(self@.indexes =~= m.indexes);
            return bug(Bug::UnknownIndex(index));
        }
        proof {
            lemma_wf_tables(m, self@);
        }
        Ok(())
    }

    /// The indexes of `table` with their shape, by increasing identifier.
    ///
    /// # Errors
    ///
    /// A bug for an unknown table.
    pub fn indexes(&self, table: TableId) -> (r: SqlResult<Vec<(IndexId, IndexShape)>>)
        requires
            self@.wf(),
        ensures
            match r {
                Ok(out) => self@.has_table(table) && lists_indexes(out@, self@.indexes, table),
                Err(e) => !self@.has_table(table) && e.is_bug(Bug::UnknownTable(table)),
            },
    {
        if !self.tables.contains_key(table.0 as u64) {
            return bug(Bug::UnknownTable(table));
        }
        let keys: Vec<u64> = self.indexes.keys();
        let ghost m = self@;
        let mut out: Vec<(IndexId, IndexShape)> = Vec::new();
        for n in 0..keys.len()
            invariant
                m == self@,
                m.wf(),
                increasing(keys@),
                keys@ == self.indexes.order(),
                forall|k: u64| #[trigger] keys@.contains(k) <==> m.indexes.contains_key(k),
                forall|i: int|
                    0 <= i < out@.len() ==> {
                        let k = (#[trigger] out@[i]).0.0 as u64;
                        m.indexes.contains_key(k) && m.indexes[k].table == table
                            && m.indexes[k].shape == out@[i].1@
                    },
                forall|i: int, j: int|
                    0 <= i < j < out@.len() ==> (#[trigger] out@[i]).0.0 < (
                    #[trigger] out@[j]).0.0,
                forall|i: int, j: int|
                    0 <= i < out@.len() && n <= j < keys@.len() ==> (#[trigger] out@[i]).0.0 < (
                    #[trigger] keys@[j]),
                forall|j: int|
                    0 <= j < n && m.indexes[#[trigger] keys@[j]].table == table ==> exists|i: int|
                        0 <= i < out@.len() && (#[trigger] out@[i]).0.0 == keys@[j],
        {
            let k: u64 = keys[n];
            let ghost before = out@;
            assert(keys@.contains(keys@[n as int]));
            assert(k < m.next_index_id);
            let index: &Index = self.indexes.value_at(n);
            if index.table == table {
                out.push((IndexId(k as u32), index.shape.duplicate()));
            }
            proof {
                assert forall|i: int, j: int|
                    0 <= i < out@.len() && n + 1 <= j < keys@.len() implies (#[trigger] out@[i]).0.0
                        < (#[trigger] keys@[j]) by {
                    assert(keys@[n as int] < keys@[j]);
                    if i < before.len() {
                        assert(out@[i] == before[i]);
                    }
                }
                assert forall|j: int|
                    0 <= j < n + 1 && m.indexes[#[trigger] keys@[j]].table == table implies exists|
                    i: int,
                |
                    0 <= i < out@.len() && (#[trigger] out@[i]).0.0 == keys@[j] by {
                    if j < n {
                        let i = choose|i: int|
                            0 <= i < before.len() && (#[trigger] before[i]).0.0 == keys@[j];
                        assert(out@[i] == before[i]);
                    } else {
                        assert(out@[before.len() as int].0.0 == k);
                    }
                }
            }
        }
        proof {
            assert forall|k: u64| #[trigger]
                m.indexes.contains_key(k) && m.indexes[k].table == table implies exists|i: int|
                0 <= i < out@.len() && (#[trigger] out@[i]).0.0 == k by {
                assert(keys@.contains(k));
                let j = keys@.index_of(k);
                assert(m.indexes[keys@[j]].table == table);
            }
        }
        Ok(out)
    }
}

/// The keys of `doomed` among the first `n` of `keys`.
spec fn taken(keys: Seq<u64>, doomed: Set<u64>, n: int) -> Set<u64> {
    Set::new(|k: u64| doomed.contains(k) && keys.take(n).contains(k))
}

proof fn lemma_not_taken(keys: Seq<u64>, doomed: Set<u64>, n: int)
    requires
        0 <= n < keys.len(),
        increasing(keys),
    ensures
        !taken(keys, doomed, n).contains(keys[n]),
{
    if keys.take(n).contains(keys[n]) {
        let j = keys.take(n).index_of(keys[n]);
        assert(keys[j] < keys[n]);
    }
}

proof fn lemma_taken_one_more(keys: Seq<u64>, doomed: Set<u64>, n: int)
    requires
        0 <= n < keys.len(),
    ensures
        taken(keys, doomed, n + 1) == if doomed.contains(keys[n]) {
            taken(keys, doomed, n).insert(keys[n])
        } else {
            taken(keys, doomed, n)
        },
{
    let a = keys.take(n);
    let b = keys.take(n + 1);
    assert(b =~= a.push(keys[n]));
    assert forall|k: u64| b.contains(k) <==> a.contains(k) || k == keys[n] by {
        if a.contains(k) {
            assert(b[a.index_of(k)] == k);
        }
        assert(b[n] == keys[n]);
        if b.contains(k) && k != keys[n] {
            assert(a[b.index_of(k)] == k);
        }
    }
    assert(taken(keys, doomed, n + 1) =~= if doomed.contains(keys[n]) {
        taken(keys, doomed, n).insert(keys[n])
    } else {
        taken(keys, doomed, n)
    });
}

proof fn lemma_taken_all(keys: Seq<u64>, doomed: Set<u64>)
    requires
        forall|k: u64| doomed.contains(k) ==> #[trigger] keys.contains(k),
    ensures
        taken(keys, doomed, keys.len() as int) == doomed,
{
    assert(keys.take(keys.len() as int) =~= keys);
    assert(taken(keys, doomed, keys.len() as int) =~= doomed);
}

/// A change that adds or drops objects, each left or added one consistent, keeps the storage
/// consistent.
proof fn lemma_wf_tables(m: StorageModel, after: StorageModel)
    requires
        m.wf(),
        after.txns == m.txns,
        after.next_savepoint_id == m.next_savepoint_id,
        after.next_index_id >= m.next_index_id,
        forall|k: u64| #[trigger] after.databases.contains_key(k) ==> k < after.next_db_id,
        forall|k: u64| #[trigger]
            after.tables.contains_key(k) ==> k < after.next_table_id && after.databases.contains_key(
                after.tables[k].db.0 as u64,
            ) && table_ok(after.tables[k]),
        forall|k: u64| #[trigger]
            after.indexes.contains_key(k) ==> m.indexes.contains_key(k) && after.indexes[k]
                == m.indexes[k] && after.tables.contains_key(after.indexes[k].table.0 as u64)
                && after.tables[after.indexes[k].table.0 as u64]
                == m.tables[after.indexes[k].table.0 as u64],
    ensures
        after.wf(),
{
}

} // verus!
