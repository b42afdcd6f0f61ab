//! What creating and dropping does to the databases, tables and indexes, and what the lists say.

use vstd::prelude::*;

use super::ddl::{
    first_duplicate, holds_duplicate, index_shape_ok, indexable, lists_databases, lists_indexes,
    lists_tables, table_shape_ok, versions_clash,
};
use super::index::{duplicated_at, EntryModel, IndexModel};
use super::key_order::{key_in, keys_comparable, order_of, Column};
use super::model::StorageModel;
use super::table::{TableModel, VersionModel};
use crate::ids::{DbId, IndexId, TableId};
use crate::shape::{IndexShape, IndexShapeModel, TableShape, TableShapeModel};
use crate::snapshot::TxnStatus;
use crate::value::ValueModel;

verus! {

/// A created database has a new identifier and its name; the others keep theirs.
pub proof fn law_created_database_is_there(m: StorageModel, name: Seq<char>, other: u64)
    requires
        m.wf(),
        m.next_db_id < u32::MAX,
    ensures
        ({
            let n = m.with_database(name);
            let id = m.next_db_id as u64;
            &&& !m.databases.contains_key(id)
            &&& n.databases.contains_key(id) && n.databases[id] == name
            &&& other != id ==> n.databases.contains_key(other) == m.databases.contains_key(other)
            &&& m.databases.contains_key(other) ==> n.databases[other] == m.databases[other]
            &&& n.next_db_id > m.next_db_id
            &&& n.tables == m.tables && n.indexes == m.indexes && n.txns == m.txns
        }),
{
}

/// A created table has a new identifier, the shape and the database it was given, and no rows; the
/// others are as they were.
pub proof fn law_created_table_is_there(m: StorageModel, db: DbId, shape: TableShapeModel, other: u64)
    requires
        m.wf(),
        m.next_table_id < u32::MAX,
    ensures
        ({
            let n = m.with_new_table(db, shape);
            let id = m.next_table_id as u64;
            &&& !m.tables.contains_key(id)
            &&& n.tables.contains_key(id)
            &&& n.tables[id].db == db
            &&& n.tables[id].shape == shape
            &&& forall|r: u64| !#[trigger] n.tables[id].rows.contains_key(r)
            &&& other != id ==> n.tables.contains_key(other) == m.tables.contains_key(other)
            &&& m.tables.contains_key(other) ==> n.tables[other] == m.tables[other]
            &&& n.next_table_id > m.next_table_id
            &&& n.databases == m.databases && n.indexes == m.indexes && n.txns == m.txns
        }),
{
}

/// A created index has a new identifier; the others, and every row, are as they were.
pub proof fn law_created_index_is_there(m: StorageModel, ix: IndexModel, other: u64)
    requires
        m.wf(),
        m.next_index_id < u32::MAX,
    ensures
        ({
            let n = m.with_index(ix);
            let id = m.next_index_id as u64;
            &&& !m.indexes.contains_key(id)
            &&& n.indexes.contains_key(id) && n.indexes[id] == ix
            &&& other != id ==> n.indexes.contains_key(other) == m.indexes.contains_key(other)
            &&& m.indexes.contains_key(other) ==> n.indexes[other] == m.indexes[other]
            &&& n.next_index_id > m.next_index_id
            &&& n.databases == m.databases && n.tables == m.tables && n.txns == m.txns
        }),
{
}

/// A dropped table is gone with its indexes, and nothing else is.
pub proof fn law_dropped_table_is_gone(m: StorageModel, table: TableId, t: u64, x: u64)
    ensures
        ({
            let n = m.without_table(table);
            &&& n.tables.contains_key(t) <==> m.tables.contains_key(t) && t != table.0 as u64
            &&& n.tables.contains_key(t) ==> n.tables[t] == m.tables[t]
            &&& n.indexes.contains_key(x) <==> m.indexes.contains_key(x) && m.indexes[x].table
                != table
            &&& n.indexes.contains_key(x) ==> n.indexes[x] == m.indexes[x]
            &&& n.databases == m.databases && n.txns == m.txns
            &&& n.next_table_id == m.next_table_id && n.next_index_id == m.next_index_id
        }),
{
}

/// A dropped database is gone with its tables and their indexes, and nothing else is.
pub proof fn law_dropped_database_is_gone(m: StorageModel, db: DbId, d: u64, t: u64, x: u64)
    requires
        m.wf(),
    ensures
        ({
            let n = m.without_database(db);
            &&& n.databases.contains_key(d) <==> m.databases.contains_key(d) && d != db.0 as u64
            &&& n.databases.contains_key(d) ==> n.databases[d] == m.databases[d]
            &&& n.tables.contains_key(t) <==> m.tables.contains_key(t) && m.tables[t].db != db
            &&& n.tables.contains_key(t) ==> n.tables[t] == m.tables[t]
            &&& n.indexes.contains_key(x) <==> m.indexes.contains_key(x) && m.tables[
                m.indexes[x].table.0 as u64
            ].db != db
            &&& n.indexes.contains_key(x) ==> n.indexes[x] == m.indexes[x] && n.tables.contains_key(
                n.indexes[x].table.0 as u64,
            )
            &&& n.txns == m.txns
            &&& n.next_db_id == m.next_db_id && n.next_table_id == m.next_table_id
        }),
{
    if m.indexes.contains_key(x) {
        assert(m.tables.contains_key(m.indexes[x].table.0 as u64));
    }
}

/// A table may be created exactly with a column and, if it is clustered, a key of columns it has.
pub proof fn law_table_shape_names_its_own_columns(shape: TableShapeModel)
    ensures
        table_shape_ok(shape) <==> {
            &&& shape.columns.len() >= 1
            &&& match shape.clustered_key {
                None => true,
                Some(key) => key.len() >= 1 && forall|i: int|
                    0 <= i < key.len() ==> (#[trigger] key[i]).column < shape.columns.len(),
            }
        },
{
}

/// An index may be created exactly with a key column and columns its table has.
pub proof fn law_index_shape_names_columns_of_the_table(def: IndexShapeModel, columns: nat)
    ensures
        index_shape_ok(def, columns) <==> {
            &&& def.columns.len() >= 1
            &&& forall|i: int|
                0 <= i < def.columns.len() ==> (#[trigger] def.columns[i]).column < columns
            &&& forall|i: int|
                0 <= i < def.included.len() ==> (#[trigger] def.included[i]) < columns
        },
{
}

/// The list of the databases names each of them once, by increasing identifier, and no others.
pub proof fn law_databases_are_listed_once(
    out: Seq<(DbId, String)>,
    databases: Map<u64, Seq<char>>,
    i: int,
    d: u64,
)
    requires
        lists_databases(out, databases),
    ensures
        0 <= i < out.len() ==> databases.contains_key(out[i].0.0 as u64)
            && databases[out[i].0.0 as u64] == out[i].1@,
        0 <= i < out.len() - 1 ==> out[i].0.0 < out[i + 1].0.0,
        databases.contains_key(d) ==> exists|j: int|
            0 <= j < out.len() && (#[trigger] out[j]).0.0 == d && out[j].1@ == databases[d],
{
    if databases.contains_key(d) {
        let j = choose|j: int| 0 <= j < out.len() && (#[trigger] out[j]).0.0 == d;
        assert(out[j].0.0 as u64 == d);
    }
}

/// The list of the tables of a database names each of them once, with its shape, by increasing
/// identifier, and none of another database.
pub proof fn law_tables_are_listed_once(
    out: Seq<(TableId, TableShape)>,
    tables: Map<u64, TableModel>,
    db: DbId,
    i: int,
    t: u64,
)
    requires
        lists_tables(out, tables, db),
    ensures
        ({
            let k = out[i].0.0 as u64;
            &&& 0 <= i < out.len() ==> tables.contains_key(k) && tables[k].db == db
                && tables[k].shape == out[i].1@
            &&& 0 <= i < out.len() - 1 ==> out[i].0.0 < out[i + 1].0.0
            &&& tables.contains_key(t) && tables[t].db == db ==> exists|j: int|
                0 <= j < out.len() && (#[trigger] out[j]).0.0 == t
        }),
{
    let k = out[i].0.0 as u64;
}

/// The list of the indexes of a table names each of them once, with its shape, by increasing
/// identifier, and none of another table.
pub proof fn law_indexes_are_listed_once(
    out: Seq<(IndexId, IndexShape)>,
    indexes: Map<u64, IndexModel>,
    table: TableId,
    i: int,
    x: u64,
)
    requires
        lists_indexes(out, indexes, table),
    ensures
        ({
            let k = out[i].0.0 as u64;
            &&& 0 <= i < out.len() ==> indexes.contains_key(k) && indexes[k].table == table
                && indexes[k].shape == out[i].1@
            &&& 0 <= i < out.len() - 1 ==> out[i].0.0 < out[i + 1].0.0
            &&& indexes.contains_key(x) && indexes[x].table == table ==> exists|j: int|
                0 <= j < out.len() && (#[trigger] out[j]).0.0 == x
        }),
{
    let k = out[i].0.0 as u64;
}

/// A new index is on the table and of the shape it was asked for, compared by its own key.
pub proof fn law_new_index_is_the_one_asked_for(
    m: StorageModel,
    table: TableId,
    def: IndexShapeModel,
    entries: Seq<EntryModel>,
)
    ensures
        ({
            let ix = m.index_of_shape(table, def, entries);
            &&& ix.table == table
            &&& ix.shape == def
            &&& ix.order == order_of(def.columns, m.table(table).shape.columns)
            &&& ix.entries == entries
        }),
{
}

/// Where a duplicate key is found, two rows share it.
pub proof fn law_first_duplicate_is_a_duplicate(
    ix: IndexModel,
    t: TableModel,
    st: Map<u64, TxnStatus>,
    key: Seq<ValueModel>,
)
    requires
        first_duplicate(ix, t, st, key),
    ensures
        holds_duplicate(ix, t, st),
        exists|g: int| 0 <= g < ix.entries.len() && (#[trigger] ix.entries[g]).key == key,
{
    let g = choose|g: int|
        0 <= g < ix.entries.len() && #[trigger] duplicated_at(ix.order, ix.entries, t.rows, st, g)
            && key == ix.entries[g].key && forall|h: int|
            0 <= h < g ==> !#[trigger] duplicated_at(ix.order, ix.entries, t.rows, st, h);
    assert(ix.entries[g].key == key);
}

/// An index is refused for values that cannot be compared exactly where two versions, of creators that
/// have not rolled back, have keys that cannot be.
pub proof fn law_index_is_refused_where_keys_clash(
    m: StorageModel,
    order: Seq<Column>,
    rows: Map<u64, Seq<VersionModel>>,
    a: u64,
    i: int,
    b: u64,
    j: int,
)
    ensures
        versions_clash(order, rows, m.st()) ==> exists|x: u64, p: int, y: u64, q: int|
            #![trigger rows[x][p], rows[y][q]]
            {
                &&& rows.contains_key(x) && 0 <= p < rows[x].len()
                &&& rows.contains_key(y) && 0 <= q < rows[y].len()
                &&& !m.rolled_back(rows[x][p].xmin) && !m.rolled_back(rows[y][q].xmin)
                &&& !keys_comparable(
                    order,
                    key_in(order, rows[x][p].data),
                    key_in(order, rows[y][q].data),
                )
            },
        rows.contains_key(a) && 0 <= i < rows[a].len() && rows.contains_key(b) && 0 <= j
            < rows[b].len() && !m.rolled_back(rows[a][i].xmin) && !m.rolled_back(rows[b][j].xmin)
            && !keys_comparable(
            order,
            key_in(order, rows[a][i].data),
            key_in(order, rows[b][j].data),
        ) ==> versions_clash(order, rows, m.st()),
{
    if rows.contains_key(a) && 0 <= i < rows[a].len() && rows.contains_key(b) && 0 <= j
        < rows[b].len() && !m.rolled_back(rows[a][i].xmin) && !m.rolled_back(rows[b][j].xmin) {
        assert(indexable(rows, m.st(), a, i) && indexable(rows, m.st(), b, j));
    }
    if versions_clash(order, rows, m.st()) {
        let (x, p, y, q) = choose|x: u64, p: int, y: u64, q: int| #[trigger]
            indexable(rows, m.st(), x, p) && #[trigger] indexable(rows, m.st(), y, q)
                && !keys_comparable(
                order,
                key_in(order, rows[x][p].data),
                key_in(order, rows[y][q].data),
            );
        assert(!m.rolled_back(rows[x][p].xmin) && !m.rolled_back(rows[y][q].xmin));
    }
}

} // verus!
