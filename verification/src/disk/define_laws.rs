//! What creating and dropping does to the databases, tables and indexes of an instance, and which shapes
//! it takes.

use vstd::prelude::*;

use super::definitions::{IndexEntryModel, TableEntryModel};
use super::heap_reads::{is_live_key, live_keys, rows_at};
use super::lists::{can_build, cannot_build};
use super::shapes::{
    asked_width, first_out, index_shape_ok, key_narrow, key_values, key_width, named_in, shape_error,
    shape_ok, width_of,
};
use super::storage::{lists_indexes, lists_tables, DiskModel, DiskTableModel};
use super::table_model::{data_of, HeapTableModel};
use crate::error::{Bug, InternalError, KeyKind, SqlError};
use crate::ids::{DbId, IndexId, RowId, TableId};
use crate::memory::key_order::{key_in, key_relation, order_of, Column};
use crate::shape::{IndexShape, IndexShapeModel, KeyColumn, TableShape, TableShapeModel};
use crate::value::{Len, Relation, SqlType, ValueModel};

verus! {

/// A created table has the shape and the database it was given, no rows, and numbers its rows from where
/// the instance left off; the others are as they were.
pub proof fn law_created_table_is_there(m: DiskModel, entry: TableEntryModel, other: u64)
    ensures
        ({
            let n = m.with_table(entry);
            let id = entry.table.0 as u64;
            &&& n.tables.contains_key(id)
            &&& n.tables[id].db == entry.db
            &&& n.tables[id].first_page == entry.first_page
            &&& n.tables[id].store.shape == entry.shape
            &&& n.tables[id].store.table == entry.table
            &&& forall|rid: u64| !#[trigger] n.tables[id].store.records.contains_key(rid)
            &&& forall|row: u64| !#[trigger] n.tables[id].store.directory.contains_key(row)
            &&& n.tables[id].store.next_row_id == if m.first_row >= 1 { m.first_row } else { 1 }
            &&& n.tables[id].store.next_seq == if m.first_seq >= 1 { m.first_seq } else { 1 }
            &&& other != id ==> n.tables.contains_key(other) == m.tables.contains_key(other)
            &&& other != id && m.tables.contains_key(other) ==> n.tables[other] == m.tables[other]
            &&& n.databases == m.databases && n.indexes == m.indexes && n.journal == m.journal
        }),
{
}

/// A dropped table is gone with its indexes, and nothing else is.
pub proof fn law_dropped_table_is_gone(m: DiskModel, table: TableId, t: u64, x: u64)
    ensures
        ({
            let n = m.without_table(table);
            &&& n.tables.contains_key(t) <==> m.tables.contains_key(t) && t != table.0 as u64
            &&& n.tables.contains_key(t) ==> n.tables[t] == m.tables[t]
            &&& n.indexes.contains_key(x) <==> m.indexes.contains_key(x) && m.indexes[x].table
                != table
            &&& n.indexes.contains_key(x) ==> n.indexes[x] == m.indexes[x]
            &&& n.databases == m.databases && n.journal == m.journal && n.control == m.control
        }),
{
}

/// A dropped database is gone with its tables and their indexes, and nothing else is.
pub proof fn law_dropped_database_is_gone(m: DiskModel, db: DbId, d: u64, t: u64, x: u64)
    requires
        m.wf(),
    ensures
        ({
            let n = m.without_database(db);
            &&& n.databases.contains_key(d) <==> m.databases.contains_key(d) && d != db.0 as u64
            &&& n.databases.contains_key(d) ==> n.databases[d] == m.databases[d]
            &&& n.tables.contains_key(t) <==> m.tables.contains_key(t) && m.tables[t].db != db
            &&& n.tables.contains_key(t) ==> n.tables[t] == m.tables[t]
            &&& n.indexes.contains_key(x) <==> m.indexes.contains_key(x) && m.tables[
                m.indexes[x].table.0 as u64
            ].db != db
            &&& n.indexes.contains_key(x) ==> n.indexes[x] == m.indexes[x] && n.tables.contains_key(
                n.indexes[x].table.0 as u64,
            )
            &&& n.journal == m.journal && n.control == m.control
        }),
{
    if m.indexes.contains_key(x) {
        assert(m.has_table(m.indexes[x].table));
    }
}

/// A table is stored exactly with a column and, if it is clustered, a key of columns it has.
pub proof fn law_table_shape_names_its_own_columns(shape: TableShapeModel)
    ensures
        shape_ok(shape) <==> {
            &&& shape.columns.len() >= 1
            &&& match shape.clustered_key {
                None => true,
                Some(key) => key.len() >= 1 && forall|i: int|
                    0 <= i < key.len() ==> (#[trigger] key[i]).column < shape.columns.len(),
            }
        },
{
}

/// An index is stored exactly with a key column and columns its table has.
pub proof fn law_index_shape_names_columns_of_the_table(def: IndexShapeModel, arity: nat)
    ensures
        index_shape_ok(def, arity) <==> {
            &&& def.columns.len() >= 1
            &&& forall|i: int|
                0 <= i < def.columns.len() ==> (#[trigger] def.columns[i]).column < arity
            &&& forall|i: int| 0 <= i < def.included.len() ==> (#[trigger] def.included[i]) < arity
        },
{
}

/// The key of a row holds the values of the key columns, in key order.
pub proof fn law_key_holds_the_key_columns(row: Seq<ValueModel>, columns: Seq<KeyColumn>, i: int)
    requires
        0 <= i < columns.len(),
    ensures
        key_values(row, columns).len() == columns.len(),
        columns[i].column < row.len() ==> key_values(row, columns)[i]
            == row[columns[i].column as int],
        columns[i].column >= row.len() ==> key_values(row, columns)[i] is Null,
{
}

/// The width of a key is that of its columns, one after the other; a key with a column of no declared
/// width has none.
pub proof fn law_key_is_as_wide_as_its_columns(shape: TableShapeModel, key: Seq<KeyColumn>, n: int)
    requires
        0 <= n < key.len(),
        key[n].column < shape.columns.len(),
    ensures
        key_width(shape, key, 0) == Some(0nat),
        key_width(shape, key, n + 1) == match (
            key_width(shape, key, n),
            width_of(shape.columns[key[n].column as int].ty),
        ) {
            (Some(before), Some(bytes)) => Some(before + bytes),
            _ => None,
        },
{
}

/// A table is refused for the width of its clustered key exactly where the key has a column of no
/// declared width or more than 900 bytes, the width it asks for being told.
pub proof fn law_wide_key_is_refused(shape: TableShapeModel)
    ensures
        shape.clustered_key is None ==> key_narrow(shape),
        shape.clustered_key matches Some(key) ==> {
            let width = key_width(shape, key, key.len() as int);
            &&& key_narrow(shape) <==> (width matches Some(bytes) && bytes <= 900)
            &&& width is None ==> asked_width(shape) is None
            &&& width matches Some(bytes) ==> bytes < usize::MAX ==> asked_width(shape) == Some(
                bytes as usize,
            )
        },
{
}

/// A character of two bytes takes twice the room of one of a single byte; what has no declared length
/// has no width; a longer column is no narrower.
pub proof fn law_declared_length_is_the_width(n: u16, m: u16)
    ensures
        width_of(SqlType::Char(Len::Fixed(n))) == Some(n as nat),
        width_of(SqlType::VarChar(Len::Fixed(n))) == Some(n as nat),
        width_of(SqlType::Binary(Len::Fixed(n))) == Some(n as nat),
        width_of(SqlType::VarBinary(Len::Fixed(n))) == Some(n as nat),
        width_of(SqlType::NChar(Len::Fixed(n))) == Some(2 * n as nat),
        width_of(SqlType::NVarChar(Len::Fixed(n))) == Some(2 * n as nat),
        width_of(SqlType::Char(Len::Max)) is None,
        width_of(SqlType::VarChar(Len::Max)) is None,
        width_of(SqlType::NChar(Len::Max)) is None,
        width_of(SqlType::NVarChar(Len::Max)) is None,
        width_of(SqlType::Binary(Len::Max)) is None,
        width_of(SqlType::VarBinary(Len::Max)) is None,
{
}

/// The bytes of a number, a date or an identifier: enough for the values of its type.
pub proof fn law_numbers_fit_their_width(precision: u8, scale: u8)
    ensures
        width_of(SqlType::Bit) == Some(1nat),
        width_of(SqlType::TinyInt) == Some(1nat),
        width_of(SqlType::SmallInt) == Some(2nat),
        width_of(SqlType::Int) == Some(4nat),
        width_of(SqlType::BigInt) == Some(8nat),
        width_of(SqlType::Real) == Some(4nat),
        width_of(SqlType::Float) == Some(8nat),
        width_of(SqlType::SmallMoney) == Some(4nat),
        width_of(SqlType::Money) == Some(8nat),
        width_of(SqlType::SmallDateTime) == Some(4nat),
        width_of(SqlType::DateTime) == Some(8nat),
        width_of(SqlType::Date) == Some(3nat),
        width_of(SqlType::UniqueIdentifier) == Some(16nat),
        scale <= 2 ==> width_of(SqlType::Time(scale)) == Some(3nat),
        2 < scale <= 4 ==> width_of(SqlType::Time(scale)) == Some(4nat),
        scale > 4 ==> width_of(SqlType::Time(scale)) == Some(5nat),
        width_of(SqlType::DateTime2(scale)) == Some(
            (width_of(SqlType::Time(scale))->0 + width_of(SqlType::Date)->0) as nat,
        ),
        width_of(SqlType::DateTimeOffset(scale)) == Some(
            (width_of(SqlType::DateTime2(scale))->0 + 2) as nat,
        ),
        precision <= 9 ==> width_of(SqlType::Decimal { precision, scale }) == Some(5nat),
        9 < precision <= 19 ==> width_of(SqlType::Decimal { precision, scale }) == Some(9nat),
        19 < precision <= 28 ==> width_of(SqlType::Decimal { precision, scale }) == Some(13nat),
        precision > 28 ==> width_of(SqlType::Decimal { precision, scale }) == Some(17nat),
        width_of(SqlType::Numeric { precision, scale }) == width_of(
            SqlType::Decimal { precision, scale },
        ),
{
}

/// A `unique` index is built over a table exactly where no two rows share a key in the versions nobody
/// took away.
pub proof fn law_unique_index_is_built_over_different_keys(
    t: HeapTableModel,
    order: Seq<Column>,
    a: u64,
    b: u64,
)
    requires
        can_build(t, order, true),
        a != b,
        t.current.contains_key(a),
        t.current.contains_key(b),
        t.version(RowId(a)).header.xmax is None,
        t.version(RowId(b)).header.xmax is None,
    ensures
        key_relation(
            order,
            key_in(order, data_of(t.version(RowId(a)))),
            key_in(order, data_of(t.version(RowId(b)))),
        ) != Relation::Equal,
{
    let keys = choose|keys: Seq<(u64, u64)>| #[trigger]
        live_keys(t, keys) && super::heap_reads::all_legible(t, keys) && super::lists::buildable(
            order,
            rows_at(t, keys),
            true,
        );
    let ka = (a, t.current[a]);
    let kb = (b, t.current[b]);
    assert(is_live_key(t, ka) && is_live_key(t, kb));
    assert(keys.contains(ka) && keys.contains(kb));
    let i = choose|i: int| 0 <= i < keys.len() && keys[i] == ka;
    let j = choose|j: int| 0 <= j < keys.len() && keys[j] == kb;
    let rows = rows_at(t, keys);
    assert(rows[i].1 == data_of(t.contents[ka]));
    assert(rows[j].1 == data_of(t.contents[kb]));
}

/// Whether the rows `a` and `b` share the key `key` in the versions nobody took away.
pub open spec fn shared_by(
    t: HeapTableModel,
    order: Seq<Column>,
    key: Seq<ValueModel>,
    a: u64,
    b: u64,
) -> bool {
    let v = t.contents[(a, t.current[a])];
    let w = t.contents[(b, t.current[b])];
    &&& a != b
    &&& t.current.contains_key(a) && v.header.xmax is None
    &&& t.current.contains_key(b) && w.header.xmax is None
    &&& key_relation(order, key_in(order, data_of(v)), key_in(order, data_of(w))) == Relation::Equal
    &&& key == key_in(order, data_of(w))
}

/// A `unique` index is refused for a duplicate only where two rows share a key in the versions nobody
/// took away, and no other index is refused for one.
pub proof fn law_unique_index_is_refused_for_equal_keys(
    t: HeapTableModel,
    order: Seq<Column>,
    unique: bool,
    table: TableId,
    index: IndexId,
    e: SqlError,
)
    requires
        cannot_build(t, order, unique, table, index, e),
        e is DuplicateKey,
    ensures
        unique,
        e->DuplicateKey_table == table,
        e->DuplicateKey_index == index,
        exists|a: u64, b: u64| #[trigger]
            shared_by(t, order, e->DuplicateKey_key.deep_view(), a, b),
{
    let keys = choose|keys: Seq<(u64, u64)>| #[trigger]
        live_keys(t, keys) && super::heap_reads::all_legible(t, keys) && super::lists::build_error(
            order,
            rows_at(t, keys),
            unique,
            table,
            index,
            e,
        );
    let rows = rows_at(t, keys);
    lemma_duplicate_is_shared(order, rows, unique, table, index, e);
    lemma_shared_key(t, order, keys, e->DuplicateKey_key.deep_view());
}

/// A duplicate that is told is a key two rows of the list share.
proof fn lemma_duplicate_is_shared(
    order: Seq<Column>,
    rows: Seq<(RowId, Seq<ValueModel>)>,
    unique: bool,
    table: TableId,
    index: IndexId,
    e: SqlError,
)
    requires
        super::lists::build_error(order, rows, unique, table, index, e),
        e is DuplicateKey,
    ensures
        unique,
        e->DuplicateKey_table == table,
        e->DuplicateKey_index == index,
        super::lists::key_shared(order, rows, e->DuplicateKey_key.deep_view()),
{
    lemma_unsortable_is_no_duplicate(order, rows, e);
}

/// Rows that cannot be sorted are no duplicates.
proof fn lemma_unsortable_is_no_duplicate(
    order: Seq<Column>,
    rows: Seq<(RowId, Seq<ValueModel>)>,
    e: SqlError,
)
    requires
        e is DuplicateKey,
    ensures
        !super::lists::unsortable(order, rows, e),
{
    if super::lists::row_lacks(order, rows, e) {
        let i = choose|i: int|
            0 <= i < rows.len() && crate::memory::key_order::short_row(
                order,
                (#[trigger] rows[i]).1.len(),
                e,
            );
    }
}

/// A key that two of the live rows share is shared by two rows.
proof fn lemma_shared_key(
    t: HeapTableModel,
    order: Seq<Column>,
    keys: Seq<(u64, u64)>,
    key: Seq<ValueModel>,
)
    requires
        live_keys(t, keys),
        super::lists::key_shared(order, rows_at(t, keys), key),
    ensures
        exists|a: u64, b: u64| #[trigger] shared_by(t, order, key, a, b),
{
    let rows = rows_at(t, keys);
    let (i, j) = choose|i: int, j: int|
        0 <= i < rows.len() && 0 <= j < rows.len() && i != j && key_relation(
            order,
            key_in(order, (#[trigger] rows[i]).1),
            key_in(order, (#[trigger] rows[j]).1),
        ) == Relation::Equal && key == key_in(order, rows[j].1);
    assert(keys.contains(keys[i]) && keys.contains(keys[j]));
    assert(is_live_key(t, keys[i]) && is_live_key(t, keys[j]));
    if i < j {
        assert(keys[i].0 < keys[j].0);
    } else {
        assert(keys[j].0 < keys[i].0);
    }
    assert(shared_by(t, order, key, keys[i].0, keys[j].0));
}

/// A table that is not stored is told why: it has no column, its clustered key is empty, or the first
/// column of the key that it does not have.
pub proof fn law_refused_shape_is_told_why(shape: TableShapeModel, e: InternalError)
    requires
        !shape_ok(shape),
        shape_error(shape, e),
    ensures
        ({
            let key = shape.clustered_key->0;
            if shape.columns.len() == 0 {
                e == InternalError::Bug(Bug::NoColumn)
            } else if key.len() == 0 {
                e == InternalError::Bug(Bug::EmptyKey(KeyKind::Clustered))
            } else {
                exists|i: int|
                    {
                        &&& 0 <= i < key.len()
                        &&& (#[trigger] key[i]).column >= shape.columns.len()
                        &&& forall|j: int|
                            0 <= j < i ==> (#[trigger] key[j]).column < shape.columns.len()
                        &&& e == InternalError::Bug(
                            Bug::KeyColumnOutOfRange {
                                key: KeyKind::Clustered,
                                column: key[i].column,
                                columns: shape.columns.len() as usize,
                            },
                        )
                    }
            }
        }),
{
    let key = shape.clustered_key->0;
    if shape.columns.len() > 0 && key.len() > 0 {
        let named = named_in(key);
        let i = choose|i: int| #[trigger]
            first_out(named, shape.columns.len(), i) && e == InternalError::Bug(
                Bug::KeyColumnOutOfRange {
                    key: KeyKind::Clustered,
                    column: key[i].column,
                    columns: shape.columns.len() as usize,
                },
            );
        assert(named[i] == key[i].column);
        assert forall|j: int| 0 <= j < i implies (#[trigger] key[j]).column
            < shape.columns.len() by {
            assert(named[j] == key[j].column);
        }
    }
}

/// The list of the tables of a database names each of them once, with its shape, by increasing
/// identifier, and none of another database.
pub proof fn law_tables_are_listed_once(
    out: Seq<(TableId, TableShape)>,
    tables: Map<u64, DiskTableModel>,
    db: DbId,
    i: int,
    t: u64,
)
    requires
        lists_tables(out, tables, db),
    ensures
        ({
            let k = out[i].0.0 as u64;
            &&& 0 <= i < out.len() ==> tables.contains_key(k) && tables[k].db == db
                && tables[k].store.shape == out[i].1@
            &&& 0 <= i < out.len() - 1 ==> out[i].0.0 < out[i + 1].0.0
            &&& tables.contains_key(t) && tables[t].db == db ==> exists|j: int|
                0 <= j < out.len() && (#[trigger] out[j]).0.0 == t
        }),
{
    let k = out[i].0.0 as u64;
}

/// The list of the indexes of a table names each of them once, with its shape, by increasing
/// identifier, and none of another table.
pub proof fn law_indexes_are_listed_once(
    out: Seq<(IndexId, IndexShape)>,
    indexes: Map<u64, IndexEntryModel>,
    table: TableId,
    i: int,
    x: u64,
)
    requires
        lists_indexes(out, indexes, table),
    ensures
        ({
            let k = out[i].0.0 as u64;
            &&& 0 <= i < out.len() ==> indexes.contains_key(k) && indexes[k].table == table
                && indexes[k].shape == out[i].1@
            &&& 0 <= i < out.len() - 1 ==> out[i].0.0 < out[i + 1].0.0
            &&& indexes.contains_key(x) && indexes[x].table == table ==> exists|j: int|
                0 <= j < out.len() && (#[trigger] out[j]).0.0 == x
        }),
{
    let k = out[i].0.0 as u64;
}

/// An open builds an index exactly where a call would build it over the rows of its table.
pub proof fn law_open_builds_what_a_call_would(m: DiskModel, x: u64)
    ensures
        m.index_built(x) <==> can_build(
            m.store(m.indexes[x].table),
            order_of(m.indexes[x].shape.columns, m.shape_of(m.indexes[x].table).columns),
            m.indexes[x].shape.unique,
        ),
{
}

} // verus!
