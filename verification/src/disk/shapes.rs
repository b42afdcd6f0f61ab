//! The shapes an instance stores: what a table and an index may look like, and the widest
//! clustered key.

use vstd::prelude::*;

use crate::error::{Bug, InternalError, KeyKind, SqlError, SqlResult};
use crate::ids::{IndexId, RowId, TableId};
use crate::memory::key_order::{collation_in, collation_of};
use crate::memory::read::rows_view;
use crate::row::Row;
use crate::shape::{IndexShape, IndexShapeModel, KeyColumn, TableShape, TableShapeModel};
use crate::value::{compare, value_relation, Collation, Len, Relation, SqlType, Value, ValueModel};

verus! {

/// Default number of pages held by the buffer pool.
pub const DEFAULT_BUFFER_PAGES: usize = 1024;

/// Options of an on-disk instance.
#[derive(Debug, Clone, Copy, PartialEq, Eq, Structural)]
pub struct DiskOptions {
    /// Number of frames the buffer pool holds, that is `buffer_pages * 8192` bytes of cache. 0 is
    /// refused.
    pub buffer_pages: usize,
}

impl Default for DiskOptions {
    /// 1 024 pages, that is 8 MiB of cache.
    fn default() -> (r: Self)
        ensures
            r == (DiskOptions { buffer_pages: 1024 }),
    {
        DiskOptions { buffer_pages: DEFAULT_BUFFER_PAGES }
    }
}

impl DiskOptions {
    /// Refuses a pool of no frame.
    ///
    /// # Errors
    ///
    /// A bug when `buffer_pages` is 0.
    pub fn validate(&self) -> (r: Result<(), InternalError>)
        ensures
            match r {
                Ok(_) => self.buffer_pages > 0,
                Err(e) => self.buffer_pages == 0 && e == InternalError::Bug(Bug::NoFrame),
            },
    {
        if self.buffer_pages == 0 {
            return Err(InternalError::Bug(Bug::NoFrame));
        }
        Ok(())
    }
}

/// Whether `i` is the position of the first column of `named` outside a table of `arity` columns.
pub open spec fn first_out(named: Seq<u16>, arity: nat, i: int) -> bool {
    &&& 0 <= i < named.len()
    &&& named[i] >= arity
    &&& forall|j: int| 0 <= j < i ==> #[trigger] named[j] < arity
}

/// The first column of `named` that is not a column of a table of `arity` columns.
pub fn outside(named: &Vec<u16>, arity: usize) -> (r: Option<u16>)
    ensures
        match r {
            Some(column) => exists|i: int| #[trigger]
                first_out(named@, arity as nat, i) && named@[i] == column,
            None => forall|i: int| 0 <= i < named@.len() ==> #[trigger] named@[i] < arity,
        },
{
    for i in 0..named.len()
        invariant
            forall|j: int| 0 <= j < i ==> #[trigger] named@[j] < arity,
    {
        if named[i] as usize >= arity {
            assert(first_out(named@, arity as nat, i as int));
            return Some(named[i]);
        }
    }
    None
}

/// The columns a key names.
pub open spec fn named_in(key: Seq<KeyColumn>) -> Seq<u16> {
    Seq::new(key.len(), |i: int| key[i].column)
}

/// The columns a key names.
fn names_of(key: &Vec<KeyColumn>) -> (r: Vec<u16>)
    ensures
        r@ == named_in(key@),
{
    let mut named: Vec<u16> = Vec::new();
    for i in 0..key.len()
        invariant
            named@.len() == i,
            forall|j: int| 0 <= j < i ==> #[trigger] named@[j] == key@[j].column,
    {
        named.push(key[i].column);
    }
    assert(named@ =~= named_in(key@));
    named
}

/// Whether a table shape is one an instance stores: it has a column, and its clustered key, if it
/// has one, names a column and only columns of the shape.
pub open spec fn shape_ok(shape: TableShapeModel) -> bool {
    &&& shape.columns.len() > 0
    &&& shape.clustered_key matches Some(key) ==> key.len() > 0 && forall|i: int|
        0 <= i < key.len() ==> (#[trigger] key[i]).column < shape.columns.len()
}

/// The error of a table shape that cannot be stored: no column, an empty clustered key, or the
/// first key column outside the shape.
pub open spec fn shape_error(shape: TableShapeModel, e: InternalError) -> bool {
    if shape.columns.len() == 0 {
        e == InternalError::Bug(Bug::NoColumn)
    } else if (shape.clustered_key->0).len() == 0 {
        e == InternalError::Bug(Bug::EmptyKey(KeyKind::Clustered))
    } else {
        exists|i: int| #[trigger]
            first_out(named_in(shape.clustered_key->0), shape.columns.len(), i) && e
                == InternalError::Bug(
                Bug::KeyColumnOutOfRange {
                    key: KeyKind::Clustered,
                    column: (shape.clustered_key->0)[i].column,
                    columns: shape.columns.len() as usize,
                },
            )
    }
}

/// Refuses a table shape that cannot be stored.
///
/// # Errors
///
/// A bug for a shape without a column, for an empty clustered key and for one that names a column
/// outside the shape: the first of these that holds.
pub fn check_shape(shape: &TableShape) -> (r: Result<(), InternalError>)
    ensures
        match r {
            Ok(_) => shape_ok(shape@),
            Err(e) => !shape_ok(shape@) && shape_error(shape@, e),
        },
{
    if shape.columns.len() == 0 {
        return Err(InternalError::Bug(Bug::NoColumn));
    }
    match &shape.clustered_key {
        None => Ok(()),
        Some(key) => {
            if key.len() == 0 {
                return Err(InternalError::Bug(Bug::EmptyKey(KeyKind::Clustered)));
            }
            let named: Vec<u16> = names_of(key);
            match outside(&named, shape.columns.len()) {
                None => {
                    assert forall|i: int| 0 <= i < key@.len() implies (#[trigger] key@[i]).column
                        < shape@.columns.len() by {
                        assert(named@[i] == key@[i].column);
                    }
                    Ok(())
                },
                Some(column) => Err(
                    InternalError::Bug(
                        Bug::KeyColumnOutOfRange {
                            key: KeyKind::Clustered,
                            column,
                            columns: shape.columns.len(),
                        },
                    ),
                ),
            }
        },
    }
}

/// Whether an index shape is one an instance stores: it has a key column, and its key and its
/// included columns are columns of the table.
pub open spec fn index_shape_ok(def: IndexShapeModel, arity: nat) -> bool {
    &&& def.columns.len() > 0
    &&& forall|i: int| 0 <= i < def.columns.len() ==> (#[trigger] def.columns[i]).column < arity
    &&& forall|i: int| 0 <= i < def.included.len() ==> #[trigger] def.included[i] < arity
}

/// The error of an index shape that cannot be stored: the first column outside the table, the key
/// columns first.
pub open spec fn index_shape_error(def: IndexShapeModel, arity: nat, e: InternalError) -> bool {
    if def.columns.len() == 0 {
        e == InternalError::Bug(Bug::EmptyKey(KeyKind::Index))
    } else {
        ||| exists|i: int| #[trigger]
            first_out(named_in(def.columns), arity, i) && e == InternalError::Bug(
                Bug::KeyColumnOutOfRange {
                    key: KeyKind::Index,
                    column: def.columns[i].column,
                    columns: arity as usize,
                },
            )
        ||| (forall|i: int| 0 <= i < def.columns.len() ==> (#[trigger] def.columns[i]).column
            < arity) && exists|i: int| #[trigger]
            first_out(def.included, arity, i) && e == InternalError::Bug(
                Bug::IncludedColumnOutOfRange {
                    column: def.included[i],
                    columns: arity as usize,
                },
            )
    }
}

/// Refuses an index shape that cannot be stored.
///
/// # Errors
///
/// A bug for a shape without a key column, and for one that names a column outside its table.
pub fn check_index_shape(def: &IndexShape, shape: &TableShape) -> (r: Result<(), InternalError>)
    ensures
        match r {
            Ok(_) => index_shape_ok(def@, shape@.columns.len()),
            Err(e) => !index_shape_ok(def@, shape@.columns.len()) && index_shape_error(
                def@,
                shape@.columns.len(),
                e,
            ),
        },
{
    if def.columns.len() == 0 {
        return Err(InternalError::Bug(Bug::EmptyKey(KeyKind::Index)));
    }
    let arity: usize = shape.columns.len();
    let named: Vec<u16> = names_of(&def.columns);
    match outside(&named, arity) {
        Some(column) => {
            return Err(
                InternalError::Bug(
                    Bug::KeyColumnOutOfRange { key: KeyKind::Index, column, columns: arity },
                ),
            );
        },
        None => {
            assert forall|i: int| 0 <= i < def@.columns.len() implies (
            #[trigger] def@.columns[i]).column < arity by {
                assert(named@[i] == def@.columns[i].column);
            }
        },
    }
    match outside(&def.included, arity) {
        Some(column) => {
            proof {
                let i = choose|i: int| #[trigger]
                    first_out(def.included@, arity as nat, i) && def.included@[i] == column;
                assert(first_out(def@.included, shape@.columns.len(), i));
                assert(!(def@.included[i] < arity));
            }
            Err(InternalError::Bug(Bug::IncludedColumnOutOfRange { column, columns: arity }))
        },
        None => {
            assert(index_shape_ok(def@, shape@.columns.len())) by {
                assert forall|i: int| 0 <= i < def@.included.len() implies #[trigger] def@.included[i]
                    < arity by {
                    assert(def.included@[i] < arity);
                }
            }
            Ok(())
        },
    }
}

/// Largest declared width, in bytes, of the clustered key of a table.
pub const MAX_CLUSTERED_KEY_BYTES: usize = 900;

/// The bytes the time part of a `time`, a `datetime2` or a `datetimeoffset` of that scale takes: 3
/// up to scale 2, 4 up to scale 4, 5 beyond.
pub open spec fn time_width(scale: u8) -> nat {
    if scale <= 2 {
        3
    } else if scale <= 4 {
        4
    } else {
        5
    }
}

/// The bytes the time part of a `time`, a `datetime2` or a `datetimeoffset` of that scale takes.
pub fn fractional_width(scale: u8) -> (r: usize)
    ensures
        r == time_width(scale),
{
    if scale <= 2 {
        3
    } else if scale <= 4 {
        4
    } else {
        5
    }
}

/// The declared width of a run of characters or bytes, `None` for `max`.
pub open spec fn run_width(len: Len, per_character: nat) -> Option<nat> {
    match len {
        Len::Fixed(count) => Some(count as nat * per_character),
        Len::Max => None,
    }
}

/// The declared width of a column, in bytes: the storage size of its type, `None` for a `max`
/// type.
pub open spec fn width_of(ty: SqlType) -> Option<nat> {
    match ty {
        SqlType::Bit | SqlType::TinyInt => Some(1),
        SqlType::SmallInt => Some(2),
        SqlType::Int | SqlType::Real | SqlType::SmallMoney | SqlType::SmallDateTime => Some(4),
        SqlType::BigInt | SqlType::Float | SqlType::Money | SqlType::DateTime => Some(8),
        SqlType::Date => Some(3),
        SqlType::Time(scale) => Some(time_width(scale)),
        SqlType::DateTime2(scale) => Some(3 + time_width(scale)),
        SqlType::DateTimeOffset(scale) => Some(5 + time_width(scale)),
        SqlType::UniqueIdentifier => Some(16),
        SqlType::Decimal { precision, .. } | SqlType::Numeric { precision, .. } => Some(
            if precision <= 9 {
                5
            } else if precision <= 19 {
                9
            } else if precision <= 28 {
                13
            } else {
                17
            },
        ),
        SqlType::Char(len) | SqlType::VarChar(len) => run_width(len, 1),
        SqlType::Binary(len) | SqlType::VarBinary(len) => run_width(len, 1),
        SqlType::NChar(len) | SqlType::NVarChar(len) => run_width(len, 2),
    }
}

/// The declared width of a run of characters or bytes, `None` for `max`.
fn bounded(len: &Len, wide: bool) -> (r: Option<usize>)
    ensures
        match r {
            Some(n) => run_width(*len, if wide { 2 } else { 1 }) == Some(n as nat),
            None => run_width(*len, if wide { 2 } else { 1 }) is None,
        },
{
    match len {
        Len::Fixed(count) => if wide {
            Some(*count as usize * 2)
        } else {
            Some(*count as usize)
        },
        Len::Max => None,
    }
}

/// The declared width of a column of type `ty`, in bytes, `None` for a `max` type, whose width is
/// not declared.
pub fn declared_width(ty: &SqlType) -> (r: Option<usize>)
    ensures
        match r {
            Some(n) => width_of(*ty) == Some(n as nat) && n <= 131070,
            None => width_of(*ty) is None,
        },
{
    match ty {
        SqlType::Bit | SqlType::TinyInt => Some(1),
        SqlType::SmallInt => Some(2),
        SqlType::Int | SqlType::Real | SqlType::SmallMoney | SqlType::SmallDateTime => Some(4),
        SqlType::BigInt | SqlType::Float | SqlType::Money | SqlType::DateTime => Some(8),
        SqlType::Date => Some(3),
        SqlType::Time(scale) => Some(fractional_width(*scale)),
        SqlType::DateTime2(scale) => Some(3 + fractional_width(*scale)),
        SqlType::DateTimeOffset(scale) => Some(5 + fractional_width(*scale)),
        SqlType::UniqueIdentifier => Some(16),
        SqlType::Decimal { precision, .. } | SqlType::Numeric { precision, .. } => Some(
            if *precision <= 9 {
                5
            } else if *precision <= 19 {
                9
            } else if *precision <= 28 {
                13
            } else {
                17
            },
        ),
        SqlType::Char(len) | SqlType::VarChar(len) => bounded(len, false),
        SqlType::Binary(len) | SqlType::VarBinary(len) => bounded(len, false),
        SqlType::NChar(len) | SqlType::NVarChar(len) => bounded(len, true),
    }
}

/// The declared width of the first `n` columns of a key, `None` once one of them has none. A
/// column outside the shape counts for nothing.
pub open spec fn key_width(shape: TableShapeModel, key: Seq<KeyColumn>, n: int) -> Option<nat>
    decreases n,
{
    if n <= 0 {
        Some(0)
    } else {
        let column = key[n - 1].column;
        match key_width(shape, key, n - 1) {
            None => None,
            Some(before) => if column >= shape.columns.len() {
                Some(before)
            } else {
                match width_of(shape.columns[column as int].ty) {
                    Some(bytes) => Some(before + bytes),
                    None => None,
                }
            },
        }
    }
}

/// Whether the clustered key of a shape, if it has one, is narrow enough.
pub open spec fn key_narrow(shape: TableShapeModel) -> bool {
    match shape.clustered_key {
        None => true,
        Some(key) => match key_width(shape, key, key.len() as int) {
            None => false,
            Some(width) => width <= MAX_CLUSTERED_KEY_BYTES,
        },
    }
}

/// The width a clustered key asks for, `None` when it has no bound.
pub open spec fn asked_width(shape: TableShapeModel) -> Option<usize> {
    let key = shape.clustered_key->0;
    match key_width(shape, key, key.len() as int) {
        Some(width) => if width < usize::MAX {
            Some(width as usize)
        } else {
            None
        },
        None => None,
    }
}

/// Refuses a clustered key whose declared width is past [`MAX_CLUSTERED_KEY_BYTES`].
///
/// The width counted is the declared one, the storage size of each key column, not the size of a
/// value. A `max` type in a key has no declared width and is refused for that reason.
///
/// # Errors
///
/// [`SqlError::ClusteredKeyTooWide`], with the width the key asks for.
pub fn check_clustered_key_width(shape: &TableShape) -> (r: SqlResult<()>)
    ensures
        match r {
            Ok(_) => key_narrow(shape@),
            Err(e) => !key_narrow(shape@) && e == SqlError::ClusteredKeyTooWide(
                asked_width(shape@),
            ),
        },
{
    let key: &Vec<KeyColumn> = match &shape.clustered_key {
        None => {
            return Ok(());
        },
        Some(key) => key,
    };
    let mut width: usize = 0;
    for n in 0..key.len()
        invariant
            match key_width(shape@, key@, n as int) {
                Some(w) => if w < usize::MAX {
                    width == w
                } else {
                    width == usize::MAX
                },
                None => width == usize::MAX,
            },
    {
        let column: usize = key[n].column as usize;
        if column < shape.columns.len() {
            match declared_width(&shape.columns[column].ty) {
                Some(bytes) => {
                    width = width.saturating_add(bytes);
                },
                None => {
                    width = usize::MAX;
                },
            }
        }
    }
    if width <= MAX_CLUSTERED_KEY_BYTES {
        return Ok(());
    }
    if width == usize::MAX {
        Err(SqlError::ClusteredKeyTooWide(None))
    } else {
        Err(SqlError::ClusteredKeyTooWide(Some(width)))
    }
}

/// The value of a column of a row, `NULL` outside the row.
pub open spec fn column_of(row: Seq<ValueModel>, column: u16) -> ValueModel {
    if column < row.len() {
        row[column as int]
    } else {
        ValueModel::Null
    }
}

/// The values of `columns` in a row, in key order.
pub open spec fn key_values(row: Seq<ValueModel>, columns: Seq<KeyColumn>) -> Seq<ValueModel> {
    Seq::new(columns.len(), |i: int| column_of(row, columns[i].column))
}

/// The values of `columns` in `row`, in key order. A column outside the row is read as `NULL`.
pub fn key_of(row: &Row, columns: &Vec<KeyColumn>) -> (r: Vec<Value>)
    ensures
        r.deep_view() == key_values(row@, columns@),
{
    let mut key: Vec<Value> = Vec::new();
    for i in 0..columns.len()
        invariant
            key@.len() == i,
            forall|j: int|
                0 <= j < i ==> (#[trigger] key@[j])@ == column_of(row@, columns@[j].column),
    {
        let column: usize = columns[i].column as usize;
        if column < row.0.len() {
            key.push(row.0[column].duplicate());
        } else {
            key.push(Value::Null);
        }
    }
    assert(key.deep_view() =~= key_values(row@, columns@));
    key
}

/// The collation of a key column: its own, or the default one.
pub open spec fn column_collation(column: KeyColumn, shape: TableShapeModel) -> Collation {
    if column.column < shape.columns.len() {
        collation_in(shape.columns[column.column as int])
    } else {
        Collation::DEFAULT
    }
}

/// Whether two keys are the same from the `i`-th column on, `NULL` equal to `NULL`; `None` where
/// two values that cannot be compared are met first.
pub open spec fn same_from(
    a: Seq<ValueModel>,
    b: Seq<ValueModel>,
    columns: Seq<KeyColumn>,
    shape: TableShapeModel,
    i: int,
) -> Option<bool>
    decreases columns.len() - i,
{
    if i < 0 || i >= columns.len() {
        Some(true)
    } else if i >= a.len() || i >= b.len() {
        Some(false)
    } else if a[i] is Null && b[i] is Null {
        same_from(a, b, columns, shape, i + 1)
    } else if a[i] is Null || b[i] is Null {
        Some(false)
    } else if !a[i].comparable(b[i]) {
        None
    } else if value_relation(a[i], b[i], column_collation(columns[i], shape)) != Relation::Equal {
        Some(false)
    } else {
        same_from(a, b, columns, shape, i + 1)
    }
}

/// Whether two keys of the shape `columns` are the same key for a `unique` index: `NULL` equals
/// `NULL` column by column.
///
/// # Errors
///
/// Two values that cannot be compared, met before a difference.
pub fn same_key(a: &Vec<Value>, b: &Vec<Value>, columns: &Vec<KeyColumn>, shape: &TableShape) -> (r:
    SqlResult<bool>)
    ensures
        match r {
            Ok(same) => same_from(a.deep_view(), b.deep_view(), columns@, shape@, 0) == Some(same),
            Err(e) => same_from(a.deep_view(), b.deep_view(), columns@, shape@, 0) is None && e
                == SqlError::IncomparableValues,
        },
{
    let ghost ka = a.deep_view();
    let ghost kb = b.deep_view();
    for i in 0..columns.len()
        invariant
            ka == a.deep_view(),
            kb == b.deep_view(),
            same_from(ka, kb, columns@, shape@, 0) == same_from(ka, kb, columns@, shape@, i as int),
    {
        if i >= a.len() || i >= b.len() {
            return Ok(false);
        }
        assert(ka[i as int] == a@[i as int]@);
        assert(kb[i as int] == b@[i as int]@);
        let column: usize = columns[i].column as usize;
        let collation: Collation = if column < shape.columns.len() {
            collation_of(&shape.columns[column])
        } else {
            Collation::DEFAULT
        };
        let both_null: bool = matches!(a[i], Value::Null) && matches!(b[i], Value::Null);
        if !both_null {
            match compare(&a[i], &b[i], &collation) {
                Ok(Some(Relation::Equal)) => {},
                Ok(_) => {
                    return Ok(false);
                },
                Err(e) => {
                    return Err(e);
                },
            }
        }
    }
    Ok(true)
}

/// Whether the rows `i` and `i + 1` share a key.
pub open spec fn shares_with_next(
    rows: Seq<(RowId, Seq<ValueModel>)>,
    columns: Seq<KeyColumn>,
    shape: TableShapeModel,
    i: int,
) -> Option<bool> {
    same_from(
        key_values(rows[i].1, columns),
        key_values(rows[i + 1].1, columns),
        columns,
        shape,
        0,
    )
}

/// Refuses two neighbours of `rows` that share a key. The rows come in the order of their
/// clustered key, so two rows that share a key are side by side, and one comparison per step is
/// enough.
///
/// # Errors
///
/// A duplicate naming the index and the key, for the first pair; two values that cannot be
/// compared.
pub fn refuse_a_duplicate_clustered_key(
    table: TableId,
    index: IndexId,
    def: &IndexShape,
    shape: &TableShape,
    rows: &Vec<(RowId, Row)>,
) -> (r: SqlResult<()>)
    ensures
        ({
            let all = rows_view(rows@);
            match r {
                Ok(_) => forall|i: int|
                    0 <= i < all.len() - 1 ==> #[trigger] shares_with_next(
                        all,
                        def@.columns,
                        shape@,
                        i,
                    ) == Some(false),
                Err(e) => exists|i: int|
                    {
                        &&& 0 <= i < all.len() - 1
                        &&& match #[trigger] shares_with_next(all, def@.columns, shape@, i) {
                            Some(same) => {
                                &&& same
                                &&& e matches SqlError::DuplicateKey { table: t, index: x, key }
                                &&& t == table
                                &&& x == index
                                &&& key.deep_view() == key_values(all[i + 1].1, def@.columns)
                            },
                            None => e == SqlError::IncomparableValues,
                        }
                        &&& forall|j: int|
                            0 <= j < i ==> #[trigger] shares_with_next(
                                all,
                                def@.columns,
                                shape@,
                                j,
                            ) == Some(false)
                    },
            }
        }),
{
    let ghost all = rows_view(rows@);
    let mut previous: Option<Vec<Value>> = None;
    for n in 0..rows.len()
        invariant
            all == rows_view(rows@),
            match previous {
                None => n == 0,
                Some(before) => n > 0 && before.deep_view() == key_values(
                    all[n - 1].1,
                    def@.columns,
                ),
            },
            forall|j: int|
                0 <= j < n - 1 ==> #[trigger] shares_with_next(all, def@.columns, shape@, j)
                    == Some(false),
    {
        let key: Vec<Value> = key_of(&rows[n].1, &def.columns);
        assert(key.deep_view() == key_values(all[n as int].1, def@.columns));
        match &previous {
            Some(before) => {
                assert(shares_with_next(all, def@.columns, shape@, n - 1) == same_from(
                    before.deep_view(),
                    key.deep_view(),
                    def@.columns,
                    shape@,
                    0,
                ));
                match same_key(before, &key, &def.columns, shape) {
                    Ok(true) => {
                        return Err(SqlError::DuplicateKey { table, index, key });
                    },
                    Ok(false) => {},
                    Err(e) => {
                        return Err(e);
                    },
                }
            },
            None => {},
        }
        previous = Some(key);
    }
    Ok(())
}

} // verus!
