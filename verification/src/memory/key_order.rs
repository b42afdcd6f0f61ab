//! The key comparator: orders index keys and clustered keys as "Key order" on
//! [`TableShape`] prescribes, and hosts the fallible binary search the sorted structures of the
//! module rely on.
//!
//! One column is compared by [`compare`] with the collation of the column. This module adds
//! what the storage layer owns: `NULL` first (`NULL` equal to `NULL`), the `descending`
//! reversal, the column-by-column composition and the type/variant check of the keys handed to
//! a seek.

use vstd::prelude::*;

use crate::error::{bug, corruption, Bug, Corruption, KeyKind, SqlError, SqlResult};
use crate::row::Row;
use crate::shape::{KeyColumn, TableShape};
use crate::value::{
    compare, lemma_families_decide, lemma_value_relation_flips, lemma_value_relation_transitive,
    value_relation, Collation, Relation, SqlType, TypeInfo, Value, ValueModel,
};

verus! {

/// One column of a key as the comparator needs it.
#[derive(Debug, Clone, Copy, PartialEq, Eq, Structural)]
pub struct Column {
    /// Position of the column in the row.
    pub position: usize,
    /// Reverses the order of the column, `NULL` included.
    pub descending: bool,
    /// The collation of the column, or the default one.
    pub collation: Collation,
    /// The declared type, used to reject a key value of the wrong variant.
    pub ty: SqlType,
}

/// The comparator of a composite key (index key or clustered key).
#[derive(Debug)]
pub struct KeyOrder {
    /// The columns, in key order.
    pub columns: Vec<Column>,
}

impl View for KeyOrder {
    type V = Seq<Column>;

    open spec fn view(&self) -> Seq<Column> {
        self.columns@
    }
}

/// The collation a column is compared under.
pub open spec fn collation_in(info: TypeInfo) -> Collation {
    match info.collation {
        Some(c) => c,
        None => Collation::DEFAULT,
    }
}

/// The comparator of `key` over a table of columns `columns`.
pub open spec fn order_of(key: Seq<KeyColumn>, columns: Seq<TypeInfo>) -> Seq<Column> {
    Seq::new(
        key.len(),
        |i: int|
            Column {
                position: key[i].column as usize,
                descending: key[i].descending,
                collation: collation_in(columns[key[i].column as int]),
                ty: columns[key[i].column as int].ty,
            },
    )
}

/// Whether `i` is the position of the first column of `key` outside a table of `columns`
/// columns.
pub open spec fn first_outside(key: Seq<KeyColumn>, columns: nat, i: int) -> bool {
    &&& 0 <= i < key.len()
    &&& key[i].column >= columns
    &&& forall|j: int| 0 <= j < i ==> key[j].column < columns
}

/// Whether every column of `key` is one of a table of `columns` columns.
pub open spec fn key_inside(key: Seq<KeyColumn>, columns: nat) -> bool {
    forall|j: int| 0 <= j < key.len() ==> (#[trigger] key[j]).column < columns
}

/// The values of `row` at the key positions, in key order.
pub open spec fn key_in(order: Seq<Column>, row: Seq<ValueModel>) -> Seq<ValueModel> {
    Seq::new(order.len(), |i: int| row[order[i].position as int])
}

/// Whether a row of `arity` values holds every key column.
pub open spec fn fits(order: Seq<Column>, arity: nat) -> bool {
    forall|i: int| 0 <= i < order.len() ==> (#[trigger] order[i]).position < arity
}

/// The order of two values of one key column.
pub open spec fn column_relation(column: Column, a: ValueModel, b: ValueModel) -> Relation {
    if column.descending {
        value_relation(a, b, column.collation).flipped()
    } else {
        value_relation(a, b, column.collation)
    }
}

/// The order of two keys or key prefixes, from column `i` on.
pub open spec fn relation_from(
    order: Seq<Column>,
    a: Seq<ValueModel>,
    b: Seq<ValueModel>,
    i: int,
) -> Relation
    decreases order.len() - i,
{
    if i < 0 || i >= order.len() || i >= a.len() || i >= b.len() {
        Relation::Equal
    } else if column_relation(order[i], a[i], b[i]) != Relation::Equal {
        column_relation(order[i], a[i], b[i])
    } else {
        relation_from(order, a, b, i + 1)
    }
}

/// The order of two keys or key prefixes: the first columns that differ decide, and a prefix is
/// `Equal` to every key that starts with it.
pub open spec fn key_relation(order: Seq<Column>, a: Seq<ValueModel>, b: Seq<ValueModel>) -> Relation {
    relation_from(order, a, b, 0)
}

/// Whether two keys or key prefixes are comparable, from column `i` on.
pub open spec fn comparable_from(
    order: Seq<Column>,
    a: Seq<ValueModel>,
    b: Seq<ValueModel>,
    i: int,
) -> bool
    decreases order.len() - i,
{
    if i < 0 || i >= order.len() || i >= a.len() || i >= b.len() {
        true
    } else if !a[i].comparable(b[i]) {
        false
    } else if column_relation(order[i], a[i], b[i]) != Relation::Equal {
        true
    } else {
        comparable_from(order, a, b, i + 1)
    }
}

/// Whether two keys or key prefixes are comparable: no column up to the first that differs
/// holds values of two families.
pub open spec fn keys_comparable(order: Seq<Column>, a: Seq<ValueModel>, b: Seq<ValueModel>) -> bool {
    comparable_from(order, a, b, 0)
}

/// Whether `value` belongs to the family of variants a column of type `ty` holds. `NULL` fits
/// every column.
pub open spec fn fits_type(value: ValueModel, ty: SqlType) -> bool {
    match value {
        ValueModel::Null => true,
        ValueModel::Bit(_) => ty is Bit,
        ValueModel::I8(_) | ValueModel::I16(_) | ValueModel::I32(_) | ValueModel::I64(_) => ty is TinyInt
            || ty is SmallInt || ty is Int || ty is BigInt,
        ValueModel::Decimal(_) => ty is TinyInt || ty is SmallInt || ty is Int || ty is BigInt
            || ty is Decimal || ty is Numeric || ty is Money || ty is SmallMoney,
        ValueModel::F32(_) | ValueModel::F64(_) => ty is Float || ty is Real,
        ValueModel::Money(_) => ty is Money || ty is SmallMoney,
        ValueModel::String(_) => ty is Char || ty is VarChar || ty is NChar || ty is NVarChar,
        ValueModel::Bytes(_) => ty is Binary || ty is VarBinary,
        ValueModel::Date(_) => ty is Date,
        ValueModel::Time(_) => ty is Time,
        ValueModel::DateTime(_) => ty is DateTime || ty is SmallDateTime,
        ValueModel::DateTime2(_) => ty is DateTime2,
        ValueModel::DateTimeOffset(_) => ty is DateTimeOffset,
        ValueModel::Guid(_) => ty is UniqueIdentifier,
    }
}

/// Whether a key prefix may be handed to a seek: not longer than the key, each value one its
/// column holds.
pub open spec fn prefix_ok(order: Seq<Column>, prefix: Seq<ValueModel>) -> bool {
    &&& prefix.len() <= order.len()
    &&& forall|i: int| 0 <= i < prefix.len() ==> fits_type(#[trigger] prefix[i], order[i].ty)
}

/// The error of a key prefix that may not be handed to a seek.
pub open spec fn prefix_error(order: Seq<Column>, prefix: Seq<ValueModel>, e: SqlError) -> bool {
    if prefix.len() > order.len() {
        e.is_bug(
            Bug::PrefixTooLong { values: prefix.len() as usize, columns: order.len() as usize },
        )
    } else {
        &&& e matches SqlError::Internal(inner)
        &&& inner matches crate::error::InternalError::Bug(reason)
        &&& reason matches Bug::PrefixValueMismatch { position, value, ty }
        &&& position < prefix.len()
        &&& value@ == prefix[position as int]
        &&& ty == order[position as int].ty
        &&& !fits_type(prefix[position as int], ty)
        &&& forall|i: int| 0 <= i < position ==> fits_type(#[trigger] prefix[i], order[i].ty)
    }
}

/// Swapping the two sides of the comparison of one column flips it.
pub proof fn lemma_column_flips(column: Column, a: ValueModel, b: ValueModel)
    ensures
        column_relation(column, b, a) == column_relation(column, a, b).flipped(),
        column_relation(column, a, a) == Relation::Equal,
{
    lemma_value_relation_flips(a, b, column.collation);
}

/// The order of one column is transitive.
pub proof fn lemma_column_transitive(column: Column, a: ValueModel, b: ValueModel, c: ValueModel)
    requires
        column_relation(column, a, b) != Relation::Greater,
        column_relation(column, b, c) != Relation::Greater,
    ensures
        column_relation(column, a, c) != Relation::Greater,
        column_relation(column, a, b) == Relation::Less ==> column_relation(column, a, c)
            == Relation::Less,
        column_relation(column, b, c) == Relation::Less ==> column_relation(column, a, c)
            == Relation::Less,
{
    if column.descending {
        lemma_value_relation_flips(a, b, column.collation);
        lemma_value_relation_flips(b, c, column.collation);
        lemma_value_relation_flips(a, c, column.collation);
        lemma_value_relation_transitive(c, b, a, column.collation);
    } else {
        lemma_value_relation_transitive(a, b, c, column.collation);
    }
}

/// Equality of one column is transitive.
proof fn lemma_column_equal_transitive(column: Column, a: ValueModel, b: ValueModel, c: ValueModel)
    requires
        column_relation(column, a, b) == Relation::Equal,
        column_relation(column, b, c) == Relation::Equal,
    ensures
        column_relation(column, a, c) == Relation::Equal,
{
    lemma_column_transitive(column, a, b, c);
    lemma_column_flips(column, a, b);
    lemma_column_flips(column, b, c);
    lemma_column_flips(column, a, c);
    lemma_column_transitive(column, c, b, a);
}

proof fn lemma_relation_flips_from(
    order: Seq<Column>,
    a: Seq<ValueModel>,
    b: Seq<ValueModel>,
    i: int,
)
    requires
        0 <= i,
    ensures
        relation_from(order, b, a, i) == relation_from(order, a, b, i).flipped(),
        comparable_from(order, b, a, i) == comparable_from(order, a, b, i),
        relation_from(order, a, a, i) == Relation::Equal,
        comparable_from(order, a, a, i),
    decreases order.len() - i,
{
    if i < order.len() {
        if i < a.len() && i < b.len() {
            lemma_column_flips(order[i], a[i], b[i]);
        }
        if i < a.len() {
            lemma_column_flips(order[i], a[i], a[i]);
        }
        lemma_relation_flips_from(order, a, b, i + 1);
    }
}

/// Swapping the two sides of a key comparison flips it, and a key equals itself.
pub proof fn lemma_key_relation_flips(order: Seq<Column>, a: Seq<ValueModel>, b: Seq<ValueModel>)
    ensures
        key_relation(order, b, a) == key_relation(order, a, b).flipped(),
        keys_comparable(order, b, a) == keys_comparable(order, a, b),
        key_relation(order, a, a) == Relation::Equal,
        keys_comparable(order, a, a),
{
    lemma_relation_flips_from(order, a, b, 0);
}

proof fn lemma_relation_transitive_from(
    order: Seq<Column>,
    a: Seq<ValueModel>,
    m: Seq<ValueModel>,
    c: Seq<ValueModel>,
    i: int,
)
    requires
        0 <= i,
        m.len() >= order.len(),
        relation_from(order, a, m, i) != Relation::Greater,
        relation_from(order, m, c, i) != Relation::Greater,
    ensures
        relation_from(order, a, c, i) != Relation::Greater,
        relation_from(order, a, m, i) == Relation::Less && (c.len() >= a.len() || c.len()
            >= order.len()) ==> relation_from(order, a, c, i) == Relation::Less,
        relation_from(order, m, c, i) == Relation::Less && (a.len() >= c.len() || a.len()
            >= order.len()) ==> relation_from(order, a, c, i) == Relation::Less,
        comparable_from(order, a, m, i) && comparable_from(order, m, c, i) ==> comparable_from(
            order,
            a,
            c,
            i,
        ),
    decreases order.len() - i,
{
    if i < order.len() && i < a.len() && i < c.len() {
        let column = order[i];
        lemma_column_transitive(column, a[i], m[i], c[i]);
        lemma_families_decide(a[i], m[i], column.collation);
        lemma_families_decide(m[i], c[i], column.collation);
        if column_relation(column, a[i], m[i]) == Relation::Equal && column_relation(
            column,
            m[i],
            c[i],
        ) == Relation::Equal {
            lemma_column_equal_transitive(column, a[i], m[i], c[i]);
            lemma_relation_transitive_from(order, a, m, c, i + 1);
        }
        if a[i].comparable(m[i]) && m[i].comparable(c[i]) {
            assert(a[i].comparable(c[i])) by {
                lemma_families_decide(a[i], c[i], column.collation);
                assert(a[i] is Null <==> a[i].family() == 0);
                assert(m[i] is Null <==> m[i].family() == 0);
                assert(c[i] is Null <==> c[i].family() == 0);
            }
        }
    }
}

/// Keys are ordered transitively through a whole key, and a key between two others that is
/// comparable to both makes them comparable to each other.
pub proof fn lemma_key_relation_transitive(
    order: Seq<Column>,
    a: Seq<ValueModel>,
    m: Seq<ValueModel>,
    c: Seq<ValueModel>,
)
    requires
        m.len() >= order.len(),
        key_relation(order, a, m) != Relation::Greater,
        key_relation(order, m, c) != Relation::Greater,
    ensures
        key_relation(order, a, c) != Relation::Greater,
        key_relation(order, a, m) == Relation::Less && (c.len() >= a.len() || c.len()
            >= order.len()) ==> key_relation(order, a, c) == Relation::Less,
        key_relation(order, m, c) == Relation::Less && (a.len() >= c.len() || a.len()
            >= order.len()) ==> key_relation(order, a, c) == Relation::Less,
        keys_comparable(order, a, m) && keys_comparable(order, m, c) ==> keys_comparable(
            order,
            a,
            c,
        ),
{
    lemma_relation_transitive_from(order, a, m, c, 0);
}

proof fn lemma_equal_is_comparable_from(
    order: Seq<Column>,
    a: Seq<ValueModel>,
    b: Seq<ValueModel>,
    i: int,
)
    requires
        0 <= i,
        relation_from(order, a, b, i) == Relation::Equal,
    ensures
        comparable_from(order, a, b, i),
    decreases order.len() - i,
{
    if i < order.len() && i < a.len() && i < b.len() {
        lemma_families_decide(a[i], b[i], order[i].collation);
        lemma_equal_is_comparable_from(order, a, b, i + 1);
    }
}

/// Two keys that are equal are comparable.
pub proof fn lemma_equal_is_comparable(order: Seq<Column>, a: Seq<ValueModel>, b: Seq<ValueModel>)
    requires
        key_relation(order, a, b) == Relation::Equal,
    ensures
        keys_comparable(order, a, b),
{
    lemma_equal_is_comparable_from(order, a, b, 0);
}

/// Whether a row of `values` values does not hold every key column, and `e` names the first it does
/// not hold.
pub open spec fn short_row(order: Seq<Column>, values: nat, e: SqlError) -> bool {
    exists|i: int|
        {
            &&& 0 <= i < order.len()
            &&& (#[trigger] order[i]).position >= values
            &&& forall|j: int| 0 <= j < i ==> (#[trigger] order[j]).position < values
            &&& e.is_corruption(
                Corruption::KeyColumnMissing {
                    values: values as usize,
                    column: order[i].position,
                },
            )
        }
}

impl KeyOrder {
    /// Builds the comparator of `columns` over a table of shape `shape`.
    ///
    /// # Errors
    ///
    /// [`Bug`] when `columns` is empty or names a column outside the shape; `kind` names the
    /// key in the error.
    pub fn new(kind: KeyKind, columns: &Vec<KeyColumn>, shape: &TableShape) -> (r: SqlResult<Self>)
        ensures
            match r {
                Ok(order) => {
                    &&& columns@.len() > 0
                    &&& key_inside(columns@, shape@.columns.len())
                    &&& order@ == order_of(columns@, shape@.columns)
                },
                Err(e) => if columns@.len() == 0 {
                    e.is_bug(Bug::EmptyKey(kind))
                } else {
                    exists|i: int| #[trigger]
                        first_outside(columns@, shape@.columns.len(), i) && e.is_bug(
                            Bug::KeyColumnOutOfRange {
                                key: kind,
                                column: columns@[i].column,
                                columns: shape@.columns.len() as usize,
                            },
                        )
                },
            },
    {
        if columns.len() == 0 {
            return bug(Bug::EmptyKey(kind));
        }
        let mut out: Vec<Column> = Vec::with_capacity(columns.len());
        for i in 0..columns.len()
            invariant
                columns@.len() > 0,
                out@.len() == i,
                forall|j: int| 0 <= j < i ==> (#[trigger] columns@[j]).column < shape@.columns.len(),
                out@ == order_of(columns@, shape@.columns).take(i as int),
        {
            let kc: KeyColumn = columns[i];
            let position: usize = kc.column as usize;
            if position >= shape.columns.len() {
                assert(first_outside(columns@, shape@.columns.len(), i as int));
                return bug(
                    Bug::KeyColumnOutOfRange {
                        key: kind,
                        column: kc.column,
                        columns: shape.columns.len(),
                    },
                );
            }
            let info: TypeInfo = shape.columns[position];
            out.push(
                Column {
                    position,
                    descending: kc.descending,
                    collation: collation_of(&info),
                    ty: info.ty,
                },
            );
            assert(out@ =~= order_of(columns@, shape@.columns).take(i + 1));
        }
        assert(out@ =~= order_of(columns@, shape@.columns));
        Ok(KeyOrder { columns: out })
    }

    /// The key of `row`: its values at the key positions, in key order.
    ///
    /// # Errors
    ///
    /// [`Corruption`] for a row that does not hold every key column.
    pub fn extract(&self, row: &Row) -> (r: SqlResult<Vec<Value>>)
        ensures
            match r {
                Ok(key) => fits(self@, row@.len()) && key.deep_view() == key_in(self@, row@),
                Err(e) => short_row(self@, row@.len(), e),
            },
    {
        let mut key: Vec<Value> = Vec::with_capacity(self.columns.len());
        for i in 0..self.columns.len()
            invariant
                key@.len() == i,
                forall|j: int| 0 <= j < i ==> (#[trigger] self@[j]).position < row@.len(),
                forall|j: int|
                    0 <= j < i ==> (#[trigger] key@[j])@ == row@[self@[j].position as int],
        {
            let position: usize = self.columns[i].position;
            assert(self@[i as int].position == position);
            if position >= row.0.len() {
                return corruption(
                    Corruption::KeyColumnMissing { values: row.0.len(), column: position },
                );
            }
            key.push(row.0[position].duplicate());
        }
        assert(key.deep_view() =~= key_in(self@, row@));
        Ok(key)
    }

    /// Compares two keys or key prefixes column by column, over the columns both hold.
    ///
    /// # Errors
    ///
    /// The error of [`compare`] for two values of different families, as is.
    pub fn compare_prefix(&self, a: &Vec<Value>, b: &Vec<Value>) -> (r: SqlResult<Relation>)
        ensures
            match r {
                Ok(relation) => {
                    &&& keys_comparable(self@, a.deep_view(), b.deep_view())
                    &&& relation == key_relation(self@, a.deep_view(), b.deep_view())
                },
                Err(e) => {
                    &&& !keys_comparable(self@, a.deep_view(), b.deep_view())
                    &&& e == SqlError::IncomparableValues
                },
            },
    {
        let ghost x = a.deep_view();
        let ghost y = b.deep_view();
        let mut i: usize = 0;
        while i < self.columns.len() && i < a.len() && i < b.len()
            invariant
                x == a.deep_view(),
                y == b.deep_view(),
                i <= self@.len(),
                i <= a@.len(),
                i <= b@.len(),
                relation_from(self@, x, y, i as int) == key_relation(self@, x, y),
                comparable_from(self@, x, y, i as int) == keys_comparable(self@, x, y),
            decreases self@.len() - i,
        {
            let column: Column = self.columns[i];
            assert(x[i as int] == a@[i as int]@ && y[i as int] == b@[i as int]@);
            let plain: Relation = match compare_column(&a[i], &b[i], &column.collation) {
                Ok(relation) => relation,
                Err(e) => {
                    return Err(e);
                },
            };
            let relation: Relation = if column.descending {
                plain.reverse()
            } else {
                plain
            };
            assert(relation == column_relation(self@[i as int], x[i as int], y[i as int]));
            if relation != Relation::Equal {
                return Ok(relation);
            }
            i = i + 1;
        }
        Ok(Relation::Equal)
    }

    /// Checks a key or key prefix handed by the caller: at most as many values as the key has
    /// columns, and each non-`NULL` value of the variant family the column's type expects.
    ///
    /// # Errors
    ///
    /// [`Bug`] on either violation.
    pub fn check_prefix(&self, prefix: &Vec<Value>) -> (r: SqlResult<()>)
        ensures
            match r {
                Ok(_) => prefix_ok(self@, prefix.deep_view()),
                Err(e) => !prefix_ok(self@, prefix.deep_view()) && prefix_error(
                    self@,
                    prefix.deep_view(),
                    e,
                ),
            },
    {
        if prefix.len() > self.columns.len() {
            return bug(Bug::PrefixTooLong { values: prefix.len(), columns: self.columns.len() });
        }
        for i in 0..prefix.len()
            invariant
                prefix@.len() <= self@.len(),
                forall|j: int|
                    0 <= j < i ==> fits_type(#[trigger] prefix.deep_view()[j], self@[j].ty),
        {
            let ty: SqlType = self.columns[i].ty;
            assert(prefix.deep_view()[i as int] == prefix@[i as int]@);
            if !variant_matches(&prefix[i], &ty) {
                return bug(
                    Bug::PrefixValueMismatch { position: i, value: prefix[i].duplicate(), ty },
                );
            }
        }
        Ok(())
    }
}

/// The collation of a column: its own, or the default one.
pub fn collation_of(info: &TypeInfo) -> (r: Collation)
    ensures
        r == collation_in(*info),
{
    match info.collation {
        Some(c) => c,
        None => Collation::DEFAULT,
    }
}

/// Compares two values of one key column, `NULL` first: `NULL == NULL`, `NULL <` anything else,
/// otherwise [`compare`].
fn compare_column(a: &Value, b: &Value, collation: &Collation) -> (r: SqlResult<Relation>)
    ensures
        match r {
            Ok(relation) => a@.comparable(b@) && relation == value_relation(a@, b@, *collation),
            Err(e) => !a@.comparable(b@) && e == SqlError::IncomparableValues,
        },
{
    proof {
        lemma_families_decide(a@, b@, *collation);
    }
    match (a, b) {
        (Value::Null, Value::Null) => {
            assert(a@.sort_key(*collation) =~= b@.sort_key(*collation));
            proof {
                lemma_value_relation_flips(a@, b@, *collation);
            }
            Ok(Relation::Equal)
        },
        (Value::Null, _) => Ok(Relation::Less),
        (_, Value::Null) => Ok(Relation::Greater),
        _ => match compare(a, b, collation) {
            Ok(Some(relation)) => Ok(relation),
            Ok(None) => Ok(Relation::Equal),
            Err(e) => Err(e),
        },
    }
}

/// Whether `value` belongs to the family of variants a column of type `ty` holds.
pub fn variant_matches(value: &Value, ty: &SqlType) -> (r: bool)
    ensures
        r == fits_type(value@, *ty),
{
    match value {
        Value::Null => true,
        Value::Bit(_) => matches!(ty, SqlType::Bit),
        Value::I8(_) | Value::I16(_) | Value::I32(_) | Value::I64(_) => matches!(
            ty,
            SqlType::TinyInt | SqlType::SmallInt | SqlType::Int | SqlType::BigInt
        ),
        Value::Decimal(_) => ty.is_exact_numeric(),
        Value::F32(_) | Value::F64(_) => matches!(ty, SqlType::Float | SqlType::Real),
        Value::Money(_) => matches!(ty, SqlType::Money | SqlType::SmallMoney),
        Value::String(_) => ty.is_string(),
        Value::Bytes(_) => matches!(ty, SqlType::Binary(_) | SqlType::VarBinary(_)),
        Value::Date(_) => matches!(ty, SqlType::Date),
        Value::Time(_) => matches!(ty, SqlType::Time(_)),
        Value::DateTime(_) => matches!(ty, SqlType::DateTime | SqlType::SmallDateTime),
        Value::DateTime2(_) => matches!(ty, SqlType::DateTime2(_)),
        Value::DateTimeOffset(_) => matches!(ty, SqlType::DateTimeOffset(_)),
        Value::Guid(_) => matches!(ty, SqlType::UniqueIdentifier),
    }
}

/// The index of an element of `items` for which `pred` is `false` while it is `true` for the
/// element before it: the first `false` one when `pred` is `true` for a prefix of `items` and
/// `false` afterwards.
///
/// # Errors
///
/// The first error of `pred`, as is.
pub fn partition_point<T, F: Fn(&T) -> SqlResult<bool>>(items: &Vec<T>, pred: F) -> (r: SqlResult<usize>)
    requires
        forall|i: int| 0 <= i < items@.len() ==> call_requires(pred, (&#[trigger] items@[i],)),
    ensures
        match r {
            Ok(p) => {
                &&& p <= items@.len()
                &&& p > 0 ==> call_ensures(pred, (&items@[p - 1],), Ok::<bool, SqlError>(true))
                &&& p < items@.len() ==> call_ensures(
                    pred,
                    (&items@[p as int],),
                    Ok::<bool, SqlError>(false),
                )
            },
            Err(e) => exists|i: int|
                0 <= i < items@.len() && call_ensures(
                    pred,
                    (&#[trigger] items@[i],),
                    Err::<bool, SqlError>(e),
                ),
        },
{
    let mut lo: usize = 0;
    let mut hi: usize = items.len();
    while lo < hi
        invariant
            lo <= hi <= items@.len(),
            forall|i: int| 0 <= i < items@.len() ==> call_requires(pred, (&#[trigger] items@[i],)),
            lo > 0 ==> call_ensures(pred, (&items@[lo - 1],), Ok::<bool, SqlError>(true)),
            hi < items@.len() ==> call_ensures(
                pred,
                (&items@[hi as int],),
                Ok::<bool, SqlError>(false),
            ),
        decreases hi - lo,
    {
        let mid: usize = lo + (hi - lo) / 2;
        match pred(&items[mid]) {
            Ok(true) => {
                lo = mid + 1;
            },
            Ok(false) => {
                hi = mid;
            },
            Err(e) => {
                return Err(e);
            },
        }
    }
    Ok(lo)
}

} // verus!
