//! How keys are ordered and which of them a range selects.

use vstd::prelude::*;

use super::index::in_range;
use super::key_order::{
    column_relation, comparable_from, fits_type, key_in, key_relation, keys_comparable, order_of,
    prefix_error, prefix_ok, relation_from, Column,
};
use crate::error::{Bug, InternalError, SqlError};
use crate::key_range::{BoundModel, KeyRangeModel};
use crate::shape::KeyColumn;
use crate::value::{value_relation, Collation, Relation, SqlType, TypeInfo, ValueModel};

verus! {

/// The comparator of a key compares the columns the key names, in its order and directions, each under
/// the collation of the column, or the one that ignores case where the column names none.
pub proof fn law_comparator_follows_the_key(key: Seq<KeyColumn>, columns: Seq<TypeInfo>, i: int)
    requires
        0 <= i < key.len(),
    ensures
        order_of(key, columns).len() == key.len(),
        order_of(key, columns)[i].position == key[i].column,
        order_of(key, columns)[i].descending == key[i].descending,
        order_of(key, columns)[i].ty == columns[key[i].column as int].ty,
        columns[key[i].column as int].collation matches Some(named) ==> order_of(
            key,
            columns,
        )[i].collation == named,
        columns[key[i].column as int].collation is None ==> order_of(key, columns)[i].collation
            == Collation::CaseInsensitive,
{
}

/// The key of a row holds the values of the key columns, in key order.
pub proof fn law_key_holds_the_key_columns(order: Seq<Column>, row: Seq<ValueModel>, i: int)
    requires
        0 <= i < order.len(),
    ensures
        key_in(order, row).len() == order.len(),
        key_in(order, row)[i] == row[order[i].position as int],
{
}

/// Whether two keys hold equal values in their first `i` columns.
pub open spec fn agree_before(
    order: Seq<Column>,
    a: Seq<ValueModel>,
    b: Seq<ValueModel>,
    i: int,
) -> bool {
    &&& 0 <= i <= order.len()
    &&& i <= a.len()
    &&& i <= b.len()
    &&& forall|j: int|
        0 <= j < i ==> value_relation(#[trigger] a[j], b[j], order[j].collation) == Relation::Equal
}

/// Two keys that agree up to a column are compared from there on.
proof fn lemma_agree(order: Seq<Column>, a: Seq<ValueModel>, b: Seq<ValueModel>, j: int, i: int)
    requires
        agree_before(order, a, b, i),
        0 <= j <= i,
    ensures
        relation_from(order, a, b, j) == relation_from(order, a, b, i),
    decreases i - j,
{
    if j < i {
        assert(value_relation(a[j], b[j], order[j].collation) == Relation::Equal);
        assert(column_relation(order[j], a[j], b[j]) == Relation::Equal);
        lemma_agree(order, a, b, j + 1, i);
    }
}

/// Two keys are ordered by the first column in which they differ: as its values are, or the other way
/// round where the column is descending.
pub proof fn law_first_difference_decides(
    order: Seq<Column>,
    a: Seq<ValueModel>,
    b: Seq<ValueModel>,
    i: int,
)
    requires
        agree_before(order, a, b, i),
        i < order.len(),
        i < a.len(),
        i < b.len(),
        value_relation(a[i], b[i], order[i].collation) != Relation::Equal,
    ensures
        ({
            let smaller = value_relation(a[i], b[i], order[i].collation) == Relation::Less;
            key_relation(order, a, b) == if smaller != order[i].descending {
                Relation::Less
            } else {
                Relation::Greater
            }
        }),
{
    lemma_agree(order, a, b, 0, i);
}

/// Two keys that differ in no column are equal, and so are a key and the beginning of it.
pub proof fn law_keys_without_a_difference_are_equal(
    order: Seq<Column>,
    a: Seq<ValueModel>,
    b: Seq<ValueModel>,
    i: int,
)
    requires
        agree_before(order, a, b, i),
        i == order.len() || i == a.len() || i == b.len(),
    ensures
        key_relation(order, a, b) == Relation::Equal,
        keys_comparable(order, a, b),
{
    lemma_agree(order, a, b, 0, i);
    super::key_order::lemma_equal_is_comparable(order, a, b);
}

/// The keys that start with a prefix are those the point range of the prefix selects; the keys before
/// it and after it are the two ranges that leave it out; a range that takes it in has them besides.
pub proof fn law_prefix_parts_the_keys(
    order: Seq<Column>,
    key: Seq<ValueModel>,
    p: Seq<ValueModel>,
)
    ensures
        ({
            let at = in_range(order, key, KeyRangeModel::Point(p));
            let before = in_range(
                order,
                key,
                KeyRangeModel::Between(BoundModel::Unbounded, BoundModel::Excluded(p)),
            );
            let after = in_range(
                order,
                key,
                KeyRangeModel::Between(BoundModel::Excluded(p), BoundModel::Unbounded),
            );
            &&& at <==> key_relation(order, key, p) == Relation::Equal
            &&& before <==> key_relation(order, key, p) == Relation::Less
            &&& after <==> key_relation(order, key, p) == Relation::Greater
            &&& in_range(
                order,
                key,
                KeyRangeModel::Between(BoundModel::Unbounded, BoundModel::Included(p)),
            ) <==> before || at
            &&& in_range(
                order,
                key,
                KeyRangeModel::Between(BoundModel::Included(p), BoundModel::Unbounded),
            ) <==> at || after
        }),
{
}

/// A range between two bounds selects what both of its sides select; without bounds, everything.
pub proof fn law_range_is_what_both_sides_select(
    order: Seq<Column>,
    key: Seq<ValueModel>,
    lo: BoundModel,
    hi: BoundModel,
)
    ensures
        in_range(order, key, KeyRangeModel::Between(lo, hi)) <==> in_range(
            order,
            key,
            KeyRangeModel::Between(lo, BoundModel::Unbounded),
        ) && in_range(order, key, KeyRangeModel::Between(BoundModel::Unbounded, hi)),
        in_range(
            order,
            key,
            KeyRangeModel::Between(BoundModel::Unbounded, BoundModel::Unbounded),
        ),
        in_range(order, key, KeyRangeModel::Full),
{
}

/// The types of columns that hold exact integers.
pub open spec fn is_integer(ty: SqlType) -> bool {
    ty is TinyInt || ty is SmallInt || ty is Int || ty is BigInt
}

/// Whether a value is one that a column of the type stores.
pub open spec fn stored_in(v: ValueModel, ty: SqlType) -> bool {
    match ty {
        SqlType::Bit => v is Bit,
        SqlType::TinyInt => v is I8,
        SqlType::SmallInt => v is I16,
        SqlType::Int => v is I32,
        SqlType::BigInt => v is I64,
        SqlType::Real => v is F32,
        SqlType::Float => v is F64,
        SqlType::Money | SqlType::SmallMoney => v is Money,
        SqlType::Decimal { .. } | SqlType::Numeric { .. } => v is Decimal,
        SqlType::Char(_) | SqlType::VarChar(_) | SqlType::NChar(_) | SqlType::NVarChar(_) => v is String,
        SqlType::Binary(_) | SqlType::VarBinary(_) => v is Bytes,
        SqlType::Date => v is Date,
        SqlType::Time(_) => v is Time,
        SqlType::DateTime | SqlType::SmallDateTime => v is DateTime,
        SqlType::DateTime2(_) => v is DateTime2,
        SqlType::DateTimeOffset(_) => v is DateTimeOffset,
        SqlType::UniqueIdentifier => v is Guid,
    }
}

/// A seek on a column takes every value that the column stores and `NULL`, and whatever it takes can be
/// compared with what the column stores.
pub proof fn law_seek_takes_what_the_column_stores(v: ValueModel, w: ValueModel, ty: SqlType)
    ensures
        fits_type(ValueModel::Null, ty),
        stored_in(v, ty) ==> fits_type(v, ty),
        stored_in(v, ty) && fits_type(w, ty) ==> v.comparable(w),
        is_integer(ty) && (v is I8 || v is I16 || v is I32 || v is I64) ==> fits_type(v, ty),
        (ty is Real || ty is Float) && (v is F32 || v is F64) ==> fits_type(v, ty),
{
}

/// A prefix is one a seek takes when it is no longer than the key and each of its values fits its
/// column; so is every beginning of it.
pub proof fn law_beginning_of_a_prefix_is_a_prefix(order: Seq<Column>, p: Seq<ValueModel>, n: int)
    requires
        0 <= n <= p.len(),
    ensures
        prefix_ok(order, p) ==> prefix_ok(order, p.take(n)),
        prefix_ok(order, p) ==> p.len() <= order.len(),
        prefix_ok(order, Seq::empty()),
        p.len() > order.len() ==> !prefix_ok(order, p),
        prefix_ok(order, p.take(n)) && n < p.len() && p.len() <= order.len() && (forall|i: int|
            n <= i < p.len() ==> #[trigger] p[i] is Null) ==> prefix_ok(order, p),
        n < p.len() && n < order.len() && !fits_type(p[n], order[n].ty) ==> !prefix_ok(order, p),
{
    if prefix_ok(order, p.take(n)) && n < p.len() && p.len() <= order.len() && (forall|i: int|
        n <= i < p.len() ==> #[trigger] p[i] is Null) {
        assert forall|i: int| 0 <= i < p.len() implies fits_type(#[trigger] p[i], order[i].ty) by {
            if i < n {
                assert(p.take(n)[i] == p[i]);
            }
        }
    }
    if prefix_ok(order, p) {
        assert forall|i: int| 0 <= i < n implies fits_type(#[trigger] p.take(n)[i], order[i].ty) by {
            assert(p.take(n)[i] == p[i]);
        }
    }
}

/// Two keys can be compared where every column holds values that can; they cannot where, before they
/// differ, a column holds values that cannot.
pub proof fn law_keys_are_comparable_column_by_column(
    order: Seq<Column>,
    a: Seq<ValueModel>,
    b: Seq<ValueModel>,
    i: int,
)
    ensures
        (forall|j: int|
            0 <= j < order.len() && j < a.len() && j < b.len() ==> (#[trigger] a[j]).comparable(
                b[j],
            )) ==> keys_comparable(order, a, b),
        agree_before(order, a, b, i) && i < order.len() && i < a.len() && i < b.len()
            && !a[i].comparable(b[i]) ==> !keys_comparable(order, a, b),
{
    if forall|j: int|
        0 <= j < order.len() && j < a.len() && j < b.len() ==> (#[trigger] a[j]).comparable(b[j]) {
        lemma_all_comparable(order, a, b, 0);
    }
    if agree_before(order, a, b, i) && i < order.len() && i < a.len() && i < b.len()
        && !a[i].comparable(b[i]) {
        lemma_not_comparable(order, a, b, 0, i);
    }
}

/// Keys whose columns can all be compared can be compared.
proof fn lemma_all_comparable(order: Seq<Column>, a: Seq<ValueModel>, b: Seq<ValueModel>, i: int)
    requires
        0 <= i,
        forall|j: int|
            0 <= j < order.len() && j < a.len() && j < b.len() ==> (#[trigger] a[j]).comparable(
                b[j],
            ),
    ensures
        comparable_from(order, a, b, i),
    decreases order.len() - i,
{
    if i < order.len() && i < a.len() && i < b.len() {
        assert(a[i].comparable(b[i]));
        lemma_all_comparable(order, a, b, i + 1);
    }
}

/// Keys that meet in values that cannot be compared cannot be compared.
proof fn lemma_not_comparable(
    order: Seq<Column>,
    a: Seq<ValueModel>,
    b: Seq<ValueModel>,
    j: int,
    i: int,
)
    requires
        agree_before(order, a, b, i),
        i < order.len(),
        i < a.len(),
        i < b.len(),
        !a[i].comparable(b[i]),
        0 <= j <= i,
    ensures
        !comparable_from(order, a, b, j),
    decreases i - j,
{
    if j < i {
        assert(value_relation(a[j], b[j], order[j].collation) == Relation::Equal);
        assert(column_relation(order[j], a[j], b[j]) == Relation::Equal);
        lemma_not_comparable(order, a, b, j + 1, i);
    }
}

/// Whether a column of the type may be sought by a value: `NULL`, a value of the kind it stores, and, for
/// a column of exact numbers, a decimal number.
pub open spec fn sought_by(ty: SqlType, v: ValueModel) -> bool {
    v is Null || match ty {
        SqlType::TinyInt | SqlType::SmallInt | SqlType::Int | SqlType::BigInt => v is I8 || v is I16
            || v is I32 || v is I64 || v is Decimal,
        SqlType::Decimal { .. } | SqlType::Numeric { .. } => v is Decimal,
        SqlType::Money | SqlType::SmallMoney => v is Money || v is Decimal,
        SqlType::Real | SqlType::Float => v is F32 || v is F64,
        _ => stored_in(v, ty),
    }
}

/// A column may be sought by a value exactly where the value is of a kind the column knows.
pub proof fn law_column_is_sought_by_its_own_kind(v: ValueModel, ty: SqlType)
    ensures
        fits_type(v, ty) <==> sought_by(ty, v),
{
}

/// A prefix that a seek does not take is refused for its length, or for the first of its values that
/// does not fit its column.
pub proof fn law_prefix_is_refused_for_a_reason(
    order: Seq<Column>,
    p: Seq<ValueModel>,
    e: SqlError,
)
    requires
        !prefix_ok(order, p),
        prefix_error(order, p, e),
    ensures
        p.len() > order.len() ==> e == SqlError::Internal(
            InternalError::Bug(
                Bug::PrefixTooLong { values: p.len() as usize, columns: order.len() as usize },
            ),
        ),
        p.len() <= order.len() ==> match e {
            SqlError::Internal(
                InternalError::Bug(Bug::PrefixValueMismatch { position, value, ty }),
            ) => {
                &&& position < p.len()
                &&& value@ == p[position as int]
                &&& ty == order[position as int].ty
                &&& !sought_by(ty, p[position as int])
                &&& forall|i: int|
                    0 <= i < position ==> sought_by((#[trigger] order[i]).ty, p[i])
            },
            _ => false,
        },
{
    if p.len() <= order.len() {
        assert forall|i: int| 0 <= i < p.len() implies fits_type(p[i], (#[trigger] order[i]).ty)
            == sought_by(order[i].ty, p[i]) by {
            law_column_is_sought_by_its_own_kind(p[i], order[i].ty);
        }
        if let SqlError::Internal(
            InternalError::Bug(Bug::PrefixValueMismatch { position, value, ty }),
        ) = e {
            law_column_is_sought_by_its_own_kind(p[position as int], ty);
            assert forall|i: int| 0 <= i < position implies sought_by(
                (#[trigger] order[i]).ty,
                p[i],
            ) by {
                assert(fits_type(p[i], order[i].ty));
            }
        }
    }
}

} // verus!
