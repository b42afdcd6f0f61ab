//! Key ranges and scan directions.

use vstd::prelude::*;

use crate::value::{Value, ValueModel};

verus! {

/// One end of a range of keys.
#[derive(Debug, Clone, PartialEq, Eq)]
pub enum Bound {
    /// The keys starting with the prefix are inside.
    Included(Vec<Value>),
    /// The keys starting with the prefix are outside.
    Excluded(Vec<Value>),
    /// No bound on this side.
    Unbounded,
}

/// The set of index keys served by one seek.
///
/// Values are compared column by column with the comparator of the index. Bounds are expressed
/// **in index order**: `lo` is the first key served in [`Direction::Forward`], `hi` the last.
///
/// A key shorter than the index key is a *prefix* and designates the set of all keys that start
/// with it, `NULL` equal to `NULL` in every column.
#[derive(Debug, Clone, PartialEq, Eq)]
pub enum KeyRange {
    /// The keys that start with the prefix.
    Point(Vec<Value>),
    /// The keys between two bounds, in index order.
    Between(Bound, Bound),
    /// The whole index.
    Full,
}

/// Direction of a seek relative to the index order.
#[derive(Debug, Clone, Copy, PartialEq, Eq, Structural)]
pub enum Direction {
    /// From the lowest key to the highest.
    Forward,
    /// From the highest key to the lowest.
    Backward,
}

/// What a [`Bound`] stands for.
pub enum BoundModel {
    /// The keys starting with the prefix are inside.
    Included(Seq<ValueModel>),
    /// The keys starting with the prefix are outside.
    Excluded(Seq<ValueModel>),
    /// No bound on this side.
    Unbounded,
}

/// What a [`KeyRange`] stands for.
pub enum KeyRangeModel {
    /// The keys that start with the prefix.
    Point(Seq<ValueModel>),
    /// The keys between two bounds, in index order.
    Between(BoundModel, BoundModel),
    /// The whole index.
    Full,
}

impl View for Bound {
    type V = BoundModel;

    open spec fn view(&self) -> BoundModel {
        match *self {
            Bound::Included(p) => BoundModel::Included(p.deep_view()),
            Bound::Excluded(p) => BoundModel::Excluded(p.deep_view()),
            Bound::Unbounded => BoundModel::Unbounded,
        }
    }
}

impl View for KeyRange {
    type V = KeyRangeModel;

    open spec fn view(&self) -> KeyRangeModel {
        match *self {
            KeyRange::Point(p) => KeyRangeModel::Point(p.deep_view()),
            KeyRange::Between(lo, hi) => KeyRangeModel::Between(lo@, hi@),
            KeyRange::Full => KeyRangeModel::Full,
        }
    }
}

} // verus!
