//! The rows of an instance in order: scans, seeks through an index, and the creation of an index.
//!
//! An index keeps no tree beside the rows: its entries are the versions of its table, read in the
//! order of its key.

use vstd::prelude::*;

use super::definitions::{index_words, words_bytes, IndexEntry, IndexEntryModel};
use super::heap_reads::{
    all_legible, is_live_key, live_fault, live_keys, rows_at, scan_fault, seen_keys,
};
use super::heap_table::lemma_parts;
use super::open::lemma_same_list;
use super::shapes::{
    check_index_shape, index_shape_error, index_shape_ok, key_values,
    refuse_a_duplicate_clustered_key, same_from, shape_ok, shares_with_next,
};
use super::storage::{Counter, DiskModel, DiskStorage};
use super::table_model::{illegible, legible, HeapTableModel};
use super::wal::WalRecordKind;
use crate::error::{bug, Bug, IdSpace, InternalError, KeyKind, SqlError, SqlResult};
use crate::ids::{IndexId, RowId, TableId};
use crate::key_range::{Bound, BoundModel, Direction, KeyRange, KeyRangeModel};
use crate::memory::index::{bound_error, bound_ok, in_range, range_error, range_ok};
use crate::memory::key_order::{
    comparable_from, fits, key_in, key_inside, key_relation, keys_comparable,
    lemma_key_relation_flips, lemma_key_relation_transitive, order_of, relation_from, short_row,
    Column, KeyOrder,
};
use crate::memory::read::{
    distinct_rows, keys_clash, lemma_increasing_rows, reverse_rows, row_before, rows_view, sort_rows,
};
use crate::row::Row;
use crate::shape::{IndexShape, KeyColumn, TableShapeModel};
use crate::snapshot::Snapshot;
use crate::value::{lemma_families_decide, Relation, Value, ValueModel};

verus! {

/// Whether `out` holds the rows of `rows`, by the order of their key then by row.
pub open spec fn sorts(
    order: Seq<Column>,
    out: Seq<(RowId, Seq<ValueModel>)>,
    rows: Seq<(RowId, Seq<ValueModel>)>,
) -> bool {
    &&& out.len() == rows.len()
    &&& forall|x: (RowId, Seq<ValueModel>)| #[trigger] out.contains(x) <==> rows.contains(x)
    &&& forall|i: int, j: int|
        0 <= i < j < out.len() ==> row_before(order, #[trigger] out[i], #[trigger] out[j])
}

/// The rows of a table in the order of a scan: by clustered key then by row if the table has one,
/// by row otherwise.
pub open spec fn in_scan_order(
    shape: TableShapeModel,
    out: Seq<(RowId, Seq<ValueModel>)>,
    rows: Seq<(RowId, Seq<ValueModel>)>,
) -> bool {
    match shape.clustered_key {
        None => out == rows,
        Some(key) => sorts(order_of(key, shape.columns), out, rows),
    }
}

/// Whether every row of a list holds every column of a key.
pub open spec fn rows_fit(order: Seq<Column>, rows: Seq<(RowId, Seq<ValueModel>)>) -> bool {
    forall|i: int| 0 <= i < rows.len() ==> fits(order, (#[trigger] rows[i]).1.len())
}

/// Whether a row of a list lacks a column of a key, the error being `e`.
pub open spec fn row_lacks(
    order: Seq<Column>,
    rows: Seq<(RowId, Seq<ValueModel>)>,
    e: SqlError,
) -> bool {
    exists|i: int| 0 <= i < rows.len() && short_row(order, (#[trigger] rows[i]).1.len(), e)
}

/// Rows that stand for versions of different rows come by increasing row.
proof fn lemma_rows_apart(t: HeapTableModel, keys: Seq<(u64, u64)>, rows: Seq<(RowId, Row)>)
    requires
        rows_view(rows) == rows_at(t, keys),
        forall|i: int, j: int|
            0 <= i < j < keys.len() ==> (#[trigger] keys[i]).0 < (#[trigger] keys[j]).0,
    ensures
        forall|i: int, j: int|
            0 <= i < j < rows.len() ==> (#[trigger] rows[i]).0.0 < (#[trigger] rows[j]).0.0,
{
    assert(rows_view(rows).len() == rows.len());
    assert(rows_at(t, keys).len() == keys.len());
    assert forall|i: int| 0 <= i < rows.len() implies (#[trigger] rows[i]).0 == RowId(keys[i].0) by {
        assert(rows_view(rows)[i] == rows_at(t, keys)[i]);
    }
}

impl DiskStorage {
    /// The rows of `table` that `snap` sees, one entry per visible row: by clustered key if the
    /// table has one, by row identifier otherwise.
    ///
    /// # Errors
    ///
    /// A bug for an unknown table; a corruption for a version whose columns are no row, or lack a
    /// column of the clustered key; two clustered keys that cannot be compared.
    pub fn scan(&self, snap: &Snapshot, table: TableId) -> (r: SqlResult<Vec<(RowId, Row)>>)
        requires
            self.wf(),
        ensures
            ({
                let t = self@.store(table);
                let shape = self@.shape_of(table);
                match r {
                    Ok(out) => self@.has_table(table) && exists|keys: Seq<(u64, u64)>| #[trigger]
                        seen_keys(t, *snap, self@.journal.st(), keys) && all_legible(t, keys)
                            && in_scan_order(shape, rows_view(out@), rows_at(t, keys)),
                    Err(e) => if !self@.has_table(table) {
                        e.is_bug(Bug::NotInInstance(IdSpace::Table, table.0))
                    } else {
                        ||| (e matches SqlError::Internal(f) && scan_fault(
                            t,
                            *snap,
                            self@.journal.st(),
                            f,
                        ))
                        ||| {
                            &&& shape.clustered_key matches Some(key)
                            &&& exists|keys: Seq<(u64, u64)>| #[trigger]
                                seen_keys(t, *snap, self@.journal.st(), keys) && all_legible(
                                    t,
                                    keys,
                                ) && unsortable(
                                    order_of(key, shape.columns),
                                    rows_at(t, keys),
                                    e,
                                )
                        }
                    },
                }
            }),
    {
        match self.tables.get(table.0 as u64) {
            None => bug(Bug::NotInInstance(IdSpace::Table, table.0)),
            Some(held) => {
                proof {
                    lemma_parts(held.store);
                }
                assert(held.store@ == self@.store(table));
                let rows: Vec<(RowId, Row)> = match held.store.scan(&self.journal, snap) {
                    Ok(rows) => rows,
                    Err(e) => {
                        return Err(SqlError::Internal(e));
                    },
                };
                let ghost t = held.store@;
                let ghost keys = choose|keys: Seq<(u64, u64)>| #[trigger]
                    seen_keys(t, *snap, self@.journal.st(), keys) && all_legible(t, keys)
                        && rows_view(rows@) == rows_at(t, keys);
                match &held.store.shape.clustered_key {
                    None => Ok(rows),
                    Some(key) => {
                        assert(self@.tables.contains_key(table.0 as u64));
                        assert(shape_ok(self@.shape_of(table)));
                        let order: KeyOrder = match KeyOrder::new(
                            KeyKind::Clustered,
                            key,
                            &held.store.shape,
                        ) {
                            Ok(order) => order,
                            Err(e) => {
                                assert(false);
                                return Err(e);
                            },
                        };
                        proof {
                            lemma_rows_apart(t, keys, rows@);
                            lemma_increasing_rows(rows@);
                        }
                        sort_seen(&order, rows)
                    },
                }
            },
        }
    }
}

/// Whether rows cannot be put in the order of a key, the error being `e`: two keys cannot be compared,
/// or a row lacks a column of the key.
pub open spec fn unsortable(
    order: Seq<Column>,
    rows: Seq<(RowId, Seq<ValueModel>)>,
    e: SqlError,
) -> bool {
    ||| keys_clash(order, rows) && e == SqlError::IncomparableValues
    ||| row_lacks(order, rows, e)
}

/// Puts rows in the order of a key, then of their identifier.
fn sort_seen(order: &KeyOrder, rows: Vec<(RowId, Row)>) -> (r: SqlResult<Vec<(RowId, Row)>>)
    requires
        distinct_rows(rows@),
    ensures
        match r {
            Ok(out) => {
                &&& sorts(order@, rows_view(out@), rows_view(rows@))
                &&& rows_fit(order@, rows_view(rows@))
                &&& !keys_clash(order@, rows_view(rows@))
            },
            Err(e) => unsortable(order@, rows_view(rows@), e),
        },
{
    let ghost given = rows@;
    match sort_rows(order, rows) {
        Ok(out) => {
            assert forall|i: int| 0 <= i < rows_view(given).len() implies fits(
                order@,
                (#[trigger] rows_view(given)[i]).1.len(),
            ) by {
                assert(fits(order@, given[i].1@.len()));
            }
            Ok(out)
        },
        Err(e) => {
            proof {
                if !(keys_clash(order@, rows_view(given)) && e == SqlError::IncomparableValues) {
                    let i = choose|i: int|
                        0 <= i < given.len() && short_row(
                            order@,
                            (#[trigger] given[i]).1@.len(),
                            e,
                        );
                    assert(rows_view(given)[i] == (given[i].0, given[i].1@));
                }
            }
            Err(e)
        },
    }
}

/// Checks one bound of a range against a key order.
fn check_bound(order: &KeyOrder, bound: &Bound) -> (r: SqlResult<()>)
    ensures
        match r {
            Ok(_) => bound_ok(order@, bound@),
            Err(e) => !bound_ok(order@, bound@) && bound_error(order@, bound@, e),
        },
{
    match bound {
        Bound::Included(p) => order.check_prefix(p),
        Bound::Excluded(p) => order.check_prefix(p),
        Bound::Unbounded => Ok(()),
    }
}

/// Checks a range against a key order.
fn check_range(order: &KeyOrder, range: &KeyRange) -> (r: SqlResult<()>)
    ensures
        match r {
            Ok(_) => range_ok(order@, range@),
            Err(e) => !range_ok(order@, range@) && range_error(order@, range@, e),
        },
{
    match range {
        KeyRange::Full => Ok(()),
        KeyRange::Point(p) => order.check_prefix(p),
        KeyRange::Between(lo, hi) => match check_bound(order, lo) {
            Ok(_) => check_bound(order, hi),
            Err(e) => Err(e),
        },
    }
}

/// Whether a key can be compared with a bound.
pub open spec fn bound_meets(order: Seq<Column>, key: Seq<ValueModel>, bound: BoundModel) -> bool {
    match bound {
        BoundModel::Unbounded => true,
        BoundModel::Included(p) | BoundModel::Excluded(p) => keys_comparable(order, key, p),
    }
}

/// Whether a key can be compared with the ends of a range.
pub open spec fn range_meets(order: Seq<Column>, key: Seq<ValueModel>, range: KeyRangeModel) -> bool {
    match range {
        KeyRangeModel::Full => true,
        KeyRangeModel::Point(p) => keys_comparable(order, key, p),
        KeyRangeModel::Between(lo, hi) => bound_meets(order, key, lo) && bound_meets(
            order,
            key,
            hi,
        ),
    }
}

/// How a key compares with the prefix of a bound, `None` without a bound.
fn against(order: &KeyOrder, key: &Vec<Value>, bound: &Bound) -> (r: SqlResult<Option<Relation>>)
    ensures
        match r {
            Ok(None) => bound@ is Unbounded,
            Ok(Some(relation)) => {
                &&& bound_meets(order@, key.deep_view(), bound@)
                &&& match bound@ {
                    BoundModel::Unbounded => false,
                    BoundModel::Included(p) | BoundModel::Excluded(p) => relation == key_relation(
                        order@,
                        key.deep_view(),
                        p,
                    ),
                }
            },
            Err(e) => !bound_meets(order@, key.deep_view(), bound@) && e
                == SqlError::IncomparableValues,
        },
{
    match bound {
        Bound::Unbounded => Ok(None),
        Bound::Included(p) => match order.compare_prefix(key, p) {
            Ok(relation) => Ok(Some(relation)),
            Err(e) => Err(e),
        },
        Bound::Excluded(p) => match order.compare_prefix(key, p) {
            Ok(relation) => Ok(Some(relation)),
            Err(e) => Err(e),
        },
    }
}

/// Whether a key is in a range.
fn selects(order: &KeyOrder, key: &Vec<Value>, range: &KeyRange) -> (r: SqlResult<bool>)
    ensures
        match r {
            Ok(inside) => range_meets(order@, key.deep_view(), range@) && inside == in_range(
                order@,
                key.deep_view(),
                range@,
            ),
            Err(e) => !range_meets(order@, key.deep_view(), range@) && e
                == SqlError::IncomparableValues,
        },
{
    match range {
        KeyRange::Full => Ok(true),
        KeyRange::Point(p) => match order.compare_prefix(key, p) {
            Ok(relation) => Ok(relation == Relation::Equal),
            Err(e) => Err(e),
        },
        KeyRange::Between(lo, hi) => {
            let low: bool = match against(order, key, lo) {
                Ok(None) => true,
                Ok(Some(relation)) => match lo {
                    Bound::Excluded(_) => relation == Relation::Greater,
                    _ => relation != Relation::Less,
                },
                Err(e) => {
                    return Err(e);
                },
            };
            let high: bool = match against(order, key, hi) {
                Ok(None) => true,
                Ok(Some(relation)) => match hi {
                    Bound::Excluded(_) => relation == Relation::Less,
                    _ => relation != Relation::Greater,
                },
                Err(e) => {
                    return Err(e);
                },
            };
            Ok(low && high)
        },
    }
}

/// The rows of a list whose key is in a range.
pub open spec fn selected(
    order: Seq<Column>,
    rows: Seq<(RowId, Seq<ValueModel>)>,
    range: KeyRangeModel,
) -> Seq<(RowId, Seq<ValueModel>)> {
    rows.filter(|x: (RowId, Seq<ValueModel>)| in_range(order, key_in(order, x.1), range))
}

/// What a seek answers over the rows a snapshot sees: those in the range, in the order of the
/// index, or backwards.
pub open spec fn seeks(
    order: Seq<Column>,
    out: Seq<(RowId, Seq<ValueModel>)>,
    rows: Seq<(RowId, Seq<ValueModel>)>,
    range: KeyRangeModel,
    dir: Direction,
) -> bool {
    exists|sorted: Seq<(RowId, Seq<ValueModel>)>| #[trigger]
        sorts(order, sorted, rows) && out == match dir {
            Direction::Forward => selected(order, sorted, range),
            Direction::Backward => selected(order, sorted, range).reverse(),
        }
}

/// Keeps the rows of a list whose key is in a range.
fn keep_selected(order: &KeyOrder, rows: &Vec<(RowId, Row)>, range: &KeyRange) -> (r: SqlResult<
    Vec<(RowId, Row)>,
>)
    requires
        forall|i: int| 0 <= i < rows@.len() ==> fits(order@, (#[trigger] rows@[i]).1@.len()),
    ensures
        match r {
            Ok(out) => {
                &&& rows_view(out@) == selected(order@, rows_view(rows@), range@)
                &&& forall|i: int|
                    0 <= i < rows@.len() ==> range_meets(
                        order@,
                        key_in(order@, (#[trigger] rows@[i]).1@),
                        range@,
                    )
            },
            Err(e) => e == SqlError::IncomparableValues && exists|i: int|
                0 <= i < rows@.len() && !range_meets(
                    order@,
                    key_in(order@, (#[trigger] rows@[i]).1@),
                    range@,
                ),
        },
{
    let mut out: Vec<(RowId, Row)> = Vec::new();
    let ghost all = rows_view(rows@);
    let ghost wanted = |x: (RowId, Seq<ValueModel>)| in_range(
        order@,
        key_in(order@, x.1),
        range@,
    );
    proof {
        assert(all.take(0) =~= Seq::empty());
        assert(rows_view(out@) =~= all.take(0).filter(wanted)) by {
            reveal(Seq::filter);
        }
    }
    for i in 0..rows.len()
        invariant
            all == rows_view(rows@),
            forall|i: int| 0 <= i < rows@.len() ==> fits(order@, (#[trigger] rows@[i]).1@.len()),
            rows_view(out@) == all.take(i as int).filter(wanted),
            wanted == (|x: (RowId, Seq<ValueModel>)| in_range(order@, key_in(order@, x.1), range@)),
            forall|k: int|
                0 <= k < i ==> range_meets(
                    order@,
                    key_in(order@, (#[trigger] rows@[k]).1@),
                    range@,
                ),
    {
        let key: Vec<Value> = match order.extract(&rows[i].1) {
            Ok(key) => key,
            Err(e) => {
                assert(fits(order@, rows@[i as int].1@.len()));
                assert(false);
                return Err(e);
            },
        };
        assert(key.deep_view() == key_in(order@, rows@[i as int].1@));
        let ghost before = out@;
        match selects(order, &key, range) {
            Ok(inside) => {
                if inside {
                    out.push((rows[i].0, rows[i].1.duplicate()));
                    assert(rows_view(out@) =~= rows_view(before).push(all[i as int]));
                }
                proof {
                    let longer = all.take(i + 1);
                    assert(longer.drop_last() =~= all.take(i as int));
                    assert(longer.last() == all[i as int]);
                    reveal(Seq::filter);
                    assert(longer.filter(wanted) == if wanted(all[i as int]) {
                        all.take(i as int).filter(wanted).push(all[i as int])
                    } else {
                        all.take(i as int).filter(wanted)
                    });
                }
            },
            Err(e) => {
                return Err(e);
            },
        }
    }
    assert(all.take(all.len() as int) =~= all);
    Ok(out)
}

/// Whether rows cannot be sought in a range, the error being `e`: they cannot be put in order, or a
/// value of theirs cannot be compared with the range.
pub open spec fn unsought(
    order: Seq<Column>,
    rows: Seq<(RowId, Seq<ValueModel>)>,
    range: KeyRangeModel,
    e: SqlError,
) -> bool {
    ||| unsortable(order, rows, e)
    ||| e == SqlError::IncomparableValues && exists|i: int|
        0 <= i < rows.len() && !range_meets(order, key_in(order, (#[trigger] rows[i]).1), range)
}

/// Puts rows in the order of a key and keeps those in a range, forwards or backwards.
fn seek_rows(order: &KeyOrder, rows: Vec<(RowId, Row)>, range: &KeyRange, dir: Direction) -> (r:
    SqlResult<Vec<(RowId, Row)>>)
    requires
        distinct_rows(rows@),
    ensures
        match r {
            Ok(out) => seeks(order@, rows_view(out@), rows_view(rows@), range@, dir),
            Err(e) => unsought(order@, rows_view(rows@), range@, e),
        },
{
    let ghost seen = rows_view(rows@);
    let sorted: Vec<(RowId, Row)> = match sort_seen(order, rows) {
        Ok(sorted) => sorted,
        Err(e) => {
            return Err(e);
        },
    };
    proof {
        lemma_sorted_fit(order@, sorted@, seen);
    }
    match keep_selected(order, &sorted, range) {
        Ok(out) => match dir {
            Direction::Forward => Ok(out),
            Direction::Backward => Ok(reverse_rows(out)),
        },
        Err(e) => {
            proof {
                lemma_out_of_range(order@, sorted@, seen, range@);
            }
            Err(e)
        },
    }
}

/// Rows put in order hold the columns the rows held.
proof fn lemma_sorted_fit(
    order: Seq<Column>,
    sorted: Seq<(RowId, Row)>,
    rows: Seq<(RowId, Seq<ValueModel>)>,
)
    requires
        sorts(order, rows_view(sorted), rows),
        rows_fit(order, rows),
    ensures
        forall|i: int| 0 <= i < sorted.len() ==> fits(order, (#[trigger] sorted[i]).1@.len()),
{
    assert forall|i: int| 0 <= i < sorted.len() implies fits(order, (#[trigger] sorted[i]).1@.len()) by {
        assert(rows_view(sorted).contains(rows_view(sorted)[i]));
        let x = choose|x: int| 0 <= x < rows.len() && rows[x] == rows_view(sorted)[i];
        assert(fits(order, rows[x].1.len()));
    }
}

/// A row put in order that cannot be compared with a range is one of the rows.
proof fn lemma_out_of_range(
    order: Seq<Column>,
    sorted: Seq<(RowId, Row)>,
    rows: Seq<(RowId, Seq<ValueModel>)>,
    range: KeyRangeModel,
)
    requires
        sorts(order, rows_view(sorted), rows),
        exists|i: int|
            0 <= i < sorted.len() && !range_meets(
                order,
                key_in(order, (#[trigger] sorted[i]).1@),
                range,
            ),
    ensures
        exists|i: int|
            0 <= i < rows.len() && !range_meets(order, key_in(order, (#[trigger] rows[i]).1), range),
{
    let i = choose|i: int|
        0 <= i < sorted.len() && !range_meets(
            order,
            key_in(order, (#[trigger] sorted[i]).1@),
            range,
        );
    assert(rows_view(sorted).contains(rows_view(sorted)[i]));
    let x = choose|x: int| 0 <= x < rows.len() && rows[x] == rows_view(sorted)[i];
    assert(!range_meets(order, key_in(order, rows[x].1), range));
}

impl DiskStorage {
    /// The rows an index serves for `range` in direction `dir`, as `snap` sees them: those whose
    /// key is in the range, in the order of the index key then of the row identifier.
    ///
    /// # Errors
    ///
    /// A bug for an unknown index and for a prefix longer than the key or of the wrong types; a
    /// corruption for a version whose columns are no row, or lack a column of the key; two values that
    /// cannot be compared.
    pub fn seek(&self, snap: &Snapshot, index: IndexId, range: &KeyRange, dir: Direction) -> (r:
        SqlResult<Vec<(RowId, Row)>>)
        requires
            self.wf(),
        ensures
            ({
                let m = self@;
                let e = m.indexes[index.0 as u64];
                let t = m.store(e.table);
                let order = order_of(e.shape.columns, m.shape_of(e.table).columns);
                match r {
                    Ok(out) => {
                        &&& m.indexes.contains_key(index.0 as u64)
                        &&& range_ok(order, range@)
                        &&& exists|keys: Seq<(u64, u64)>| #[trigger]
                            seen_keys(t, *snap, m.journal.st(), keys) && all_legible(t, keys)
                                && seeks(
                                order,
                                rows_view(out@),
                                rows_at(t, keys),
                                range@,
                                dir,
                            )
                    },
                    Err(e) => if !m.indexes.contains_key(index.0 as u64) {
                        e.is_bug(Bug::NotInInstance(IdSpace::Index, index.0))
                    } else if !range_ok(order, range@) {
                        range_error(order, range@, e)
                    } else {
                        ||| (e matches SqlError::Internal(f) && scan_fault(
                            t,
                            *snap,
                            m.journal.st(),
                            f,
                        ))
                        ||| exists|keys: Seq<(u64, u64)>| #[trigger]
                            seen_keys(t, *snap, m.journal.st(), keys) && all_legible(t, keys)
                                && unsought(order, rows_at(t, keys), range@, e)
                    },
                }
            }),
    {
        let entry: &IndexEntry = match self.indexes.get(index.0 as u64) {
            Some(entry) => entry,
            None => {
                return bug(Bug::NotInInstance(IdSpace::Index, index.0));
            },
        };
        assert(self@.indexes.contains_key(index.0 as u64));
        match self.tables.get(entry.table.0 as u64) {
            None => {
                assert(false);
                bug(Bug::NotInInstance(IdSpace::Table, entry.table.0))
            },
            Some(held) => {
                proof {
                    lemma_parts(held.store);
                }
                let ghost t = held.store@;
                assert(t == self@.store(entry.table));
                let order: KeyOrder = match KeyOrder::new(
                    KeyKind::Index,
                    &entry.shape.columns,
                    &held.store.shape,
                ) {
                    Ok(order) => order,
                    Err(e) => {
                        assert(false);
                        return Err(e);
                    },
                };
                match check_range(&order, range) {
                    Ok(_) => {},
                    Err(e) => {
                        return Err(e);
                    },
                }
                let rows: Vec<(RowId, Row)> = match held.store.scan(&self.journal, snap) {
                    Ok(rows) => rows,
                    Err(e) => {
                        return Err(SqlError::Internal(e));
                    },
                };
                let ghost keys = choose|keys: Seq<(u64, u64)>| #[trigger]
                    seen_keys(t, *snap, self@.journal.st(), keys) && all_legible(t, keys)
                        && rows_view(rows@) == rows_at(t, keys);
                let ghost seen = rows_at(t, keys);
                proof {
                    lemma_rows_apart(t, keys, rows@);
                    lemma_increasing_rows(rows@);
                }
                match seek_rows(&order, rows, range, dir) {
                    Ok(out) => Ok(out),
                    Err(e) => {
                        assert(unsought(order@, seen, range@, e));
                        Err(e)
                    },
                }
            },
        }
    }
}

/// Comparing two keys column by column for sameness is comparing them by the order of the key.
proof fn lemma_same_is_equal(
    a: Seq<ValueModel>,
    b: Seq<ValueModel>,
    columns: Seq<KeyColumn>,
    shape: TableShapeModel,
    i: int,
)
    requires
        0 <= i,
        key_inside(columns, shape.columns.len()),
        fits(order_of(columns, shape.columns), a.len()),
        fits(order_of(columns, shape.columns), b.len()),
    ensures
        ({
            let order = order_of(columns, shape.columns);
            let ka = key_in(order, a);
            let kb = key_in(order, b);
            same_from(key_values(a, columns), key_values(b, columns), columns, shape, i)
                == if comparable_from(order, ka, kb, i) {
                Some(relation_from(order, ka, kb, i) == Relation::Equal)
            } else {
                None
            }
        }),
    decreases columns.len() - i,
{
    if i < columns.len() {
        let order = order_of(columns, shape.columns);
        let ka = key_in(order, a);
        let kb = key_in(order, b);
        assert(columns[i].column < shape.columns.len());
        assert(order[i].position == columns[i].column);
        assert(key_values(a, columns)[i] == ka[i]);
        assert(key_values(b, columns)[i] == kb[i]);
        lemma_families_decide(ka[i], kb[i], order[i].collation);
        lemma_same_is_equal(a, b, columns, shape, i + 1);
    }
}

/// Whether no two rows of a list share a key.
pub open spec fn keys_distinct(order: Seq<Column>, rows: Seq<(RowId, Seq<ValueModel>)>) -> bool {
    forall|i: int, j: int|
        0 <= i < rows.len() && 0 <= j < rows.len() && i != j ==> key_relation(
            order,
            key_in(order, (#[trigger] rows[i]).1),
            key_in(order, (#[trigger] rows[j]).1),
        ) != Relation::Equal
}

/// Whether two rows of a list share the key `key`.
pub open spec fn key_shared(
    order: Seq<Column>,
    rows: Seq<(RowId, Seq<ValueModel>)>,
    key: Seq<ValueModel>,
) -> bool {
    exists|i: int, j: int|
        0 <= i < rows.len() && 0 <= j < rows.len() && i != j && key_relation(
            order,
            key_in(order, (#[trigger] rows[i]).1),
            key_in(order, (#[trigger] rows[j]).1),
        ) == Relation::Equal && key == key_in(order, rows[j].1)
}

/// Whether the row `n` has a key strictly before that of the next one.
spec fn steps_up(order: Seq<Column>, rows: Seq<(RowId, Seq<ValueModel>)>, n: int) -> bool {
    key_relation(order, key_in(order, rows[n].1), key_in(order, rows[n + 1].1)) == Relation::Less
}

/// In a sorted list whose neighbours all differ, every two rows differ.
proof fn lemma_neighbours_decide(
    order: Seq<Column>,
    rows: Seq<(RowId, Seq<ValueModel>)>,
    i: int,
    j: int,
)
    requires
        0 <= i < j < rows.len(),
        forall|n: int| 0 <= n < rows.len() - 1 ==> #[trigger] steps_up(order, rows, n),
    ensures
        key_relation(order, key_in(order, rows[i].1), key_in(order, rows[j].1)) == Relation::Less,
    decreases j - i,
{
    assert(steps_up(order, rows, j - 1));
    if i < j - 1 {
        lemma_neighbours_decide(order, rows, i, j - 1);
        lemma_key_relation_transitive(
            order,
            key_in(order, rows[i].1),
            key_in(order, rows[j - 1].1),
            key_in(order, rows[j].1),
        );
    }
}

/// Whether an index of shape `def` can be built over the live rows of a table.
pub open spec fn buildable(
    order: Seq<Column>,
    rows: Seq<(RowId, Seq<ValueModel>)>,
    unique: bool,
) -> bool {
    rows_fit(order, rows) && !keys_clash(order, rows) && (unique ==> keys_distinct(order, rows))
}

/// Whether the live rows of a table read back and an index can be built over them.
pub open spec fn can_build(t: HeapTableModel, order: Seq<Column>, unique: bool) -> bool {
    exists|keys: Seq<(u64, u64)>| #[trigger]
        live_keys(t, keys) && all_legible(t, keys) && buildable(order, rows_at(t, keys), unique)
}

/// Whether an index cannot be built over a table, the error being `e`: a live row does not read back,
/// or the rows do not take the index.
pub open spec fn cannot_build(
    t: HeapTableModel,
    order: Seq<Column>,
    unique: bool,
    table: TableId,
    index: IndexId,
    e: SqlError,
) -> bool {
    ||| (e matches SqlError::Internal(f) && live_fault(t, f))
    ||| exists|keys: Seq<(u64, u64)>| #[trigger]
        live_keys(t, keys) && all_legible(t, keys) && build_error(
            order,
            rows_at(t, keys),
            unique,
            table,
            index,
            e,
        )
}

/// Two lists of the live versions of a table are the same list.
pub proof fn lemma_live_keys_one(
    t: HeapTableModel,
    a: Seq<(u64, u64)>,
    b: Seq<(u64, u64)>,
)
    requires
        live_keys(t, a),
        live_keys(t, b),
    ensures
        a == b,
{
    lemma_same_list(a, b);
}

/// Rows that do not take an index have none built over them.
proof fn lemma_not_buildable(
    order: Seq<Column>,
    rows: Seq<(RowId, Seq<ValueModel>)>,
    unique: bool,
    table: TableId,
    index: IndexId,
    e: SqlError,
)
    requires
        build_error(order, rows, unique, table, index, e),
    ensures
        !buildable(order, rows, unique),
{
    if rows_fit(order, rows) && !keys_clash(order, rows) {
        let key = e->DuplicateKey_key.deep_view();
        let (i, j) = choose|i: int, j: int|
            0 <= i < rows.len() && 0 <= j < rows.len() && i != j && key_relation(
                order,
                key_in(order, (#[trigger] rows[i]).1),
                key_in(order, (#[trigger] rows[j]).1),
            ) == Relation::Equal && key == key_in(order, rows[j].1);
        assert(!keys_distinct(order, rows)) by {
            assert(rows[i] == rows[i] && rows[j] == rows[j]);
        }
    }
}

/// A live version that does not read back is among the live versions.
proof fn lemma_not_all_legible(t: HeapTableModel, keys: Seq<(u64, u64)>, f: InternalError)
    requires
        live_keys(t, keys),
        live_fault(t, f),
    ensures
        !all_legible(t, keys),
{
    let k = choose|k: (u64, u64)| #[trigger]
        is_live_key(t, k) && !legible(t.contents[k]) && f == illegible(t.contents[k]);
    assert(keys.contains(k));
    let i = choose|i: int| 0 <= i < keys.len() && keys[i] == k;
    assert(!legible(t.contents[keys[i]]));
}

/// A table over which an index failed to build is one over which it cannot be built.
pub proof fn lemma_cannot_build(
    t: HeapTableModel,
    order: Seq<Column>,
    unique: bool,
    table: TableId,
    index: IndexId,
    e: SqlError,
)
    requires
        cannot_build(t, order, unique, table, index, e),
    ensures
        !can_build(t, order, unique),
{
    if can_build(t, order, unique) {
        let keys = choose|keys: Seq<(u64, u64)>| #[trigger]
            live_keys(t, keys) && all_legible(t, keys) && buildable(order, rows_at(t, keys), unique);
        if e matches SqlError::Internal(f) && live_fault(t, f) {
            lemma_not_all_legible(t, keys, e->Internal_0);
        } else {
            let other = choose|other: Seq<(u64, u64)>| #[trigger]
                live_keys(t, other) && all_legible(t, other) && build_error(
                    order,
                    rows_at(t, other),
                    unique,
                    table,
                    index,
                    e,
                );
            lemma_live_keys_one(t, keys, other);
            lemma_not_buildable(order, rows_at(t, keys), unique, table, index, e);
        }
    }
}

/// The error of an index that cannot be built.
pub open spec fn build_error(
    order: Seq<Column>,
    rows: Seq<(RowId, Seq<ValueModel>)>,
    unique: bool,
    table: TableId,
    index: IndexId,
    e: SqlError,
) -> bool {
    if !rows_fit(order, rows) || keys_clash(order, rows) {
        unsortable(order, rows, e)
    } else {
        &&& unique
        &&& e matches SqlError::DuplicateKey { table: t, index: x, key }
        &&& t == table
        &&& x == index
        &&& key_shared(order, rows, key.deep_view())
    }
}

/// What neighbours say of a sorted list says it of the rows it was sorted from.
proof fn lemma_sorted_distinct(
    order: Seq<Column>,
    sorted: Seq<(RowId, Seq<ValueModel>)>,
    rows: Seq<(RowId, Seq<ValueModel>)>,
    columns: Seq<KeyColumn>,
    shape: TableShapeModel,
)
    requires
        order == order_of(columns, shape.columns),
        key_inside(columns, shape.columns.len()),
        sorts(order, sorted, rows),
        !keys_clash(order, rows),
        rows_fit(order, rows),
        forall|i: int, j: int|
            0 <= i < j < rows.len() ==> (#[trigger] rows[i]).0.0 < (#[trigger] rows[j]).0.0,
        forall|n: int|
            0 <= n < sorted.len() - 1 ==> #[trigger] shares_with_next(sorted, columns, shape, n)
                == Some(false),
    ensures
        keys_distinct(order, rows),
{
    assert forall|n: int| 0 <= n < sorted.len() - 1 implies #[trigger] steps_up(
        order,
        sorted,
        n,
    ) by {
        assert(sorted.contains(sorted[n]) && sorted.contains(sorted[n + 1]));
        let x = choose|x: int| 0 <= x < rows.len() && rows[x] == sorted[n];
        let y = choose|y: int| 0 <= y < rows.len() && rows[y] == sorted[n + 1];
        assert(rows[x] == sorted[n] && rows[y] == sorted[n + 1]);
        assert(shares_with_next(sorted, columns, shape, n) == Some(false));
        lemma_same_is_equal(sorted[n].1, sorted[n + 1].1, columns, shape, 0);
        assert(row_before(order, sorted[n], sorted[n + 1]));
    }
    assert forall|i: int, j: int|
        0 <= i < rows.len() && 0 <= j < rows.len() && i != j implies key_relation(
        order,
        key_in(order, (#[trigger] rows[i]).1),
        key_in(order, (#[trigger] rows[j]).1),
    ) != Relation::Equal by {
        assert(rows.contains(rows[i]) && rows.contains(rows[j]));
        assert(sorted.contains(rows[i]) && sorted.contains(rows[j]));
        let x = choose|x: int| 0 <= x < sorted.len() && sorted[x] == rows[i];
        let y = choose|y: int| 0 <= y < sorted.len() && sorted[y] == rows[j];
        assert(rows[i].0 != rows[j].0) by {
            if i < j {
                assert(rows[i].0.0 < rows[j].0.0);
            } else {
                assert(rows[j].0.0 < rows[i].0.0);
            }
        }
        lemma_key_relation_flips(order, key_in(order, rows[i].1), key_in(order, rows[j].1));
        if x < y {
            lemma_neighbours_decide(order, sorted, x, y);
        } else {
            lemma_neighbours_decide(order, sorted, y, x);
        }
    }
}

/// Two neighbours of a sorted list that share a key are two rows of the list it was sorted from.
proof fn lemma_pair_found(
    order: Seq<Column>,
    sorted: Seq<(RowId, Seq<ValueModel>)>,
    rows: Seq<(RowId, Seq<ValueModel>)>,
    columns: Seq<KeyColumn>,
    shape: TableShapeModel,
    n: int,
)
    requires
        order == order_of(columns, shape.columns),
        key_inside(columns, shape.columns.len()),
        sorts(order, sorted, rows),
        !keys_clash(order, rows),
        rows_fit(order, rows),
        0 <= n < sorted.len() - 1,
        shares_with_next(sorted, columns, shape, n) != Some(false),
    ensures
        shares_with_next(sorted, columns, shape, n) == Some(true),
        key_shared(order, rows, key_values(sorted[n + 1].1, columns)),
{
    assert(sorted.contains(sorted[n]) && sorted.contains(sorted[n + 1]));
    let x = choose|x: int| 0 <= x < rows.len() && rows[x] == sorted[n];
    let y = choose|y: int| 0 <= y < rows.len() && rows[y] == sorted[n + 1];
    assert(rows[x] == sorted[n] && rows[y] == sorted[n + 1]);
    lemma_same_is_equal(sorted[n].1, sorted[n + 1].1, columns, shape, 0);
    assert(row_before(order, sorted[n], sorted[n + 1]));
    assert(x != y);
    assert(key_values(rows[y].1, columns) =~= key_in(order, rows[y].1)) by {
        assert forall|c: int| 0 <= c < columns.len() implies key_values(rows[y].1, columns)[c]
            == key_in(order, rows[y].1)[c] by {
            assert(columns[c].column < shape.columns.len());
            assert(order[c].position == columns[c].column);
            assert(fits(order, rows[y].1.len()));
        }
    }
}

/// Whether two keys name the same columns in the same order and directions.
fn same_columns(a: &Vec<KeyColumn>, b: &Vec<KeyColumn>) -> (r: bool)
    ensures
        r == (a@ == b@),
{
    if a.len() != b.len() {
        return false;
    }
    for i in 0..a.len()
        invariant
            a@.len() == b@.len(),
            forall|k: int| 0 <= k < i ==> a@[k] == b@[k],
    {
        if a[i] != b[i] {
            return false;
        }
    }
    assert(a@ =~= b@);
    true
}

/// Taking an identifier keeps an instance consistent.
pub proof fn lemma_taken_wf(m: DiskModel, counter: Counter)
    requires
        m.wf(),
        !m.exhausted(counter),
    ensures
        m.taken(counter).wf(),
{
    let n = m.taken(counter);
    assert forall|x: u64| #[trigger] n.indexes.contains_key(x) implies {
        let e = n.indexes[x];
        &&& e.index.0 as u64 == x
        &&& n.has_table(e.table)
        &&& index_shape_ok(e.shape, n.shape_of(e.table).columns.len())
        &&& x < n.control.next_index_id
    } by {
        assert(m.indexes.contains_key(x));
    }
    assert forall|t: u64| #[trigger] n.tables.contains_key(t) implies m.tables.contains_key(t) by {}
    assert forall|d: u64| #[trigger] n.databases.contains_key(d) implies m.databases.contains_key(
        d,
    ) by {}
}

impl DiskStorage {
    /// Checks that an index of shape `def` can be built over the live rows of `table`: their keys
    /// can be compared, and for a `unique` index no two are equal.
    pub(crate) fn check_index_rows(&self, table: TableId, index: IndexId, def: &IndexShape) -> (r: SqlResult<
        (),
    >)
        requires
            self.wf(),
            self@.has_table(table),
            index_shape_ok(def@, self@.shape_of(table).columns.len()),
        ensures
            ({
                let t = self@.store(table);
                let order = order_of(def@.columns, self@.shape_of(table).columns);
                match r {
                    Ok(_) => can_build(t, order, def@.unique),
                    Err(e) => cannot_build(t, order, def@.unique, table, index, e),
                }
            }),
    {
        match self.tables.get(table.0 as u64) {
            None => {
                assert(false);
                bug(Bug::NotInInstance(IdSpace::Table, table.0))
            },
            Some(held) => {
                proof {
                    lemma_parts(held.store);
                }
                let ghost t = held.store@;
                let ghost shape = held.store.shape@;
                assert(t == self@.store(table));
                let order: KeyOrder = match KeyOrder::new(
                    KeyKind::Index,
                    &def.columns,
                    &held.store.shape,
                ) {
                    Ok(order) => order,
                    Err(e) => {
                        assert(false);
                        return Err(e);
                    },
                };
                let rows: Vec<(RowId, Row)> = match held.store.current_rows() {
                    Ok(rows) => rows,
                    Err(e) => {
                        return Err(SqlError::Internal(e));
                    },
                };
                let ghost keys = choose|keys: Seq<(u64, u64)>| #[trigger]
                    live_keys(t, keys) && all_legible(t, keys) && rows_view(rows@) == rows_at(
                        t,
                        keys,
                    );
                let ghost live = rows_at(t, keys);
                proof {
                    lemma_rows_apart(t, keys, rows@);
                    assert forall|i: int, j: int| 0 <= i < j < live.len() implies (
                    #[trigger] live[i]).0.0 < (#[trigger] live[j]).0.0 by {
                        assert(keys[i].0 < keys[j].0);
                    }
                }
                proof {
                    lemma_increasing_rows(rows@);
                }
                let sorted: Vec<(RowId, Row)> = match sort_seen(&order, rows) {
                    Ok(sorted) => sorted,
                    Err(e) => {
                        assert(build_error(order@, live, def@.unique, table, index, e));
                        return Err(e);
                    },
                };
                assert(sorts(order@, rows_view(sorted@), live));
                if def.unique {
                    match refuse_a_duplicate_clustered_key(
                        table,
                        index,
                        def,
                        &held.store.shape,
                        &sorted,
                    ) {
                        Ok(_) => {
                            proof {
                                lemma_sorted_distinct(
                                    order@,
                                    rows_view(sorted@),
                                    live,
                                    def.columns@,
                                    shape,
                                );
                            }
                        },
                        Err(e) => {
                            proof {
                                let out = rows_view(sorted@);
                                let n = choose|n: int|
                                    {
                                        &&& 0 <= n < out.len() - 1
                                        &&& match #[trigger] shares_with_next(
                                            out,
                                            def@.columns,
                                            shape,
                                            n,
                                        ) {
                                            Some(same) => {
                                                &&& same
                                                &&& e matches SqlError::DuplicateKey {
                                                    table: t,
                                                    index: x,
                                                    key,
                                                }
                                                &&& t == table
                                                &&& x == index
                                                &&& key.deep_view() == key_values(
                                                    out[n + 1].1,
                                                    def@.columns,
                                                )
                                            },
                                            None => e == SqlError::IncomparableValues,
                                        }
                                        &&& forall|j: int|
                                            0 <= j < n ==> #[trigger] shares_with_next(
                                                out,
                                                def@.columns,
                                                shape,
                                                j,
                                            ) == Some(false)
                                    };
                                lemma_pair_found(
                                    order@,
                                    out,
                                    live,
                                    def.columns@,
                                    shape,
                                    n,
                                );
                            }
                            return Err(e);
                        },
                    }
                }
                Ok(())
            },
        }
    }

    /// Creates the index `def` on `table` and answers its fresh identifier.
    ///
    /// An index whose columns are the clustered key of its table, in the same order and the same
    /// directions, shares the order of the table. Any other is built over the rows already there.
    /// A `unique` shape is refused when two live rows share a key, `NULL` equal to `NULL`.
    ///
    /// # Errors
    ///
    /// A bug when `table` is unknown, for a shape that cannot be stored, and when the identifiers
    /// are exhausted; a duplicate for a `unique` shape when two live rows share a key, which takes
    /// the identifier all the same; a bug when the journal refuses the record.
    pub fn create_index(&mut self, table: TableId, def: &IndexShape) -> (r: SqlResult<IndexId>)
        requires
            old(self).wf(),
        ensures
            final(self).wf(),
            final(self).options == old(self).options,
            final(self).recovery == old(self).recovery,
            ({
                let m = old(self)@;
                let n = final(self)@;
                let shape = m.shape_of(table);
                let t = m.store(table);
                let index = IndexId(m.control.next_index_id as u32);
                let shared = shape.clustered_key == Some(def@.columns);
                let entry = IndexEntryModel { index, table, shape: def@, shared };
                let payload = words_bytes(index_words(entry));
                let order = order_of(def@.columns, shape.columns);
                let taken = m.taken(Counter::Index);
                if !m.has_table(table) {
                    n == m && (r matches Err(e) && e.is_bug(Bug::NotInInstance(IdSpace::Table, table.0)))
                } else if !index_shape_ok(def@, shape.columns.len()) {
                    n == m && (r matches Err(SqlError::Internal(e)) && index_shape_error(
                        def@,
                        shape.columns.len(),
                        e,
                    ))
                } else if m.exhausted(Counter::Index) {
                    n == m && (r matches Err(e) && e.is_bug(Bug::IdsExhausted(IdSpace::Index)))
                } else {
                    ||| {
                        &&& n == taken
                        &&& !(shared && !def@.unique)
                        &&& r matches Err(e)
                        &&& !can_build(t, order, def@.unique)
                        &&& cannot_build(t, order, def@.unique, table, index, e)
                    }
                    ||| {
                        &&& (shared && !def@.unique) || can_build(t, order, def@.unique)
                        &&& if m.journal.refuses(payload.len()) {
                            n == taken && (r matches Err(e) && e == SqlError::Internal(
                                m.journal.refusal(WalRecordKind::CreateIndex, payload.len()),
                            ))
                        } else {
                            &&& r == Ok::<IndexId, SqlError>(index)
                            &&& n == (DiskModel {
                                indexes: m.indexes.insert(index.0 as u64, entry),
                                ..taken.recorded(WalRecordKind::CreateIndex, payload)
                            })
                        }
                    }
                }
            }),
    {
        let ghost m = self@;
        let shared: bool = match self.tables.get(table.0 as u64) {
            None => {
                return bug(Bug::NotInInstance(IdSpace::Table, table.0));
            },
            Some(held) => {
                match check_index_shape(def, &held.store.shape) {
                    Ok(_) => {},
                    Err(e) => {
                        return Err(SqlError::Internal(e));
                    },
                }
                match &held.store.shape.clustered_key {
                    Some(key) => same_columns(key, &def.columns),
                    None => false,
                }
            },
        };
        let index: IndexId = match self.take_id(Counter::Index) {
            Ok(id) => IndexId(id),
            Err(e) => {
                return Err(SqlError::Internal(e));
            },
        };
        let ghost t = m.store(table);
        let ghost order = order_of(def@.columns, m.shape_of(table).columns);
        proof {
            lemma_taken_wf(m, Counter::Index);
        }
        if !shared || def.unique {
            match self.check_index_rows(table, index, def) {
                Ok(_) => {},
                Err(e) => {
                    proof {
                        lemma_cannot_build(t, order, def@.unique, table, index, e);
                    }
                    return Err(e);
                },
            }
        }
        let entry = IndexEntry { index, table, shape: def.duplicate(), shared };
        let payload: Vec<u8> = entry.encode();
        match self.record(WalRecordKind::CreateIndex, &payload) {
            Ok(_) => {},
            Err(e) => {
                return Err(SqlError::Internal(e));
            },
        }
        let ghost added = entry@;
        self.indexes.insert(index.0 as u64, entry);
        proof {
            let n = DiskModel {
                indexes: m.indexes.insert(index.0 as u64, added),
                ..m.taken(Counter::Index).recorded(WalRecordKind::CreateIndex, payload@)
            };
            assert(self@ =~= n);
            assert forall|x: u64| #[trigger] n.indexes.contains_key(x) implies {
                let e = n.indexes[x];
                &&& e.index.0 as u64 == x
                &&& n.has_table(e.table)
                &&& index_shape_ok(e.shape, n.shape_of(e.table).columns.len())
                &&& x < n.control.next_index_id
            } by {
                if x != index.0 as u64 {
                    assert(m.indexes.contains_key(x));
                }
            }
        }
        Ok(index)
    }
}

} // verus!
