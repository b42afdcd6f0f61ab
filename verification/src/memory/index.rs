//! In-memory representation of an index: a sorted `Vec` of entries, one per row **version**,
//! searched by binary search.
//!
//! One entry per version, not per logical row, is what lets an old snapshot see a row under its
//! old key while a newer snapshot sees it under the new one: a seek filters each entry by the
//! visibility of its version.

use vstd::prelude::*;

use super::key_order::{
    fits, key_in, key_relation, keys_comparable, lemma_equal_is_comparable,
    lemma_key_relation_flips, lemma_key_relation_transitive,
    partition_point, prefix_error, prefix_ok, Column, KeyOrder,
};
use super::table::{removed_versions, Version, VersionModel};
use super::txn_log::{status_in, statuses, TxnState};
use crate::error::{SqlError, SqlResult};
use crate::ids::{RowId, TableId, TxnId};
use crate::key_range::{Bound, BoundModel, KeyRange, KeyRangeModel};
use crate::ordmap::OrdMap;
use crate::row::duplicate_values;
use crate::seqs::{
    lemma_filter_agree, lemma_filter_all, lemma_filter_elements, lemma_filter_filter,
    lemma_filter_one, lemma_filter_pairwise,
};
use crate::shape::{IndexShape, IndexShapeModel};
use crate::snapshot::{status_of, TxnStatus};
use crate::value::{Relation, Value, ValueModel};

verus! {

/// One entry of an index: the key of one version of one row.
#[derive(Debug)]
pub struct IndexEntry {
    /// The key values of the version, in key order.
    pub key: Vec<Value>,
    /// The logical row the version belongs to.
    pub row: RowId,
    /// The serial number of the version within its table.
    pub version: usize,
}

/// What an [`IndexEntry`] stands for.
#[verifier::ext_equal]
pub struct EntryModel {
    /// The key values of the version.
    pub key: Seq<ValueModel>,
    /// The logical row the version belongs to.
    pub row: RowId,
    /// The serial number of the version.
    pub version: usize,
}

impl View for IndexEntry {
    type V = EntryModel;

    open spec fn view(&self) -> EntryModel {
        EntryModel { key: self.key.deep_view(), row: self.row, version: self.version }
    }
}

impl DeepView for IndexEntry {
    type V = EntryModel;

    open spec fn deep_view(&self) -> EntryModel {
        self@
    }
}

/// An index on one table: its shape, its comparator and its entries, kept sorted by
/// `(key in index order, RowId, version)`.
#[derive(Debug)]
pub struct Index {
    /// The table the index belongs to.
    pub table: TableId,
    /// The shape the index was created with.
    pub shape: IndexShape,
    /// The comparator built from the key columns and the table's column types.
    pub order: KeyOrder,
    /// The entries, sorted as described on the type.
    pub entries: Vec<IndexEntry>,
}

/// What an [`Index`] stands for.
#[verifier::ext_equal]
pub struct IndexModel {
    /// The table the index belongs to.
    pub table: TableId,
    /// The shape the index was created with.
    pub shape: IndexShapeModel,
    /// The comparator of its key.
    pub order: Seq<Column>,
    /// The entries.
    pub entries: Seq<EntryModel>,
}

impl View for Index {
    type V = IndexModel;

    open spec fn view(&self) -> IndexModel {
        IndexModel {
            table: self.table,
            shape: self.shape@,
            order: self.order@,
            entries: self.entries.deep_view(),
        }
    }
}

impl DeepView for Index {
    type V = IndexModel;

    open spec fn deep_view(&self) -> IndexModel {
        self@
    }
}

/// The order of the entries of an index: by key, then by row, then by version.
pub open spec fn entry_before(order: Seq<Column>, a: EntryModel, b: EntryModel) -> bool {
    match key_relation(order, a.key, b.key) {
        Relation::Less => true,
        Relation::Equal => a.row.0 < b.row.0 || (a.row == b.row && a.version < b.version),
        Relation::Greater => false,
    }
}

/// Whether `entries` may be the entries of an index: whole keys, strictly sorted, any two of
/// them comparable.
pub open spec fn entries_ok(order: Seq<Column>, entries: Seq<EntryModel>) -> bool {
    &&& forall|i: int| 0 <= i < entries.len() ==> (#[trigger] entries[i]).key.len() == order.len()
    &&& forall|i: int, j: int|
        0 <= i < j < entries.len() ==> #[trigger] entry_before(order, entries[i], entries[j])
    &&& forall|i: int, j: int|
        0 <= i < entries.len() && 0 <= j < entries.len() ==> #[trigger] keys_comparable(
            order,
            entries[i].key,
            entries[j].key,
        )
}

/// Whether `key` is comparable to the key of every entry.
pub open spec fn all_comparable(
    order: Seq<Column>,
    entries: Seq<EntryModel>,
    key: Seq<ValueModel>,
) -> bool {
    forall|i: int|
        0 <= i < entries.len() ==> keys_comparable(order, #[trigger] entries[i].key, key)
}

/// The position where an entry belongs: after the last entry that sorts before it.
pub open spec fn slot(order: Seq<Column>, entries: Seq<EntryModel>, e: EntryModel) -> nat
    decreases entries.len(),
{
    if entries.len() == 0 {
        0
    } else if entry_before(order, entries.last(), e) {
        entries.len()
    } else {
        slot(order, entries.drop_last(), e)
    }
}

/// The entries with `e` added where it belongs.
pub open spec fn with_entry(order: Seq<Column>, entries: Seq<EntryModel>, e: EntryModel) -> Seq<
    EntryModel,
> {
    entries.insert(slot(order, entries, e) as int, e)
}

/// Whether an entry names the version `version` of `row`.
pub open spec fn names(e: EntryModel, row: RowId, version: usize) -> bool {
    e.row == row && e.version == version
}

/// Whether a key is at or after a lower bound.
pub open spec fn above(order: Seq<Column>, key: Seq<ValueModel>, lo: BoundModel) -> bool {
    match lo {
        BoundModel::Unbounded => true,
        BoundModel::Included(p) => key_relation(order, key, p) != Relation::Less,
        BoundModel::Excluded(p) => key_relation(order, key, p) == Relation::Greater,
    }
}

/// Whether a key is at or before an upper bound.
pub open spec fn below(order: Seq<Column>, key: Seq<ValueModel>, hi: BoundModel) -> bool {
    match hi {
        BoundModel::Unbounded => true,
        BoundModel::Included(p) => key_relation(order, key, p) != Relation::Greater,
        BoundModel::Excluded(p) => key_relation(order, key, p) == Relation::Less,
    }
}

/// Whether a key is one a range selects.
pub open spec fn in_range(order: Seq<Column>, key: Seq<ValueModel>, range: KeyRangeModel) -> bool {
    match range {
        KeyRangeModel::Full => true,
        KeyRangeModel::Point(p) => key_relation(order, key, p) == Relation::Equal,
        KeyRangeModel::Between(lo, hi) => above(order, key, lo) && below(order, key, hi),
    }
}

/// Whether a bound may be handed to a seek.
pub open spec fn bound_ok(order: Seq<Column>, bound: BoundModel) -> bool {
    match bound {
        BoundModel::Unbounded => true,
        BoundModel::Included(p) | BoundModel::Excluded(p) => prefix_ok(order, p),
    }
}

/// The error of a bound that may not be handed to a seek.
pub open spec fn bound_error(order: Seq<Column>, bound: BoundModel, e: SqlError) -> bool {
    match bound {
        BoundModel::Unbounded => false,
        BoundModel::Included(p) | BoundModel::Excluded(p) => prefix_error(order, p, e),
    }
}

/// Whether a bound is comparable to every entry.
pub open spec fn bound_comparable(
    order: Seq<Column>,
    entries: Seq<EntryModel>,
    bound: BoundModel,
) -> bool {
    match bound {
        BoundModel::Unbounded => true,
        BoundModel::Included(p) | BoundModel::Excluded(p) => all_comparable(order, entries, p),
    }
}

/// Whether a range may be handed to a seek.
pub open spec fn range_ok(order: Seq<Column>, range: KeyRangeModel) -> bool {
    match range {
        KeyRangeModel::Full => true,
        KeyRangeModel::Point(p) => prefix_ok(order, p),
        KeyRangeModel::Between(lo, hi) => bound_ok(order, lo) && bound_ok(order, hi),
    }
}

/// The error of a range that may not be handed to a seek: the one of the first bound at fault.
pub open spec fn range_error(order: Seq<Column>, range: KeyRangeModel, e: SqlError) -> bool {
    match range {
        KeyRangeModel::Full => false,
        KeyRangeModel::Point(p) => prefix_error(order, p, e),
        KeyRangeModel::Between(lo, hi) => if bound_ok(order, lo) {
            bound_error(order, hi, e)
        } else {
            bound_error(order, lo, e)
        },
    }
}

/// Whether a range is comparable to every entry.
pub open spec fn range_comparable(
    order: Seq<Column>,
    entries: Seq<EntryModel>,
    range: KeyRangeModel,
) -> bool {
    match range {
        KeyRangeModel::Full => true,
        KeyRangeModel::Point(p) => all_comparable(order, entries, p),
        KeyRangeModel::Between(lo, hi) => bound_comparable(order, entries, lo) && bound_comparable(
            order,
            entries,
            hi,
        ),
    }
}

/// The version of serial `seq` in a chain.
pub open spec fn chain_find(chain: Seq<VersionModel>, seq: usize) -> Option<VersionModel>
    decreases chain.len(),
{
    if chain.len() == 0 {
        None
    } else if chain[0].seq == seq {
        Some(chain[0])
    } else {
        chain_find(chain.drop_first(), seq)
    }
}

/// The version `seq` of row `row`, if both exist.
pub open spec fn version_at(rows: Map<u64, Seq<VersionModel>>, row: RowId, seq: usize) -> Option<
    VersionModel,
> {
    if rows.contains_key(row.0) {
        chain_find(rows[row.0], seq)
    } else {
        None
    }
}

/// Whether every entry names a version that exists.
pub open spec fn points_into(rows: Map<u64, Seq<VersionModel>>, entries: Seq<EntryModel>) -> bool {
    forall|i: int|
        0 <= i < entries.len() ==> version_at(
            rows,
            (#[trigger] entries[i]).row,
            entries[i].version,
        ) is Some
}

/// Whether a version is *live* for the uniqueness test, from the point of view of the writing
/// transaction `txn`: its creator has not aborted and it is current, or deleted/replaced by
/// another transaction still in progress. A version deleted or replaced by `txn` itself is
/// never live for `txn`. With `txn = None` every in-progress deleter counts.
pub open spec fn live(v: VersionModel, txn: Option<TxnId>, st: Map<u64, TxnStatus>) -> bool {
    &&& status_of(st, v.xmin) != TxnStatus::Aborted
    &&& match v.xmax {
        None => true,
        Some(x) => Some(x) != txn && status_of(st, x) == TxnStatus::InProgress,
    }
}

/// Whether an entry names a live version.
pub open spec fn live_entry(
    rows: Map<u64, Seq<VersionModel>>,
    e: EntryModel,
    txn: Option<TxnId>,
    st: Map<u64, TxnStatus>,
) -> bool {
    version_at(rows, e.row, e.version) matches Some(v) && live(v, txn, st)
}

/// Whether a live version of a row other than `skip` holds `key`.
pub open spec fn live_duplicate(
    order: Seq<Column>,
    entries: Seq<EntryModel>,
    key: Seq<ValueModel>,
    rows: Map<u64, Seq<VersionModel>>,
    txn: Option<TxnId>,
    st: Map<u64, TxnStatus>,
    skip: Option<RowId>,
) -> bool {
    exists|i: int|
        0 <= i < entries.len() && key_relation(order, (#[trigger] entries[i]).key, key)
            == Relation::Equal && Some(entries[i].row) != skip && live_entry(
            rows,
            entries[i],
            txn,
            st,
        )
}

/// Whether live versions of two distinct rows share the key of the entry `g`.
pub open spec fn duplicated_at(
    order: Seq<Column>,
    entries: Seq<EntryModel>,
    rows: Map<u64, Seq<VersionModel>>,
    st: Map<u64, TxnStatus>,
    g: int,
) -> bool {
    exists|i: int, j: int|
        0 <= i < entries.len() && 0 <= j < entries.len() && (#[trigger] entries[i]).row
            != (#[trigger] entries[j]).row && key_relation(order, entries[i].key, entries[g].key)
            == Relation::Equal && key_relation(order, entries[j].key, entries[g].key)
            == Relation::Equal && live_entry(rows, entries[i], None, st) && live_entry(
            rows,
            entries[j],
            None,
            st,
        )
}

/// The order of the entries is transitive.
pub proof fn lemma_entry_before_transitive(
    order: Seq<Column>,
    a: EntryModel,
    b: EntryModel,
    c: EntryModel,
)
    requires
        a.key.len() == order.len(),
        b.key.len() == order.len(),
        c.key.len() == order.len(),
        entry_before(order, a, b),
        entry_before(order, b, c),
    ensures
        entry_before(order, a, c),
{
    lemma_key_relation_transitive(order, a.key, b.key, c.key);
    lemma_key_relation_flips(order, a.key, c.key);
    lemma_key_relation_flips(order, a.key, b.key);
    lemma_key_relation_flips(order, b.key, c.key);
    if key_relation(order, a.key, b.key) == Relation::Equal && key_relation(order, b.key, c.key)
        == Relation::Equal {
        lemma_key_relation_transitive(order, c.key, b.key, a.key);
    }
}

/// Of two distinct entries exactly one sorts before the other.
pub proof fn lemma_entry_before_total(order: Seq<Column>, a: EntryModel, b: EntryModel)
    ensures
        !(entry_before(order, a, b) && entry_before(order, b, a)),
        !entry_before(order, a, a),
        !entry_before(order, a, b) && !entry_before(order, b, a) ==> a.row == b.row && a.version
            == b.version && key_relation(order, a.key, b.key) == Relation::Equal,
{
    lemma_key_relation_flips(order, a.key, b.key);
}

/// A position that parts the entries around its two neighbours is the slot of `e`.
pub proof fn lemma_slot(order: Seq<Column>, entries: Seq<EntryModel>, e: EntryModel, p: int)
    requires
        entries_ok(order, entries),
        e.key.len() == order.len(),
        0 <= p <= entries.len(),
        p > 0 ==> entry_before(order, entries[p - 1], e) && keys_comparable(
            order,
            entries[p - 1].key,
            e.key,
        ),
        p < entries.len() ==> !entry_before(order, entries[p], e) && keys_comparable(
            order,
            entries[p].key,
            e.key,
        ),
    ensures
        forall|i: int| 0 <= i < p ==> entry_before(order, #[trigger] entries[i], e),
        forall|i: int| p <= i < entries.len() ==> !entry_before(order, #[trigger] entries[i], e),
        all_comparable(order, entries, e.key),
        slot(order, entries, e) == p,
{
    assert forall|i: int| 0 <= i < p implies entry_before(order, #[trigger] entries[i], e)
        && keys_comparable(order, entries[i].key, e.key) by {
        if i < p - 1 {
            assert(entry_before(order, entries[i], entries[p - 1]));
            assert(keys_comparable(order, entries[i].key, entries[p - 1].key));
            lemma_entry_before_transitive(order, entries[i], entries[p - 1], e);
            lemma_key_relation_transitive(order, entries[i].key, entries[p - 1].key, e.key);
        }
    }
    assert forall|i: int| p <= i < entries.len() implies !entry_before(
        order,
        #[trigger] entries[i],
        e,
    ) && keys_comparable(order, entries[i].key, e.key) by {
        lemma_entry_before_total(order, entries[p], e);
        if i > p {
            assert(entry_before(order, entries[p], entries[i]));
            assert(keys_comparable(order, entries[p].key, entries[i].key));
            lemma_entry_before_total(order, entries[p], entries[i]);
            lemma_entry_before_total(order, entries[i], e);
            lemma_key_relation_flips(order, entries[p].key, e.key);
            lemma_key_relation_flips(order, entries[i].key, e.key);
            if entry_before(order, entries[i], e) {
                lemma_entry_before_transitive(order, entries[p], entries[i], e);
            }
            lemma_key_relation_transitive(order, e.key, entries[p].key, entries[i].key);
        }
    }
    lemma_slot_is(order, entries, e, p);
}

/// The slot is the position that parts the entries that sort before `e` from the others.
pub proof fn lemma_slot_is(order: Seq<Column>, entries: Seq<EntryModel>, e: EntryModel, p: int)
    requires
        0 <= p <= entries.len(),
        forall|i: int| 0 <= i < p ==> entry_before(order, #[trigger] entries[i], e),
        forall|i: int| p <= i < entries.len() ==> !entry_before(order, #[trigger] entries[i], e),
    ensures
        slot(order, entries, e) == p,
    decreases entries.len(),
{
    if entries.len() > 0 {
        if p < entries.len() {
            assert(!entry_before(order, entries[entries.len() - 1], e));
            let shorter = entries.drop_last();
            assert forall|i: int| 0 <= i < p implies entry_before(order, #[trigger] shorter[i], e) by {
                assert(shorter[i] == entries[i]);
            }
            assert forall|i: int| p <= i < shorter.len() implies !entry_before(
                order,
                #[trigger] shorter[i],
                e,
            ) by {
                assert(shorter[i] == entries[i]);
            }
            lemma_slot_is(order, shorter, e, p);
        } else {
            assert(entry_before(order, entries[p - 1], e));
        }
    }
}

/// The slot of a comparable key parts the entries.
pub proof fn lemma_slot_parts(order: Seq<Column>, entries: Seq<EntryModel>, e: EntryModel)
    requires
        entries_ok(order, entries),
        e.key.len() == order.len(),
    ensures
        slot(order, entries, e) <= entries.len(),
        forall|i: int|
            0 <= i < slot(order, entries, e) ==> entry_before(order, #[trigger] entries[i], e),
        forall|i: int|
            slot(order, entries, e) <= i < entries.len() ==> !entry_before(
                order,
                #[trigger] entries[i],
                e,
            ),
    decreases entries.len(),
{
    if entries.len() > 0 {
        let last = entries.len() - 1;
        if entry_before(order, entries.last(), e) {
            assert forall|i: int| 0 <= i < entries.len() implies entry_before(
                order,
                #[trigger] entries[i],
                e,
            ) by {
                if i < last {
                    assert(entry_before(order, entries[i], entries[last]));
                    lemma_entry_before_transitive(order, entries[i], entries[last], e);
                }
            }
        } else {
            let shorter = entries.drop_last();
            assert(entries_ok(order, shorter)) by {
                assert forall|i: int| 0 <= i < shorter.len() implies (#[trigger] shorter[i]).key.len()
                    == order.len() by {
                    assert(shorter[i] == entries[i]);
                }
                assert forall|i: int, j: int| 0 <= i < j < shorter.len() implies #[trigger] entry_before(
                    order,
                    shorter[i],
                    shorter[j],
                ) by {
                    assert(entry_before(order, entries[i], entries[j]));
                }
                assert forall|i: int, j: int|
                    0 <= i < shorter.len() && 0 <= j < shorter.len() implies #[trigger] keys_comparable(
                    order,
                    shorter[i].key,
                    shorter[j].key,
                ) by {
                    assert(keys_comparable(order, entries[i].key, entries[j].key));
                }
            }
            lemma_slot_parts(order, shorter, e);
            assert forall|i: int| 0 <= i < slot(order, entries, e) implies entry_before(
                order,
                #[trigger] entries[i],
                e,
            ) by {
                assert(shorter[i] == entries[i]);
            }
            assert forall|i: int| slot(order, entries, e) <= i < entries.len() implies !entry_before(
                order,
                #[trigger] entries[i],
                e,
            ) by {
                if i < last {
                    assert(shorter[i] == entries[i]);
                }
            }
        }
    }
}

/// Adding an entry keeps the entries sorted, as long as its key is comparable to theirs and its
/// version is a new one.
pub proof fn lemma_with_entry_ok(order: Seq<Column>, entries: Seq<EntryModel>, e: EntryModel)
    requires
        entries_ok(order, entries),
        e.key.len() == order.len(),
        all_comparable(order, entries, e.key),
        forall|i: int| 0 <= i < entries.len() ==> !names(#[trigger] entries[i], e.row, e.version),
    ensures
        entries_ok(order, with_entry(order, entries, e)),
{
    let p = slot(order, entries, e) as int;
    let more = with_entry(order, entries, e);
    lemma_slot_parts(order, entries, e);
    assert forall|i: int| 0 <= i < more.len() implies (#[trigger] more[i]).key.len() == order.len() by {
        if i < p {
            assert(more[i] == entries[i]);
        } else if i > p {
            assert(more[i] == entries[i - 1]);
        }
    }
    assert forall|i: int, j: int| 0 <= i < j < more.len() implies #[trigger] entry_before(
        order,
        more[i],
        more[j],
    ) by {
        let x = if i <= p { i } else { i - 1 };
        let y = if j <= p { j } else { j - 1 };
        if i == p {
            lemma_entry_before_total(order, e, entries[y]);
            assert(!entry_before(order, entries[y], e));
            assert(!names(entries[y], e.row, e.version));
        } else if j == p {
            assert(entry_before(order, entries[x], e));
        } else {
            assert(entry_before(order, entries[x], entries[y]));
        }
    }
    assert forall|i: int, j: int|
        0 <= i < more.len() && 0 <= j < more.len() implies #[trigger] keys_comparable(
        order,
        more[i].key,
        more[j].key,
    ) by {
        let x = if i <= p { i } else { i - 1 };
        let y = if j <= p { j } else { j - 1 };
        if i == p && j == p {
            lemma_key_relation_flips(order, e.key, e.key);
        } else if i == p {
            lemma_key_relation_flips(order, e.key, entries[y].key);
            assert(keys_comparable(order, entries[y].key, e.key));
        } else if j == p {
            assert(keys_comparable(order, entries[x].key, e.key));
        } else {
            assert(keys_comparable(order, entries[x].key, entries[y].key));
        }
    }
}

/// Whether `p` parts the entries below `prefix` from the others.
pub open spec fn parts_below(
    order: Seq<Column>,
    entries: Seq<EntryModel>,
    prefix: Seq<ValueModel>,
    p: int,
) -> bool {
    &&& 0 <= p <= entries.len()
    &&& forall|i: int|
        0 <= i < p ==> key_relation(order, (#[trigger] entries[i]).key, prefix) == Relation::Less
    &&& forall|i: int|
        p <= i < entries.len() ==> key_relation(order, (#[trigger] entries[i]).key, prefix)
            != Relation::Less
}

/// Whether `p` parts the entries at or below `prefix` from the ones above it.
pub open spec fn parts_above(
    order: Seq<Column>,
    entries: Seq<EntryModel>,
    prefix: Seq<ValueModel>,
    p: int,
) -> bool {
    &&& 0 <= p <= entries.len()
    &&& forall|i: int|
        0 <= i < p ==> key_relation(order, (#[trigger] entries[i]).key, prefix)
            != Relation::Greater
    &&& forall|i: int|
        p <= i < entries.len() ==> key_relation(order, (#[trigger] entries[i]).key, prefix)
            == Relation::Greater
}

/// What a binary search reads of the two neighbours of `p` holds of every entry.
proof fn lemma_parts(
    order: Seq<Column>,
    entries: Seq<EntryModel>,
    prefix: Seq<ValueModel>,
    p: int,
    strict: bool,
)
    requires
        entries_ok(order, entries),
        0 <= p <= entries.len(),
        p > 0 ==> keys_comparable(order, entries[p - 1].key, prefix),
        p < entries.len() ==> keys_comparable(order, entries[p].key, prefix),
        strict ==> (p > 0 ==> key_relation(order, entries[p - 1].key, prefix) == Relation::Less)
            && (p < entries.len() ==> key_relation(order, entries[p].key, prefix)
            != Relation::Less),
        !strict ==> (p > 0 ==> key_relation(order, entries[p - 1].key, prefix)
            != Relation::Greater) && (p < entries.len() ==> key_relation(
            order,
            entries[p].key,
            prefix,
        ) == Relation::Greater),
    ensures
        all_comparable(order, entries, prefix),
        strict ==> parts_below(order, entries, prefix, p),
        !strict ==> parts_above(order, entries, prefix, p),
{
    assert forall|i: int| 0 <= i < p implies keys_comparable(order, #[trigger] entries[i].key, prefix)
        && key_relation(order, entries[i].key, prefix) != Relation::Greater && (strict
        ==> key_relation(order, entries[i].key, prefix) == Relation::Less) by {
        let m = entries[p - 1].key;
        if i < p - 1 {
            assert(entry_before(order, entries[i], entries[p - 1]));
            assert(keys_comparable(order, entries[i].key, m));
            lemma_key_relation_transitive(order, entries[i].key, m, prefix);
        }
    }
    assert forall|i: int| p <= i < entries.len() implies keys_comparable(
        order,
        #[trigger] entries[i].key,
        prefix,
    ) && key_relation(order, entries[i].key, prefix) != Relation::Less && (!strict
        ==> key_relation(order, entries[i].key, prefix) == Relation::Greater) by {
        let m = entries[p].key;
        lemma_key_relation_flips(order, m, prefix);
        lemma_key_relation_flips(order, entries[i].key, prefix);
        if i > p {
            assert(entry_before(order, entries[p], entries[i]));
            assert(keys_comparable(order, m, entries[i].key));
            lemma_key_relation_transitive(order, prefix, m, entries[i].key);
        }
    }
}

/// Whether `version` is *live* for the uniqueness test, from the point of view of the writing
/// transaction `txn`.
pub fn is_live(version: &Version, txn: Option<TxnId>, txns: &OrdMap<TxnState>) -> (r: bool)
    ensures
        r == live(version@, txn, statuses(txns@)),
{
    if status_in(txns, version.xmin) == TxnStatus::Aborted {
        return false;
    }
    match version.xmax {
        None => true,
        Some(x) => Some(x) != txn && status_in(txns, x) == TxnStatus::InProgress,
    }
}

/// The version `seq` of row `row`, if both still exist.
pub fn find_version(rows: &OrdMap<Vec<Version>>, row: RowId, seq: usize) -> (r: Option<&Version>)
    ensures
        match r {
            Some(v) => version_at(rows@, row, seq) == Some(v@),
            None => version_at(rows@, row, seq) is None,
        },
{
    let versions: &Vec<Version> = match rows.get(row.0) {
        Some(versions) => versions,
        None => {
            return None;
        },
    };
    let ghost chain = versions.deep_view();
    let mut i: usize = 0;
    assert(chain.skip(0) =~= chain);
    while i < versions.len()
        invariant
            i <= versions@.len(),
            chain == versions.deep_view(),
            rows@.contains_key(row.0),
            rows@[row.0] == chain,
            chain_find(chain.skip(i as int), seq) == chain_find(chain, seq),
        decreases versions@.len() - i,
    {
        assert(chain.skip(i as int)[0] == versions@[i as int]@);
        assert(chain.skip(i as int).drop_first() =~= chain.skip(i + 1));
        if versions[i].seq == seq {
            return Some(&versions[i]);
        }
        i = i + 1;
    }
    None
}

/// What one probe of a binary search answers: whether the probed key is on the wanted side, or
/// the error of two keys that are not comparable.
pub open spec fn probed(
    order: Seq<Column>,
    key: Seq<ValueModel>,
    target: Seq<ValueModel>,
    wanted: bool,
    r: SqlResult<bool>,
) -> bool {
    match r {
        Ok(b) => keys_comparable(order, key, target) && b == wanted,
        Err(e) => !keys_comparable(order, key, target) && e == SqlError::IncomparableValues,
    }
}

impl Index {
    /// An empty index of the given shape on `table`.
    pub fn new(table: TableId, shape: IndexShape, order: KeyOrder) -> (r: Self)
        ensures
            r@ == (IndexModel { table, shape: shape@, order: order@, entries: Seq::empty() }),
    {
        let r = Index { table, shape, order, entries: Vec::new() };
        assert(r@.entries =~= Seq::empty());
        r
    }

    /// The first position whose key is not below `prefix`.
    pub fn lower_bound(&self, prefix: &Vec<Value>) -> (r: SqlResult<usize>)
        requires
            entries_ok(self@.order, self@.entries),
        ensures
            match r {
                Ok(p) => all_comparable(self@.order, self@.entries, prefix.deep_view())
                    && parts_below(self@.order, self@.entries, prefix.deep_view(), p as int),
                Err(e) => !all_comparable(self@.order, self@.entries, prefix.deep_view()) && e
                    == SqlError::IncomparableValues,
            },
    {
        let order: &KeyOrder = &self.order;
        let r = partition_point(
            &self.entries,
            |e: &IndexEntry| -> (r: SqlResult<bool>)
                ensures
                    probed(
                        order@,
                        e@.key,
                        prefix.deep_view(),
                        key_relation(order@, e@.key, prefix.deep_view()) == Relation::Less,
                        r,
                    )
                {
                    match order.compare_prefix(&e.key, prefix) {
                        Ok(relation) => Ok(relation == Relation::Less),
                        Err(x) => Err(x),
                    }
                },
        );
        proof {
            match r {
                Ok(p) => {
                    if p > 0 {
                        assert(self@.entries[p - 1] == self.entries@[p - 1]@);
                    }
                    if p < self.entries@.len() {
                        assert(self@.entries[p as int] == self.entries@[p as int]@);
                    }
                    lemma_parts(self@.order, self@.entries, prefix.deep_view(), p as int, true);
                },
                Err(_) => {
                    let i = choose|i: int|
                        0 <= i < self.entries@.len() && !keys_comparable(
                            order@,
                            (#[trigger] self.entries@[i])@.key,
                            prefix.deep_view(),
                        );
                    assert(self@.entries[i] == self.entries@[i]@);
                },
            }
        }
        r
    }

    /// The first position whose key is above `prefix`.
    pub fn upper_bound(&self, prefix: &Vec<Value>) -> (r: SqlResult<usize>)
        requires
            entries_ok(self@.order, self@.entries),
        ensures
            match r {
                Ok(p) => all_comparable(self@.order, self@.entries, prefix.deep_view())
                    && parts_above(self@.order, self@.entries, prefix.deep_view(), p as int),
                Err(e) => !all_comparable(self@.order, self@.entries, prefix.deep_view()) && e
                    == SqlError::IncomparableValues,
            },
    {
        let order: &KeyOrder = &self.order;
        let r = partition_point(
            &self.entries,
            |e: &IndexEntry| -> (r: SqlResult<bool>)
                ensures
                    probed(
                        order@,
                        e@.key,
                        prefix.deep_view(),
                        key_relation(order@, e@.key, prefix.deep_view()) != Relation::Greater,
                        r,
                    )
                {
                    match order.compare_prefix(&e.key, prefix) {
                        Ok(relation) => Ok(relation != Relation::Greater),
                        Err(x) => Err(x),
                    }
                },
        );
        proof {
            match r {
                Ok(p) => {
                    if p > 0 {
                        assert(self@.entries[p - 1] == self.entries@[p - 1]@);
                    }
                    if p < self.entries@.len() {
                        assert(self@.entries[p as int] == self.entries@[p as int]@);
                    }
                    lemma_parts(self@.order, self@.entries, prefix.deep_view(), p as int, false);
                },
                Err(_) => {
                    let i = choose|i: int|
                        0 <= i < self.entries@.len() && !keys_comparable(
                            order@,
                            (#[trigger] self.entries@[i])@.key,
                            prefix.deep_view(),
                        );
                    assert(self@.entries[i] == self.entries@[i]@);
                },
            }
        }
        r
    }

    /// The position where an entry `(key, row, version)` belongs: after every entry that sorts
    /// before it, before every entry that sorts after it or is equal to it.
    pub fn position_for(&self, key: &Vec<Value>, row: RowId, version: usize) -> (r: SqlResult<usize>)
        requires
            entries_ok(self@.order, self@.entries),
            key@.len() == self@.order.len(),
        ensures
            match r {
                Ok(p) => {
                    let e = EntryModel { key: key.deep_view(), row, version };
                    &&& all_comparable(self@.order, self@.entries, key.deep_view())
                    &&& p == slot(self@.order, self@.entries, e)
                    &&& p <= self@.entries.len()
                    &&& forall|i: int|
                        0 <= i < p ==> entry_before(self@.order, #[trigger] self@.entries[i], e)
                    &&& forall|i: int|
                        p <= i < self@.entries.len() ==> !entry_before(
                            self@.order,
                            #[trigger] self@.entries[i],
                            e,
                        )
                },
                Err(e) => !all_comparable(self@.order, self@.entries, key.deep_view()) && e
                    == SqlError::IncomparableValues,
            },
    {
        let order: &KeyOrder = &self.order;
        let ghost target = EntryModel { key: key.deep_view(), row, version };
        let r = partition_point(
            &self.entries,
            |e: &IndexEntry| -> (r: SqlResult<bool>)
                ensures
                    probed(
                        order@,
                        e@.key,
                        key.deep_view(),
                        entry_before(order@, e@, (EntryModel { key: key.deep_view(), row, version })),
                        r,
                    )
                {
                    match order.compare_prefix(&e.key, key) {
                        Ok(Relation::Less) => Ok(true),
                        Ok(Relation::Equal) => Ok(
                            e.row.0 < row.0 || (e.row == row && e.version < version),
                        ),
                        Ok(Relation::Greater) => Ok(false),
                        Err(x) => Err(x),
                    }
                },
        );
        proof {
            match r {
                Ok(p) => {
                    if p > 0 {
                        assert(self@.entries[p - 1] == self.entries@[p - 1]@);
                    }
                    if p < self.entries@.len() {
                        assert(self@.entries[p as int] == self.entries@[p as int]@);
                    }
                    lemma_slot(self@.order, self@.entries, target, p as int);
                },
                Err(_) => {
                    let i = choose|i: int|
                        0 <= i < self.entries@.len() && !keys_comparable(
                            order@,
                            (#[trigger] self.entries@[i])@.key,
                            key.deep_view(),
                        );
                    assert(self@.entries[i] == self.entries@[i]@);
                },
            }
        }
        r
    }

    /// Adds the entry of a new version at the position `p` it belongs to.
    pub fn insert_at(&mut self, p: usize, entry: IndexEntry)
        requires
            p <= old(self)@.entries.len(),
        ensures
            final(self)@ == (IndexModel {
                entries: old(self)@.entries.insert(p as int, entry@),
                ..old(self)@
            }),
    {
        let ghost before = self@.entries;
        self.entries.insert(p, entry);
        assert(self@.entries =~= before.insert(p as int, entry@));
    }

    /// Removes the entry of `version` of row `row`, if the index has one. A version the index
    /// never held, be it one whose key is not comparable to its entries, is ignored silently.
    pub fn remove_version(&mut self, row: RowId, version: &Version)
        requires
            entries_ok(old(self)@.order, old(self)@.entries),
            fits(old(self)@.order, version@.data.len()),
        ensures
            final(self)@ == (IndexModel {
                entries: without_key(
                    old(self)@.order,
                    old(self)@.entries,
                    key_in(old(self)@.order, version@.data),
                    row,
                    version@.seq,
                ),
                ..old(self)@
            }),
    {
        let ghost m = self@;
        let ghost target = EntryModel { key: key_in(m.order, version@.data), row, version: version@.seq };
        let ghost keep = |e: EntryModel|
            !(names(e, row, version@.seq) && key_relation(m.order, e.key, target.key)
                == Relation::Equal);
        let key: Vec<Value> = match self.order.extract(&version.data) {
            Ok(key) => key,
            Err(_) => {
                return;
            },
        };
        assert(key.deep_view().len() == key@.len());
        let pos: usize = match self.position_for(&key, row, version.seq) {
            Ok(pos) => pos,
            Err(_) => {
                proof {
                    // An entry of the version would be comparable to all others, and so would
                    // its key.
                    assert forall|i: int| 0 <= i < m.entries.len() implies keep(#[trigger] m.entries[i]) by {
                        if !keep(m.entries[i]) {
                            assert forall|j: int| 0 <= j < m.entries.len() implies keys_comparable(
                                m.order,
                                #[trigger] m.entries[j].key,
                                target.key,
                            ) by {
                                lemma_equal_comparable(
                                    m.order,
                                    m.entries[j].key,
                                    m.entries[i].key,
                                    target.key,
                                );
                            }
                        }
                    }
                    lemma_filter_all(m.entries, keep);
                }
                return;
            },
        };
        proof {
            // An entry of that version and that key is neither before nor after the target, so
            // it sits at the position of the target.
            assert forall|i: int| 0 <= i < m.entries.len() && i != pos implies keep(
                #[trigger] m.entries[i],
            ) by {
                lemma_entry_before_total(m.order, m.entries[i], target);
                if i > pos && !keep(m.entries[i]) {
                    lemma_entry_before_total(m.order, m.entries[pos as int], target);
                    assert(entry_before(m.order, m.entries[pos as int], m.entries[i]));
                    lemma_key_relation_flips(m.order, m.entries[i].key, target.key);
                    lemma_key_relation_flips(m.order, m.entries[pos as int].key, target.key);
                    lemma_key_relation_flips(m.order, m.entries[pos as int].key, m.entries[i].key);
                    lemma_key_relation_transitive(
                        m.order,
                        m.entries[pos as int].key,
                        m.entries[i].key,
                        target.key,
                    );
                }
            }
        }
        let found: bool = if pos < self.entries.len() {
            let e: &IndexEntry = &self.entries[pos];
            assert(e@ == m.entries[pos as int]);
            e.row == row && e.version == version.seq && matches!(
                self.order.compare_prefix(&e.key, &key),
                Ok(Relation::Equal)
            )
        } else {
            false
        };
        if found {
            let _gone = self.entries.remove(pos);
            assert(self@.entries =~= m.entries.remove(pos as int));
            proof {
                lemma_filter_one(m.entries, keep, pos as int);
            }
        } else {
            proof {
                lemma_filter_all(m.entries, keep);
            }
        }
    }

    /// Removes the entries of the versions `removed`, each with its row.
    pub fn remove_versions(&mut self, removed: &Vec<(RowId, Version)>)
        requires
            entries_ok(old(self)@.order, old(self)@.entries),
            forall|i: int|
                0 <= i < removed@.len() ==> fits(
                    old(self)@.order,
                    (#[trigger] removed@[i]).1@.data.len(),
                ),
            keys_agree(old(self)@, removed_versions(removed@)),
        ensures
            final(self)@ == (IndexModel {
                entries: entries_without(
                    old(self)@.entries,
                    names_of(removed_versions(removed@)),
                ),
                ..old(self)@
            }),
    {
        let ghost m = self@;
        let ghost gone = removed_versions(removed@);
        proof {
            let none = names_of(gone.take(0));
            lemma_filter_all(m.entries, |e: EntryModel| !none.contains((e.row, e.version)));
        }
        for n in 0..removed.len()
            invariant
                entries_ok(m.order, m.entries),
                gone == removed_versions(removed@),
                forall|i: int|
                    0 <= i < removed@.len() ==> fits(
                        m.order,
                        (#[trigger] removed@[i]).1@.data.len(),
                    ),
                keys_agree(m, gone),
                self@ == (IndexModel {
                    entries: entries_without(m.entries, names_of(gone.take(n as int))),
                    ..m
                }),
        {
            let ghost now = self@;
            let ghost before = names_of(gone.take(n as int));
            proof {
                lemma_entries_without_ok(m.order, m.entries, before);
            }
            let row: RowId = removed[n].0;
            let version: &Version = &removed[n].1;
            assert(gone[n as int] == (row, version@));
            assert(fits(m.order, removed@[n as int].1@.data.len()));
            self.remove_version(row, version);
            proof {
                let key = key_in(m.order, version@.data);
                let seq = version@.seq;
                let p = |e: EntryModel| !before.contains((e.row, e.version));
                let q = |e: EntryModel| !names(e, row, seq);
                let by_key = |e: EntryModel|
                    !(names(e, row, seq) && key_relation(m.order, e.key, key) == Relation::Equal);
                let after = names_of(gone.take(n + 1));
                let both = |e: EntryModel| !after.contains((e.row, e.version));
                lemma_filter_elements(m.entries, p);
                assert forall|i: int| 0 <= i < now.entries.len() implies by_key(
                    #[trigger] now.entries[i],
                ) == q(now.entries[i]) by {
                    let e = now.entries[i];
                    assert(now.entries.contains(e));
                    if names(e, row, seq) {
                        let x = m.entries.index_of(e);
                        assert(names(m.entries[x], gone[n as int].0, gone[n as int].1.seq));
                        assert(e.key == key);
                        lemma_key_relation_flips(m.order, key, key);
                    }
                }
                lemma_filter_agree(now.entries, by_key, q);
                assert forall|e: EntryModel| #[trigger] both(e) <==> p(e) && q(e) by {
                    assert(gone.take(n + 1) =~= gone.take(n as int).push(gone[n as int]));
                    let pair = (e.row, e.version);
                    if before.contains(pair) {
                        let i = choose|i: int|
                            0 <= i < gone.take(n as int).len() && (#[trigger] gone.take(n as int)[i]).0
                                == pair.0 && gone.take(n as int)[i].1.seq == pair.1;
                        assert(gone.take(n + 1)[i].0 == pair.0 && gone.take(n + 1)[i].1.seq == pair.1);
                    }
                    if names(e, row, seq) {
                        assert(gone.take(n + 1)[n as int].0 == pair.0 && gone.take(n + 1)[n as int].1.seq
                            == pair.1);
                    }
                    if after.contains(pair) {
                        let i = choose|i: int|
                            0 <= i < gone.take(n + 1).len() && (#[trigger] gone.take(n + 1)[i]).0
                                == pair.0 && gone.take(n + 1)[i].1.seq == pair.1;
                        if i < n {
                            assert(gone.take(n as int)[i].0 == pair.0 && gone.take(n as int)[i].1.seq
                                == pair.1);
                        }
                    }
                }
                lemma_filter_filter(m.entries, p, q, both);
            }
        }
        assert(gone.take(gone.len() as int) =~= gone);
    }

    /// The positions of the entries selected by `range`, first and past the last, after
    /// checking every key the range holds.
    ///
    /// # Errors
    ///
    /// A bug for a key that is too long or of the wrong variant, the error of the comparison
    /// for a key that is not comparable to the entries.
    pub fn positions(&self, range: &KeyRange) -> (r: SqlResult<(usize, usize)>)
        requires
            entries_ok(self@.order, self@.entries),
        ensures
            match r {
                Ok((start, end)) => {
                    &&& range_ok(self@.order, range@)
                    &&& range_comparable(self@.order, self@.entries, range@)
                    &&& start <= end <= self@.entries.len()
                    &&& forall|i: int|
                        0 <= i < self@.entries.len() ==> (start <= i < end <==> in_range(
                            self@.order,
                            (#[trigger] self@.entries[i]).key,
                            range@,
                        ))
                },
                Err(e) => if range_ok(self@.order, range@) {
                    !range_comparable(self@.order, self@.entries, range@) && e
                        == SqlError::IncomparableValues
                } else {
                    range_error(self@.order, range@, e)
                },
            },
    {
        match range {
            KeyRange::Full => Ok((0, self.entries.len())),
            KeyRange::Point(k) => {
                match self.order.check_prefix(k) {
                    Ok(_) => {},
                    Err(e) => {
                        return Err(e);
                    },
                }
                let start: usize = match self.lower_bound(k) {
                    Ok(p) => p,
                    Err(e) => {
                        return Err(e);
                    },
                };
                let end: usize = match self.upper_bound(k) {
                    Ok(p) => p,
                    Err(e) => {
                        return Err(e);
                    },
                };
                proof {
                    if end < start {
                        assert(key_relation(
                            self@.order,
                            self@.entries[end as int].key,
                            k.deep_view(),
                        ) == Relation::Less);
                    }
                }
                Ok((start, end))
            },
            KeyRange::Between(lo, hi) => {
                match self.check_bound(lo) {
                    Ok(_) => {},
                    Err(e) => {
                        return Err(e);
                    },
                }
                match self.check_bound(hi) {
                    Ok(_) => {},
                    Err(e) => {
                        return Err(e);
                    },
                }
                let start: usize = match lo {
                    Bound::Unbounded => 0,
                    Bound::Included(p) => match self.lower_bound(p) {
                        Ok(p) => p,
                        Err(e) => {
                            return Err(e);
                        },
                    },
                    Bound::Excluded(p) => match self.upper_bound(p) {
                        Ok(p) => p,
                        Err(e) => {
                            return Err(e);
                        },
                    },
                };
                assert(forall|i: int|
                    0 <= i < self@.entries.len() ==> (start <= i <==> above(
                        self@.order,
                        (#[trigger] self@.entries[i]).key,
                        lo@,
                    )));
                let end: usize = match hi {
                    Bound::Unbounded => self.entries.len(),
                    Bound::Included(p) => match self.upper_bound(p) {
                        Ok(p) => p,
                        Err(e) => {
                            return Err(e);
                        },
                    },
                    Bound::Excluded(p) => match self.lower_bound(p) {
                        Ok(p) => p,
                        Err(e) => {
                            return Err(e);
                        },
                    },
                };
                assert(forall|i: int|
                    0 <= i < self@.entries.len() ==> (i < end <==> below(
                        self@.order,
                        (#[trigger] self@.entries[i]).key,
                        hi@,
                    )));
                Ok((start, if end < start { start } else { end }))
            },
        }
    }

    /// Checks the prefix of a bound.
    fn check_bound(&self, bound: &Bound) -> (r: SqlResult<()>)
        ensures
            match r {
                Ok(_) => bound_ok(self@.order, bound@),
                Err(e) => !bound_ok(self@.order, bound@) && bound_error(self@.order, bound@, e),
            },
    {
        match bound {
            Bound::Unbounded => Ok(()),
            Bound::Included(p) => self.order.check_prefix(p),
            Bound::Excluded(p) => self.order.check_prefix(p),
        }
    }

    /// Whether a live version other than those of `skip` already holds `key`. `skip` is the row
    /// an update is replacing: its versions are not live for the writer.
    pub fn has_live_duplicate(
        &self,
        key: &Vec<Value>,
        rows: &OrdMap<Vec<Version>>,
        txn: Option<TxnId>,
        txns: &OrdMap<TxnState>,
        skip: Option<RowId>,
    ) -> (r: SqlResult<bool>)
        requires
            entries_ok(self@.order, self@.entries),
            points_into(rows@, self@.entries),
        ensures
            match r {
                Ok(b) => {
                    &&& all_comparable(self@.order, self@.entries, key.deep_view())
                    &&& b == live_duplicate(
                        self@.order,
                        self@.entries,
                        key.deep_view(),
                        rows@,
                        txn,
                        statuses(txns@),
                        skip,
                    )
                },
                Err(e) => !all_comparable(self@.order, self@.entries, key.deep_view()) && e
                    == SqlError::IncomparableValues,
            },
    {
        let start: usize = match self.lower_bound(key) {
            Ok(p) => p,
            Err(e) => {
                return Err(e);
            },
        };
        let end: usize = match self.upper_bound(key) {
            Ok(p) => p,
            Err(e) => {
                return Err(e);
            },
        };
        let ghost st = statuses(txns@);
        let ghost target = key.deep_view();
        let mut i: usize = start;
        while i < end
            invariant
                start <= i,
                end <= self@.entries.len(),
                st == statuses(txns@),
                target == key.deep_view(),
                points_into(rows@, self@.entries),
                all_comparable(self@.order, self@.entries, target),
                parts_below(self@.order, self@.entries, target, start as int),
                parts_above(self@.order, self@.entries, target, end as int),
                forall|j: int|
                    start <= j < i && j < end ==> !(Some((#[trigger] self@.entries[j]).row) != skip
                        && live_entry(rows@, self@.entries[j], txn, st)),
            decreases end - i,
        {
            let entry: &IndexEntry = &self.entries[i];
            assert(entry@ == self@.entries[i as int]);
            if Some(entry.row) != skip {
                assert(version_at(rows@, self@.entries[i as int].row, self@.entries[i as int].version)
                    is Some);
                if let Some(version) = find_version(rows, entry.row, entry.version) {
                    if is_live(version, txn, txns) {
                        assert(key_relation(self@.order, self@.entries[i as int].key, target)
                            == Relation::Equal);
                        return Ok(true);
                    }
                }
            }
            i = i + 1;
        }
        Ok(false)
    }

    /// The first key held by live versions of two distinct rows, `None` if there is none.
    pub fn first_duplicate_key(&self, rows: &OrdMap<Vec<Version>>, txns: &OrdMap<TxnState>) -> (r:
        SqlResult<Option<Vec<Value>>>)
        requires
            entries_ok(self@.order, self@.entries),
            points_into(rows@, self@.entries),
        ensures
            match r {
                Ok(None) => forall|g: int|
                    0 <= g < self@.entries.len() ==> !#[trigger] duplicated_at(
                        self@.order,
                        self@.entries,
                        rows@,
                        statuses(txns@),
                        g,
                    ),
                Ok(Some(key)) => exists|g: int|
                    0 <= g < self@.entries.len() && #[trigger] duplicated_at(
                        self@.order,
                        self@.entries,
                        rows@,
                        statuses(txns@),
                        g,
                    ) && key.deep_view() == self@.entries[g].key && forall|h: int|
                        0 <= h < g ==> !#[trigger] duplicated_at(
                            self@.order,
                            self@.entries,
                            rows@,
                            statuses(txns@),
                            h,
                        ),
                Err(_) => false,
            },
    {
        let ghost st = statuses(txns@);
        let ghost order = self@.order;
        let ghost entries = self@.entries;
        // Entries are sorted by key: a group of equal keys is contiguous.
        let mut group_start: usize = 0;
        while group_start < self.entries.len()
            invariant
                order == self@.order,
                entries == self@.entries,
                st == statuses(txns@),
                entries_ok(order, entries),
                points_into(rows@, entries),
                group_start <= entries.len(),
                forall|i: int, j: int|
                    0 <= i < group_start <= j < entries.len() ==> #[trigger] key_relation(
                        order,
                        entries[i].key,
                        entries[j].key,
                    ) == Relation::Less,
                forall|g: int|
                    0 <= g < group_start ==> !#[trigger] duplicated_at(order, entries, rows@, st, g),
            decreases entries.len() - group_start,
        {
            let first: &IndexEntry = &self.entries[group_start];
            let ghost key = entries[group_start as int].key;
            assert(first@ == entries[group_start as int]);
            let upper: usize = match self.upper_bound(&first.key) {
                Ok(p) => p,
                Err(e) => {
                    proof {
                        assert(all_comparable(order, entries, key)) by {
                            assert forall|i: int| 0 <= i < entries.len() implies keys_comparable(
                                order,
                                #[trigger] entries[i].key,
                                key,
                            ) by {
                                assert(keys_comparable(
                                    order,
                                    entries[i].key,
                                    entries[group_start as int].key,
                                ));
                            }
                        }
                    }
                    return Err(e);
                },
            };
            proof {
                lemma_key_relation_flips(order, key, key);
                assert(upper > group_start) by {
                    if upper <= group_start {
                        assert(key_relation(order, entries[group_start as int].key, key)
                            == Relation::Greater);
                    }
                }
                // The group is the entries between the two positions.
                assert forall|i: int| 0 <= i < entries.len() implies (group_start <= i < upper <==> #[trigger] key_relation(
                    order,
                    entries[i].key,
                    key,
                ) == Relation::Equal) by {
                    if i < group_start {
                        assert(key_relation(order, entries[i].key, entries[group_start as int].key)
                            == Relation::Less);
                    } else if i < upper {
                        if i > group_start {
                            assert(entry_before(order, entries[group_start as int], entries[i]));
                            lemma_key_relation_flips(order, entries[i].key, key);
                        }
                    }
                }
            }
            let mut live_row: Option<RowId> = None;
            let mut i: usize = group_start;
            while i < upper
                invariant
                    order == self@.order,
                    entries == self@.entries,
                    st == statuses(txns@),
                    points_into(rows@, entries),
                    group_start <= i,
                    group_start < upper <= entries.len(),
                    first@ == entries[group_start as int],
                    key == entries[group_start as int].key,
                    forall|j: int| 0 <= j < entries.len() ==> (group_start <= j < upper <==> #[trigger] key_relation(
                        order,
                        entries[j].key,
                        key,
                    ) == Relation::Equal),
                    forall|g: int|
                        0 <= g < group_start ==> !#[trigger] duplicated_at(
                            order,
                            entries,
                            rows@,
                            st,
                            g,
                        ),
                    match live_row {
                        None => forall|j: int|
                            group_start <= j < i && j < upper ==> !live_entry(
                                rows@,
                                #[trigger] entries[j],
                                None,
                                st,
                            ),
                        Some(row) => {
                            &&& exists|j: int|
                                group_start <= j < i && j < upper && (#[trigger] entries[j]).row
                                    == row && live_entry(rows@, entries[j], None, st)
                            &&& forall|j: int|
                                group_start <= j < i && j < upper && live_entry(
                                    rows@,
                                    #[trigger] entries[j],
                                    None,
                                    st,
                                ) ==> entries[j].row == row
                        },
                    },
                decreases upper - i,
            {
                let entry: &IndexEntry = &self.entries[i];
                assert(entry@ == entries[i as int]);
                assert(version_at(rows@, entries[i as int].row, entries[i as int].version) is Some);
                if let Some(version) = find_version(rows, entry.row, entry.version) {
                    if is_live(version, None, txns) {
                        assert(live_entry(rows@, entries[i as int], None, st));
                        if let Some(row) = live_row {
                            if row != entry.row {
                                proof {
                                    let j = choose|j: int|
                                        group_start <= j < i && j < upper && (#[trigger] entries[j]).row
                                            == row && live_entry(rows@, entries[j], None, st);
                                    assert(key_relation(order, entries[j].key, key)
                                        == Relation::Equal);
                                    assert(key_relation(order, entries[i as int].key, key)
                                        == Relation::Equal);
                                    assert(duplicated_at(order, entries, rows@, st, group_start as int));
                                }
                                return Ok(Some(duplicate_values(&first.key)));
                            }
                        }
                        live_row = Some(entry.row);
                    }
                }
                i = i + 1;
            }
            proof {
                assert forall|g: int| 0 <= g < upper implies !#[trigger] duplicated_at(
                    order,
                    entries,
                    rows@,
                    st,
                    g,
                ) by {
                    if g >= group_start && duplicated_at(order, entries, rows@, st, g) {
                        let (a, b) = choose|a: int, b: int|
                            0 <= a < entries.len() && 0 <= b < entries.len() && (
                            #[trigger] entries[a]).row != (#[trigger] entries[b]).row
                                && key_relation(order, entries[a].key, entries[g].key)
                                == Relation::Equal && key_relation(
                                order,
                                entries[b].key,
                                entries[g].key,
                            ) == Relation::Equal && live_entry(rows@, entries[a], None, st)
                                && live_entry(rows@, entries[b], None, st);
                        assert(key_relation(order, entries[g].key, key) == Relation::Equal);
                        lemma_equal_transitive(order, entries[a].key, entries[g].key, key);
                        lemma_equal_transitive(order, entries[b].key, entries[g].key, key);
                    }
                }
                assert forall|a: int, b: int|
                    0 <= a < upper <= b < entries.len() implies #[trigger] key_relation(
                    order,
                    entries[a].key,
                    entries[b].key,
                ) == Relation::Less by {
                    assert(key_relation(order, entries[b].key, key) == Relation::Greater);
                    assert(key_relation(order, entries[a].key, key) != Relation::Greater);
                    lemma_key_relation_flips(order, entries[b].key, key);
                    lemma_key_relation_transitive(order, entries[a].key, key, entries[b].key);
                }
            }
            group_start = upper;
        }
        Ok(None)
    }
}

/// Equality of keys is transitive through a whole key.
pub proof fn lemma_equal_transitive(
    order: Seq<Column>,
    a: Seq<ValueModel>,
    m: Seq<ValueModel>,
    c: Seq<ValueModel>,
)
    requires
        m.len() >= order.len(),
        key_relation(order, a, m) == Relation::Equal,
        key_relation(order, m, c) == Relation::Equal,
    ensures
        key_relation(order, a, c) == Relation::Equal,
{
    lemma_key_relation_transitive(order, a, m, c);
    lemma_key_relation_flips(order, a, m);
    lemma_key_relation_flips(order, m, c);
    lemma_key_relation_flips(order, a, c);
    lemma_key_relation_transitive(order, c, m, a);
}

/// The entries without the one of version `version` of `row` under `key`, if there is one.
pub open spec fn without_key(
    order: Seq<Column>,
    entries: Seq<EntryModel>,
    key: Seq<ValueModel>,
    row: RowId,
    version: usize,
) -> Seq<EntryModel> {
    entries.filter(
        |e: EntryModel|
            !(names(e, row, version) && key_relation(order, e.key, key) == Relation::Equal),
    )
}

/// A key equal to a whole key is comparable to whatever that key is comparable to.
pub proof fn lemma_equal_comparable(
    order: Seq<Column>,
    a: Seq<ValueModel>,
    m: Seq<ValueModel>,
    c: Seq<ValueModel>,
)
    requires
        m.len() >= order.len(),
        key_relation(order, m, c) == Relation::Equal,
        keys_comparable(order, a, m),
    ensures
        keys_comparable(order, a, c),
{
    lemma_equal_is_comparable(order, m, c);
    lemma_key_relation_flips(order, a, m);
    lemma_key_relation_flips(order, m, c);
    lemma_key_relation_flips(order, a, c);
    if key_relation(order, a, m) == Relation::Greater {
        lemma_key_relation_transitive(order, c, m, a);
    } else {
        lemma_key_relation_transitive(order, a, m, c);
    }
}

/// The versions of a list, as index entries name them.
pub open spec fn names_of(removed: Seq<(RowId, VersionModel)>) -> Set<(RowId, usize)> {
    Set::new(
        |p: (RowId, usize)|
            exists|i: int|
                0 <= i < removed.len() && (#[trigger] removed[i]).0 == p.0 && removed[i].1.seq
                    == p.1,
    )
}

/// Whether an entry that names one of the versions `removed` carries its key.
pub open spec fn keys_agree(ix: IndexModel, removed: Seq<(RowId, VersionModel)>) -> bool {
    forall|i: int, j: int|
        0 <= i < ix.entries.len() && 0 <= j < removed.len() && #[trigger] names(
            ix.entries[i],
            removed[j].0,
            removed[j].1.seq,
        ) ==> ix.entries[i].key == key_in(ix.order, removed[j].1.data)
}

/// The entries whose version is not in `gone`.
pub open spec fn entries_without(entries: Seq<EntryModel>, gone: Set<(RowId, usize)>) -> Seq<
    EntryModel,
> {
    entries.filter(|e: EntryModel| !gone.contains((e.row, e.version)))
}

/// Filtering keeps the entries of an index sorted and comparable.
pub proof fn lemma_entries_without_ok(
    order: Seq<Column>,
    entries: Seq<EntryModel>,
    gone: Set<(RowId, usize)>,
)
    requires
        entries_ok(order, entries),
    ensures
        entries_ok(order, entries_without(entries, gone)),
{
    let pred = |e: EntryModel| !gone.contains((e.row, e.version));
    let rel = |a: EntryModel, b: EntryModel| entry_before(order, a, b);
    let less = entries.filter(pred);
    lemma_filter_elements(entries, pred);
    assert forall|i: int, j: int| 0 <= i < j < entries.len() implies #[trigger] rel(
        entries[i],
        entries[j],
    ) by {
        assert(entry_before(order, entries[i], entries[j]));
    }
    lemma_filter_pairwise(entries, pred, rel);
    assert forall|i: int| 0 <= i < less.len() implies (#[trigger] less[i]).key.len() == order.len() by {
        assert(less.contains(less[i]));
        let k = entries.index_of(less[i]);
        assert(entries[k].key.len() == order.len());
    }
    assert forall|i: int, j: int| 0 <= i < j < less.len() implies #[trigger] entry_before(
        order,
        less[i],
        less[j],
    ) by {
        assert(rel(less[i], less[j]));
    }
    assert forall|i: int, j: int|
        0 <= i < less.len() && 0 <= j < less.len() implies #[trigger] keys_comparable(
        order,
        less[i].key,
        less[j].key,
    ) by {
        assert(less.contains(less[i]) && less.contains(less[j]));
        let a = entries.index_of(less[i]);
        let b = entries.index_of(less[j]);
        assert(keys_comparable(order, entries[a].key, entries[b].key));
    }
}

} // verus!
