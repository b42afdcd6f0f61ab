//! An index serves what a scan gives: the rows whose key is in the range, each once, by key, then by
//! row identifier.

use vstd::prelude::*;

use super::heap_reads::{rows_at, seen_keys};
use super::lists::{in_scan_order, seeks, selected, sorts};
use super::table_model::HeapTableModel;
use crate::ids::RowId;
use crate::key_range::{Direction, KeyRangeModel};
use crate::memory::index::in_range;
use crate::memory::key_order::{key_in, lemma_key_relation_flips, Column};
use crate::memory::read::row_before;
use crate::seqs::{lemma_filter_elements, lemma_filter_pairwise};
use crate::shape::TableShapeModel;
use crate::snapshot::{Snapshot, TxnStatus};
use crate::value::ValueModel;

verus! {

/// Two lists of the versions a snapshot sees name the same rows.
proof fn lemma_same_rows_seen(
    t: HeapTableModel,
    snap: Snapshot,
    st: Map<u64, TxnStatus>,
    a: Seq<(u64, u64)>,
    b: Seq<(u64, u64)>,
    x: (RowId, Seq<ValueModel>),
)
    requires
        seen_keys(t, snap, st, a),
        seen_keys(t, snap, st, b),
        rows_at(t, a).contains(x),
    ensures
        rows_at(t, b).contains(x),
{
    let i = choose|i: int| 0 <= i < rows_at(t, a).len() && rows_at(t, a)[i] == x;
    assert(a.contains(a[i]));
    assert(b.contains(a[i]));
    let j = choose|j: int| 0 <= j < b.len() && b[j] == a[i];
    assert(rows_at(t, b)[j] == x);
}

/// Two versions of the list are about different rows.
proof fn lemma_rows_differ(
    t: HeapTableModel,
    snap: Snapshot,
    st: Map<u64, TxnStatus>,
    keys: Seq<(u64, u64)>,
    x: (RowId, Seq<ValueModel>),
    y: (RowId, Seq<ValueModel>),
)
    requires
        seen_keys(t, snap, st, keys),
        rows_at(t, keys).contains(x),
        rows_at(t, keys).contains(y),
        x.0 == y.0,
    ensures
        x == y,
{
    let rows = rows_at(t, keys);
    let i = choose|i: int| 0 <= i < rows.len() && rows[i] == x;
    let j = choose|j: int| 0 <= j < rows.len() && rows[j] == y;
    if i < j {
        assert(keys[i].0 < keys[j].0);
    } else if j < i {
        assert(keys[j].0 < keys[i].0);
    }
}

/// A row is not before itself, nor before a row that is before it.
proof fn lemma_one_way(
    order: Seq<Column>,
    a: (RowId, Seq<ValueModel>),
    b: (RowId, Seq<ValueModel>),
)
    requires
        row_before(order, a, b),
    ensures
        !row_before(order, b, a),
        a != b,
{
    lemma_key_relation_flips(order, key_in(order, a.1), key_in(order, b.1));
}

/// There is one way to put rows in order.
proof fn lemma_one_order(
    order: Seq<Column>,
    a: Seq<(RowId, Seq<ValueModel>)>,
    b: Seq<(RowId, Seq<ValueModel>)>,
)
    requires
        a.len() == b.len(),
        forall|x: (RowId, Seq<ValueModel>)| #[trigger] a.contains(x) <==> b.contains(x),
        forall|i: int, j: int|
            0 <= i < j < a.len() ==> row_before(order, #[trigger] a[i], #[trigger] a[j]),
        forall|i: int, j: int|
            0 <= i < j < b.len() ==> row_before(order, #[trigger] b[i], #[trigger] b[j]),
    ensures
        a == b,
    decreases a.len(),
{
    if a.len() == 0 {
        assert(a =~= b);
    } else {
        let x = a.last();
        let y = b.last();
        assert(a.contains(x) && b.contains(y));
        assert(a.contains(y) && b.contains(x));
        let i = choose|i: int| 0 <= i < b.len() && b[i] == x;
        let j = choose|j: int| 0 <= j < a.len() && a[j] == y;
        if x != y {
            assert(row_before(order, b[i], b[b.len() - 1]));
            assert(row_before(order, a[j], a[a.len() - 1]));
            lemma_one_way(order, x, y);
        }
        let p = a.drop_last();
        let q = b.drop_last();
        assert forall|z: (RowId, Seq<ValueModel>)| #[trigger] p.contains(z) <==> q.contains(z) by {
            if p.contains(z) {
                let k = choose|k: int| 0 <= k < p.len() && p[k] == z;
                assert(a[k] == z);
                assert(a.contains(z));
                assert(row_before(order, a[k], a[a.len() - 1]));
                lemma_one_way(order, z, x);
                assert(b.contains(z));
                let l = choose|l: int| 0 <= l < b.len() && b[l] == z;
                assert(q[l] == z);
            }
            if q.contains(z) {
                let k = choose|k: int| 0 <= k < q.len() && q[k] == z;
                assert(b[k] == z);
                assert(b.contains(z));
                assert(row_before(order, b[k], b[b.len() - 1]));
                lemma_one_way(order, z, y);
                assert(a.contains(z));
                let l = choose|l: int| 0 <= l < a.len() && a[l] == z;
                assert(p[l] == z);
            }
        }
        lemma_one_order(order, p, q);
        assert(a =~= p.push(x));
        assert(b =~= q.push(y));
    }
}

/// A forward seek gives the rows a scan gives, those whose key is in the range, each row once, by key,
/// then by row identifier; a backward one gives them the other way round. Over the whole index, these
/// are all the rows of the scan.
pub proof fn law_seek_is_the_scan_cut_to_the_range(
    t: HeapTableModel,
    snap: Snapshot,
    st: Map<u64, TxnStatus>,
    shape: TableShapeModel,
    scanned: Seq<(u64, u64)>,
    scan: Seq<(RowId, Seq<ValueModel>)>,
    order: Seq<Column>,
    range: KeyRangeModel,
    sought: Seq<(u64, u64)>,
    seek: Seq<(RowId, Seq<ValueModel>)>,
)
    requires
        seen_keys(t, snap, st, scanned),
        in_scan_order(shape, scan, rows_at(t, scanned)),
        seen_keys(t, snap, st, sought),
        seeks(order, seek, rows_at(t, sought), range, Direction::Forward),
    ensures
        forall|x: (RowId, Seq<ValueModel>)| #[trigger]
            seek.contains(x) <==> scan.contains(x) && in_range(order, key_in(order, x.1), range),
        forall|i: int, j: int|
            0 <= i < j < seek.len() ==> row_before(order, #[trigger] seek[i], #[trigger] seek[j])
                && seek[i].0 != seek[j].0,
        range == KeyRangeModel::Full ==> forall|x: (RowId, Seq<ValueModel>)| #[trigger]
            seek.contains(x) <==> scan.contains(x),
        forall|back: Seq<(RowId, Seq<ValueModel>)>| #[trigger]
            seeks(order, back, rows_at(t, sought), range, Direction::Backward) ==> back
                == seek.reverse(),
{
    let rows = rows_at(t, sought);
    let sorted = choose|sorted: Seq<(RowId, Seq<ValueModel>)>| #[trigger]
        sorts(order, sorted, rows) && seek == selected(order, sorted, range);
    let wanted = |x: (RowId, Seq<ValueModel>)| in_range(order, key_in(order, x.1), range);
    let rel = |a: (RowId, Seq<ValueModel>), b: (RowId, Seq<ValueModel>)| row_before(order, a, b);
    lemma_filter_elements(sorted, wanted);
    lemma_filter_pairwise(sorted, wanted, rel);
    assert forall|x: (RowId, Seq<ValueModel>)| #[trigger] scan.contains(x) <==> rows.contains(x) by {
        assert(scan.contains(x) <==> rows_at(t, scanned).contains(x));
        if rows_at(t, scanned).contains(x) {
            lemma_same_rows_seen(t, snap, st, scanned, sought, x);
        }
        if rows.contains(x) {
            lemma_same_rows_seen(t, snap, st, sought, scanned, x);
        }
    }
    assert forall|x: (RowId, Seq<ValueModel>)| #[trigger] seek.contains(x) <==> scan.contains(x)
        && in_range(order, key_in(order, x.1), range) by {
        assert(seek.contains(x) <==> sorted.contains(x) && wanted(x));
        assert(sorted.contains(x) <==> rows.contains(x));
    }
    assert forall|i: int, j: int| 0 <= i < j < seek.len() implies row_before(
        order,
        #[trigger] seek[i],
        #[trigger] seek[j],
    ) && seek[i].0 != seek[j].0 by {
        assert(rel(sorted.filter(wanted)[i], sorted.filter(wanted)[j]));
        assert(seek.contains(seek[i]) && seek.contains(seek[j]));
        assert(sorted.contains(seek[i]) && sorted.contains(seek[j]));
        lemma_one_way(order, seek[i], seek[j]);
        if seek[i].0 == seek[j].0 {
            lemma_rows_differ(t, snap, st, sought, seek[i], seek[j]);
        }
    }
    assert forall|back: Seq<(RowId, Seq<ValueModel>)>| #[trigger]
        seeks(order, back, rows, range, Direction::Backward) implies back == seek.reverse() by {
        let other = choose|other: Seq<(RowId, Seq<ValueModel>)>| #[trigger]
            sorts(order, other, rows) && back == selected(order, other, range).reverse();
        assert forall|x: (RowId, Seq<ValueModel>)| #[trigger]
            sorted.contains(x) <==> other.contains(x) by {
            assert(sorted.contains(x) <==> rows.contains(x));
            assert(other.contains(x) <==> rows.contains(x));
        }
        lemma_one_order(order, sorted, other);
    }
}

} // verus!
