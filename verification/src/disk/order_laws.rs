//! What a read of a durable table gives back, and in which order.

use vstd::prelude::*;

use super::heap_reads::{all_legible, first_seen, rows_at, seen_keys, shows_row};
use super::lists::{in_scan_order, seeks, sorts};
use super::table_model::{data_of, legible, HeapTableModel};
use crate::ids::RowId;
use crate::key_range::{Direction, KeyRangeModel};
use crate::memory::key_order::{key_in, key_relation, order_of, Column};
use crate::shape::TableShapeModel;
use crate::snapshot::{Snapshot, TxnStatus};
use crate::value::{Relation, ValueModel};

verus! {

/// A read of a row gives the content of the oldest of its versions that the snapshot sees.
pub proof fn law_read_gives_a_version_that_is_seen(
    t: HeapTableModel,
    snap: Snapshot,
    st: Map<u64, TxnStatus>,
    id: RowId,
    data: Seq<ValueModel>,
)
    requires
        shows_row(t, snap, st, id, data),
    ensures
        exists|seq: u64|
            {
                let v = t.contents[(id.0, seq)];
                &&& #[trigger] t.contents.contains_key((id.0, seq))
                &&& snap.visible(v.header.xmin, v.header.xmax, st)
                &&& legible(v) && data_of(v) == data
                &&& forall|s: u64|
                    s < seq && #[trigger] t.contents.contains_key((id.0, s)) ==> !snap.visible(
                        t.contents[(id.0, s)].header.xmin,
                        t.contents[(id.0, s)].header.xmax,
                        st,
                    )
            },
{
    let seq = choose|seq: u64| #[trigger]
        first_seen(t, snap, st, id, seq) && super::encode::parse_row(
            t.contents[(id.0, seq)].columns,
        ) == Some(data);
    assert(t.sees(snap, st, (id.0, seq)));
    assert forall|s: u64| s < seq && #[trigger] t.contents.contains_key((id.0, s)) implies !snap.visible(
        t.contents[(id.0, s)].header.xmin,
        t.contents[(id.0, s)].header.xmax,
        st,
    ) by {
        assert(!t.sees(snap, st, (id.0, s)));
    }
    assert(t.contents.contains_key((id.0, seq)));
}

/// A snapshot sees a version exactly when it is there and visible, and a row of which it sees a version
/// is one that is read.
pub proof fn law_row_that_is_seen_is_read(
    t: HeapTableModel,
    snap: Snapshot,
    st: Map<u64, TxnStatus>,
    id: RowId,
    seq: u64,
)
    ensures
        t.sees(snap, st, (id.0, seq)) <==> t.contents.contains_key((id.0, seq)) && snap.visible(
            t.contents[(id.0, seq)].header.xmin,
            t.contents[(id.0, seq)].header.xmax,
            st,
        ),
        t.sees(snap, st, (id.0, seq)) ==> exists|first: u64| #[trigger]
            first_seen(t, snap, st, id, first),
    decreases seq,
{
    if t.sees(snap, st, (id.0, seq)) && !first_seen(t, snap, st, id, seq) {
        let s = choose|s: u64| s < seq && #[trigger] t.sees(snap, st, (id.0, s));
        law_row_that_is_seen_is_read(t, snap, st, id, s);
    }
}

/// A scan gives the rows that a read of them gives, each of them once, and no others: by the clustered
/// key of the table, rows of equal keys by identifier; by identifier where the table has no such key.
pub proof fn law_scan_gives_the_rows_in_order(
    t: HeapTableModel,
    snap: Snapshot,
    st: Map<u64, TxnStatus>,
    shape: TableShapeModel,
    keys: Seq<(u64, u64)>,
    out: Seq<(RowId, Seq<ValueModel>)>,
    i: int,
    j: int,
    id: RowId,
    data: Seq<ValueModel>,
)
    requires
        seen_keys(t, snap, st, keys),
        all_legible(t, keys),
        in_scan_order(shape, out, rows_at(t, keys)),
    ensures
        out.contains((id, data)) <==> shows_row(t, snap, st, id, data),
        0 <= i < j < out.len() ==> match shape.clustered_key {
            None => out[i].0.0 < out[j].0.0,
            Some(key) => {
                let order = order_of(key, shape.columns);
                let r = key_relation(order, key_in(order, out[i].1), key_in(order, out[j].1));
                r == Relation::Less || r == Relation::Equal && out[i].0.0 < out[j].0.0
            },
        },
{
    let rows = rows_at(t, keys);
    assert(out.contains((id, data)) <==> rows.contains((id, data)));
    if rows.contains((id, data)) {
        let a = choose|a: int| 0 <= a < rows.len() && rows[a] == (id, data);
        assert(keys.contains(keys[a]));
        assert(first_seen(t, snap, st, RowId(keys[a].0), keys[a].1));
        assert(legible(t.contents[keys[a]]));
        assert(shows_row(t, snap, st, id, data));
    }
    if shows_row(t, snap, st, id, data) {
        let seq = choose|seq: u64| #[trigger]
            first_seen(t, snap, st, id, seq) && super::encode::parse_row(
                t.contents[(id.0, seq)].columns,
            ) == Some(data);
        let k = (id.0, seq);
        assert(keys.contains(k));
        let a = choose|a: int| 0 <= a < keys.len() && keys[a] == k;
        assert(rows[a] == (id, data));
    }
    if 0 <= i < j < out.len() && shape.clustered_key is None {
        assert(keys[i].0 < keys[j].0);
    }
}

/// A seek gives its rows in the order of the index, or the other way round where it goes backward; rows
/// of equal keys come by identifier.
pub proof fn law_seek_gives_the_rows_in_order(
    order: Seq<Column>,
    out: Seq<(RowId, Seq<ValueModel>)>,
    rows: Seq<(RowId, Seq<ValueModel>)>,
    range: KeyRangeModel,
    dir: Direction,
    i: int,
    j: int,
)
    requires
        seeks(order, out, rows, range, dir),
        0 <= i < j < out.len(),
    ensures
        ({
            let (a, b) = if dir == Direction::Forward {
                (out[i], out[j])
            } else {
                (out[j], out[i])
            };
            let r = key_relation(order, key_in(order, a.1), key_in(order, b.1));
            &&& r == Relation::Less || r == Relation::Equal && a.0.0 < b.0.0
            &&& rows.contains(a) && rows.contains(b)
            &&& crate::memory::index::in_range(order, key_in(order, a.1), range)
            &&& crate::memory::index::in_range(order, key_in(order, b.1), range)
        }),
{
    let sorted = choose|sorted: Seq<(RowId, Seq<ValueModel>)>| #[trigger]
        sorts(order, sorted, rows) && out == match dir {
            Direction::Forward => super::lists::selected(order, sorted, range),
            Direction::Backward => super::lists::selected(order, sorted, range).reverse(),
        };
    let pred = |x: (RowId, Seq<ValueModel>)|
        crate::memory::index::in_range(order, key_in(order, x.1), range);
    let rel = |x: (RowId, Seq<ValueModel>), y: (RowId, Seq<ValueModel>)|
        crate::memory::read::row_before(order, x, y);
    let kept = sorted.filter(pred);
    assert(kept == super::lists::selected(order, sorted, range));
    assert forall|x: int, y: int| 0 <= x < y < sorted.len() implies #[trigger] rel(
        sorted[x],
        sorted[y],
    ) by {}
    crate::seqs::lemma_filter_pairwise(sorted, pred, rel);
    crate::seqs::lemma_filter_elements(sorted, pred);
    let (x, y) = if dir == Direction::Forward {
        (i, j)
    } else {
        (kept.len() - 1 - j, kept.len() - 1 - i)
    };
    assert(rel(kept[x], kept[y]));
    assert(kept.contains(kept[x]) && kept.contains(kept[y]));
}

} // verus!
