//! What a read gives back, and in which order.

use vstd::prelude::*;

use super::index::{
    all_comparable, entry_before, in_range, range_comparable, version_at, EntryModel,
};
use super::key_order::{key_in, key_relation, keys_comparable, order_of, Column};
use super::model::{index_ok, table_ok, StorageModel};
use super::read::first_seen;
use super::table::VersionModel;
use crate::ids::{RowId, TableId};
use crate::key_range::{BoundModel, KeyRangeModel};
use crate::seqs::{lemma_filter_elements, lemma_filter_pairwise};
use crate::snapshot::{Snapshot, TxnStatus};
use crate::value::{Relation, ValueModel};

verus! {

/// Of a chain the first version that is seen is found, if there is one.
proof fn lemma_first_seen(chain: Seq<VersionModel>, snap: Snapshot, st: Map<u64, TxnStatus>)
    ensures
        match first_seen(chain, snap, st) {
            Some(v) => exists|i: int|
                {
                    &&& 0 <= i < chain.len()
                    &&& #[trigger] chain[i] == v
                    &&& snap.visible(v.xmin, v.xmax, st)
                    &&& forall|j: int|
                        0 <= j < i ==> !snap.visible(
                            (#[trigger] chain[j]).xmin,
                            chain[j].xmax,
                            st,
                        )
                },
            None => forall|j: int|
                0 <= j < chain.len() ==> !snap.visible(
                    (#[trigger] chain[j]).xmin,
                    chain[j].xmax,
                    st,
                ),
        },
    decreases chain.len(),
{
    if chain.len() > 0 && !snap.visible(chain[0].xmin, chain[0].xmax, st) {
        let rest = chain.drop_first();
        lemma_first_seen(rest, snap, st);
        match first_seen(rest, snap, st) {
            Some(v) => {
                let i = choose|i: int|
                    {
                        &&& 0 <= i < rest.len()
                        &&& #[trigger] rest[i] == v
                        &&& snap.visible(v.xmin, v.xmax, st)
                        &&& forall|j: int|
                            0 <= j < i ==> !snap.visible(
                                (#[trigger] rest[j]).xmin,
                                rest[j].xmax,
                                st,
                            )
                    };
                assert(chain[i + 1] == v);
                assert forall|j: int| 0 <= j < i + 1 implies !snap.visible(
                    (#[trigger] chain[j]).xmin,
                    chain[j].xmax,
                    st,
                ) by {
                    if j > 0 {
                        assert(rest[j - 1] == chain[j]);
                    }
                }
            },
            None => {
                assert forall|j: int| 0 <= j < chain.len() implies !snap.visible(
                    (#[trigger] chain[j]).xmin,
                    chain[j].xmax,
                    st,
                ) by {
                    if j > 0 {
                        assert(rest[j - 1] == chain[j]);
                    }
                }
            },
        }
    } else if chain.len() > 0 {
        assert(chain[0] == chain[0]);
    }
}

/// A read of a row gives the content of the oldest of its versions that the snapshot sees, and nothing
/// exactly when it sees none.
pub proof fn law_read_gives_a_version_that_is_seen(
    m: StorageModel,
    snap: Snapshot,
    table: TableId,
    id: RowId,
)
    ensures
        ({
            let rows = m.table(table).rows;
            let chain = rows[id.0];
            match m.seen(snap, table, id) {
                Some(data) => rows.contains_key(id.0) && exists|i: int|
                    {
                        &&& 0 <= i < chain.len()
                        &&& (#[trigger] chain[i]).data == data
                        &&& snap.visible(chain[i].xmin, chain[i].xmax, m.st())
                        &&& forall|j: int|
                            0 <= j < i ==> !snap.visible(
                                (#[trigger] chain[j]).xmin,
                                chain[j].xmax,
                                m.st(),
                            )
                    },
                None => rows.contains_key(id.0) ==> forall|j: int|
                    0 <= j < chain.len() ==> !snap.visible(
                        (#[trigger] chain[j]).xmin,
                        chain[j].xmax,
                        m.st(),
                    ),
            }
        }),
{
    if m.table(table).rows.contains_key(id.0) {
        lemma_first_seen(m.table(table).rows[id.0], snap, m.st());
    }
}

/// A scan gives the rows that a read of them gives, each of them once, and no others: by the clustered
/// key of the table, rows of equal keys by identifier; by identifier where the table has no such key.
pub proof fn law_scan_gives_the_rows_in_order(
    m: StorageModel,
    snap: Snapshot,
    table: TableId,
    out: Seq<(RowId, Seq<ValueModel>)>,
    i: int,
    j: int,
    id: RowId,
)
    requires
        m.wf(),
        m.has_table(table),
        m.scanned(snap, table, out),
    ensures
        0 <= i < out.len() ==> m.seen(snap, table, out[i].0) == Some(out[i].1),
        m.seen(snap, table, id) matches Some(data) ==> out.contains((id, data)),
        0 <= i < j < out.len() ==> out[i].0 != out[j].0,
        0 <= i < j < out.len() ==> match m.table(table).shape.clustered_key {
            None => out[i].0.0 < out[j].0.0,
            Some(key) => {
                let order = order_of(key, m.table(table).shape.columns);
                let r = key_relation(order, key_in(order, out[i].1), key_in(order, out[j].1));
                r == Relation::Less || r == Relation::Equal && out[i].0.0 < out[j].0.0
            },
        },
{
    assert(m.tables.contains_key(table.0 as u64));
    assert(table_ok(m.table(table)));
    if 0 <= i < out.len() {
        assert(out.contains((out[i].0, out[i].1)));
    }
    if 0 <= i < j < out.len() && out[i].0 == out[j].0 {
        assert(out.contains((out[j].0, out[j].1)));
        assert(out[i] == out[j]);
        match m.table(table).shape.clustered_key {
            None => {},
            Some(key) => {
                let order = order_of(key, m.table(table).shape.columns);
                super::key_order::lemma_key_relation_flips(
                    order,
                    key_in(order, out[i].1),
                    key_in(order, out[j].1),
                );
            },
        }
    }
}

/// A seek gives its rows in the order of the index, rows of equal keys by identifier.
pub proof fn law_seek_gives_the_rows_in_order(
    m: StorageModel,
    snap: Snapshot,
    x: u64,
    range: KeyRangeModel,
    i: int,
    j: int,
)
    requires
        m.wf(),
        m.indexes.contains_key(x),
        0 <= i < j < m.sought(snap, m.indexes[x], range, m.indexes[x].entries).len(),
    ensures
        ({
            let out = m.sought(snap, m.indexes[x], range, m.indexes[x].entries);
            let order = order_of(
                m.indexes[x].shape.columns,
                m.table(m.indexes[x].table).shape.columns,
            );
            let r = key_relation(order, key_in(order, out[i].1), key_in(order, out[j].1));
            r == Relation::Less || r == Relation::Equal && out[i].0.0 <= out[j].0.0
        }),
{
    let ix = m.indexes[x];
    let rows = m.table(ix.table).rows;
    assert(m.tables.contains_key(ix.table.0 as u64));
    assert(index_ok(ix, m.table(ix.table), m.st()));
    let pred = |e: EntryModel| in_range(ix.order, e.key, range) && m.entry_seen(snap, ix, e);
    let to = |e: EntryModel| (e.row, version_at(rows, e.row, e.version)->0.data);
    let rel = |a: EntryModel, b: EntryModel| entry_before(ix.order, a, b);
    let kept = ix.entries.filter(pred);
    let out = m.sought(snap, ix, range, ix.entries);
    assert(out == kept.map_values(to));
    assert forall|a: int, b: int| 0 <= a < b < ix.entries.len() implies #[trigger] rel(
        ix.entries[a],
        ix.entries[b],
    ) by {
        assert(entry_before(ix.order, ix.entries[a], ix.entries[b]));
    }
    lemma_filter_pairwise(ix.entries, pred, rel);
    lemma_filter_elements(ix.entries, pred);
    assert(rel(kept[i], kept[j]));
    assert(kept.contains(kept[i]) && kept.contains(kept[j]));
    let a = choose|a: int| 0 <= a < ix.entries.len() && ix.entries[a] == kept[i];
    let b = choose|b: int| 0 <= b < ix.entries.len() && ix.entries[b] == kept[j];
    assert(version_at(rows, ix.entries[a].row, ix.entries[a].version) is Some);
    assert(version_at(rows, ix.entries[b].row, ix.entries[b].version) is Some);
}

/// A scan fails exactly where the table is clustered and the snapshot sees two rows whose keys cannot be
/// compared.
pub proof fn law_scan_fails_only_where_keys_clash(
    m: StorageModel,
    snap: Snapshot,
    table: TableId,
    a: RowId,
    b: RowId,
)
    requires
        m.wf(),
        m.has_table(table),
    ensures
        m.table(table).shape.clustered_key is None ==> !m.scan_clash(snap, table),
        m.table(table).shape.clustered_key matches Some(key) ==> {
            let order = order_of(key, m.table(table).shape.columns);
            &&& m.scan_clash(snap, table) ==> exists|x: RowId, y: RowId|
                #![trigger m.seen(snap, table, x), m.seen(snap, table, y)]
                m.seen(snap, table, x) is Some && m.seen(snap, table, y) is Some
                    && !keys_comparable(
                    order,
                    key_in(order, m.seen(snap, table, x)->0),
                    key_in(order, m.seen(snap, table, y)->0),
                )
            &&& m.seen(snap, table, a) is Some && m.seen(snap, table, b) is Some
                && !keys_comparable(
                order,
                key_in(order, m.seen(snap, table, a)->0),
                key_in(order, m.seen(snap, table, b)->0),
            ) ==> m.scan_clash(snap, table)
        },
{
    assert(m.tables.contains_key(table.0 as u64));
    assert(table_ok(m.table(table)));
}

/// The prefixes a range is bounded by.
pub open spec fn bounds_with(range: KeyRangeModel, p: Seq<ValueModel>) -> bool {
    match range {
        KeyRangeModel::Full => false,
        KeyRangeModel::Point(q) => q == p,
        KeyRangeModel::Between(lo, hi) => lo == BoundModel::Included(p) || lo
            == BoundModel::Excluded(p) || hi == BoundModel::Included(p) || hi
            == BoundModel::Excluded(p),
    }
}

/// A seek fails for values that cannot be compared exactly where the key of an entry cannot be compared
/// with a bound of the range.
pub proof fn law_seek_fails_only_where_a_bound_clashes(
    order: Seq<Column>,
    entries: Seq<EntryModel>,
    range: KeyRangeModel,
)
    ensures
        range_comparable(order, entries, range) <==> forall|i: int, p: Seq<ValueModel>|
            0 <= i < entries.len() && #[trigger] bounds_with(range, p) ==> keys_comparable(
                order,
                #[trigger] entries[i].key,
                p,
            ),
{
    if forall|i: int, p: Seq<ValueModel>|
        0 <= i < entries.len() && #[trigger] bounds_with(range, p) ==> keys_comparable(
            order,
            #[trigger] entries[i].key,
            p,
        ) {
        assert forall|p: Seq<ValueModel>| #[trigger] bounds_with(range, p) implies all_comparable(
            order,
            entries,
            p,
        ) by {}
        match range {
            KeyRangeModel::Full => {},
            KeyRangeModel::Point(p) => {
                assert(bounds_with(range, p));
            },
            KeyRangeModel::Between(lo, hi) => {
                match lo {
                    BoundModel::Unbounded => {},
                    BoundModel::Included(p) => {
                        assert(bounds_with(range, p));
                    },
                    BoundModel::Excluded(p) => {
                        assert(bounds_with(range, p));
                    },
                }
                match hi {
                    BoundModel::Unbounded => {},
                    BoundModel::Included(p) => {
                        assert(bounds_with(range, p));
                    },
                    BoundModel::Excluded(p) => {
                        assert(bounds_with(range, p));
                    },
                }
            },
        }
    }
}

} // verus!
