//! An index serves the rows of its table: what a snapshot sees of a row is found under its key, and
//! nothing else is found.

use vstd::prelude::*;

use super::chain_laws::law_at_most_one_version_of_a_row_is_seen;
use super::index::{entry_before, in_range, version_at, EntryModel, IndexModel};
use super::keeps::{lemma_chain_find, lemma_chain_found};
use super::key_order::{key_in, lemma_key_relation_flips};
use super::laws::{law_empty_point_is_the_whole_index, lemma_first_is_seen};
use super::model::{has_entry, StorageModel};
use super::read::{first_seen, row_before};
use super::table::VersionModel;
use crate::ids::{RowId, TableId};
use crate::key_range::{BoundModel, KeyRangeModel};
use crate::seqs::{lemma_filter_agree, lemma_filter_elements, lemma_filter_pairwise};
use crate::snapshot::{status_of, Snapshot, TxnStatus};
use crate::value::ValueModel;

verus! {

/// What a snapshot sees of a chain is one of its versions.
proof fn lemma_seen_is_there(
    chain: Seq<VersionModel>,
    snap: Snapshot,
    st: Map<u64, TxnStatus>,
) -> (at: int)
    requires
        first_seen(chain, snap, st) is Some,
    ensures
        0 <= at < chain.len(),
        first_seen(chain, snap, st) == Some(chain[at]),
        snap.visible(chain[at].xmin, chain[at].xmax, st),
    decreases chain.len(),
{
    if snap.visible(chain[0].xmin, chain[0].xmax, st) {
        0
    } else {
        let rest = chain.drop_first();
        let at = lemma_seen_is_there(rest, snap, st);
        assert(rest[at] == chain[at + 1]);
        at + 1
    }
}

/// The rows an index serves are those of its entries in the range that the snapshot sees.
proof fn lemma_sought(
    m: StorageModel,
    snap: Snapshot,
    ix: IndexModel,
    range: KeyRangeModel,
    row: (RowId, Seq<ValueModel>),
)
    ensures
        m.sought(snap, ix, range, ix.entries).contains(row) <==> exists|e: EntryModel|
            {
                &&& #[trigger] ix.entries.contains(e)
                &&& in_range(ix.order, e.key, range)
                &&& m.entry_seen(snap, ix, e)
                &&& row.0 == e.row
                &&& row.1 == version_at(m.table(ix.table).rows, e.row, e.version)->0.data
            },
{
    let pred = |e: EntryModel| in_range(ix.order, e.key, range) && m.entry_seen(snap, ix, e);
    let to = |e: EntryModel| (e.row, version_at(m.table(ix.table).rows, e.row, e.version)->0.data);
    let kept = ix.entries.filter(pred);
    let out = m.sought(snap, ix, range, ix.entries);
    assert(out == kept.map_values(to));
    lemma_filter_elements(ix.entries, pred);
    if out.contains(row) {
        let i = choose|i: int| 0 <= i < out.len() && out[i] == row;
        assert(kept.contains(kept[i]));
        assert(ix.entries.contains(kept[i]));
    }
    if exists|e: EntryModel|
        {
            &&& #[trigger] ix.entries.contains(e)
            &&& in_range(ix.order, e.key, range)
            &&& m.entry_seen(snap, ix, e)
            &&& row.0 == e.row
            &&& row.1 == version_at(m.table(ix.table).rows, e.row, e.version)->0.data
        } {
        let e = choose|e: EntryModel|
            {
                &&& #[trigger] ix.entries.contains(e)
                &&& in_range(ix.order, e.key, range)
                &&& m.entry_seen(snap, ix, e)
                &&& row.0 == e.row
                &&& row.1 == version_at(m.table(ix.table).rows, e.row, e.version)->0.data
            };
        assert(kept.contains(e));
        let i = choose|i: int| 0 <= i < kept.len() && kept[i] == e;
        assert(out[i] == row);
    }
}

/// What a snapshot sees of a row is found in every index of the table, under the key of what is
/// seen.
pub proof fn law_seek_finds_what_is_seen(
    m: StorageModel,
    snap: Snapshot,
    x: u64,
    range: KeyRangeModel,
    id: RowId,
    data: Seq<ValueModel>,
)
    requires
        m.wf(),
        m.indexes.contains_key(x),
        status_of(m.st(), snap.own) != TxnStatus::Aborted,
        m.seen(snap, m.indexes[x].table, id) == Some(data),
        in_range(m.indexes[x].order, key_in(m.indexes[x].order, data), range),
    ensures
        m.sought(snap, m.indexes[x], range, m.indexes[x].entries).contains((id, data)),
{
    let ix = m.indexes[x];
    let t = m.table(ix.table);
    let chain = t.rows[id.0];
    assert(m.tables.contains_key(ix.table.0 as u64));
    let at = lemma_seen_is_there(chain, snap, m.st());
    let v = chain[at];
    assert(t.rows[id.0][at] == v);
    assert(has_entry(ix.entries, id.0, v.seq));
    let i = choose|i: int|
        0 <= i < ix.entries.len() && (#[trigger] ix.entries[i]).row.0 == id.0
            && ix.entries[i].version == v.seq;
    let e = ix.entries[i];
    lemma_chain_find(chain, at);
    assert(version_at(t.rows, e.row, e.version) == Some(v));
    assert(e.key == key_in(ix.order, data));
    assert(ix.entries.contains(e));
    lemma_sought(m, snap, ix, range, (id, data));
}

/// What an index serves is a version of the row that the snapshot sees, its key in the range.
pub proof fn law_seek_finds_nothing_else(
    m: StorageModel,
    snap: Snapshot,
    x: u64,
    range: KeyRangeModel,
    id: RowId,
    data: Seq<ValueModel>,
) -> (at: int)
    requires
        m.wf(),
        m.indexes.contains_key(x),
        m.sought(snap, m.indexes[x], range, m.indexes[x].entries).contains((id, data)),
    ensures
        ({
            let ix = m.indexes[x];
            let rows = m.table(ix.table).rows;
            &&& rows.contains_key(id.0)
            &&& 0 <= at < rows[id.0].len()
            &&& m.sees(snap, rows[id.0][at])
            &&& rows[id.0][at].data == data
            &&& in_range(ix.order, key_in(ix.order, data), range)
        }),
{
    let ix = m.indexes[x];
    let rows = m.table(ix.table).rows;
    assert(m.tables.contains_key(ix.table.0 as u64));
    lemma_sought(m, snap, ix, range, (id, data));
    let e = choose|e: EntryModel|
        {
            &&& #[trigger] ix.entries.contains(e)
            &&& in_range(ix.order, e.key, range)
            &&& m.entry_seen(snap, ix, e)
            &&& id == e.row
            &&& data == version_at(rows, e.row, e.version)->0.data
        };
    let i = choose|i: int| 0 <= i < ix.entries.len() && ix.entries[i] == e;
    assert(version_at(rows, ix.entries[i].row, ix.entries[i].version) is Some);
    lemma_chain_found(rows[id.0], e.version);
    let v = version_at(rows, e.row, e.version)->0;
    let at = choose|at: int| 0 <= at < rows[id.0].len() && rows[id.0][at] == v;
    at
}

/// Whether a snapshot sees at most one version of each row of a table.
pub open spec fn sees_one(m: StorageModel, snap: Snapshot, table: TableId) -> bool {
    forall|r: u64, i: int, j: int|
        #![trigger m.table(table).rows[r][i], m.table(table).rows[r][j]]
        m.table(table).rows.contains_key(r) && 0 <= i < m.table(table).rows[r].len() && 0 <= j
            < m.table(table).rows[r].len() && m.sees(snap, m.table(table).rows[r][i]) && m.sees(
            snap,
            m.table(table).rows[r][j],
        ) ==> i == j
}

/// Whether a snapshot settles the creator of a version of a chain whenever it settles that of a later
/// one.
pub open spec fn settles_in_order(
    chain: Seq<VersionModel>,
    snap: Snapshot,
    st: Map<u64, TxnStatus>,
) -> bool {
    forall|a: int, b: int|
        0 <= a < b < chain.len() && snap.settled(
            (#[trigger] chain[b]).xmin,
            status_of(st, chain[b].xmin),
        ) ==> snap.settled((#[trigger] chain[a]).xmin, status_of(st, chain[a].xmin))
}

/// A snapshot that settles the creators of the versions of each row in order sees at most one version
/// of each row.
pub proof fn law_rows_settled_in_order_are_seen_once(
    m: StorageModel,
    snap: Snapshot,
    table: TableId,
)
    requires
        m.chained(),
        m.has_table(table),
        forall|r: u64| #[trigger]
            m.table(table).rows.contains_key(r) ==> settles_in_order(
                m.table(table).rows[r],
                snap,
                m.st(),
            ),
    ensures
        sees_one(m, snap, table),
{
    assert forall|r: u64, i: int, j: int|
        #![trigger m.table(table).rows[r][i], m.table(table).rows[r][j]]
        m.table(table).rows.contains_key(r) && 0 <= i < m.table(table).rows[r].len() && 0 <= j
            < m.table(table).rows[r].len() && m.sees(snap, m.table(table).rows[r][i]) && m.sees(
            snap,
            m.table(table).rows[r][j],
        ) implies i == j by {
        if i != j {
            law_at_most_one_version_of_a_row_is_seen(m, snap, table, RowId(r), i, j);
        }
    }
}

/// A seek gives the rows a scan gives, those whose key is in the range: each once, by key, then by row
/// identifier. The snapshot must see at most one version of each row.
pub proof fn law_seek_is_the_scan_cut_to_the_range(
    m: StorageModel,
    snap: Snapshot,
    x: u64,
    range: KeyRangeModel,
)
    requires
        m.wf(),
        m.indexes.contains_key(x),
        status_of(m.st(), snap.own) != TxnStatus::Aborted,
        sees_one(m, snap, m.indexes[x].table),
    ensures
        ({
            let ix = m.indexes[x];
            let out = m.sought(snap, ix, range, ix.entries);
            &&& forall|id: RowId, data: Seq<ValueModel>| #[trigger]
                out.contains((id, data)) <==> m.seen(snap, ix.table, id) == Some(data) && in_range(
                    ix.order,
                    key_in(ix.order, data),
                    range,
                )
            &&& forall|i: int, j: int|
                0 <= i < j < out.len() ==> row_before(ix.order, #[trigger] out[i], #[trigger] out[j])
                    && out[i].0 != out[j].0
        }),
{
    let ix = m.indexes[x];
    let rows = m.table(ix.table).rows;
    let out = m.sought(snap, ix, range, ix.entries);
    assert(m.tables.contains_key(ix.table.0 as u64));
    assert forall|id: RowId, data: Seq<ValueModel>| #[trigger] out.contains((id, data)) <==> m.seen(
        snap,
        ix.table,
        id,
    ) == Some(data) && in_range(ix.order, key_in(ix.order, data), range) by {
        if out.contains((id, data)) {
            let at = law_seek_finds_nothing_else(m, snap, x, range, id, data);
            lemma_one_is_seen(m, snap, ix.table, id, at);
        }
        if m.seen(snap, ix.table, id) == Some(data) && in_range(
            ix.order,
            key_in(ix.order, data),
            range,
        ) {
            law_seek_finds_what_is_seen(m, snap, x, range, id, data);
        }
    }
    let pred = |e: EntryModel| in_range(ix.order, e.key, range) && m.entry_seen(snap, ix, e);
    let rel = |a: EntryModel, b: EntryModel| entry_before(ix.order, a, b);
    let kept = ix.entries.filter(pred);
    lemma_filter_pairwise(ix.entries, pred, rel);
    lemma_filter_elements(ix.entries, pred);
    assert forall|i: int, j: int| 0 <= i < j < out.len() implies row_before(
        ix.order,
        #[trigger] out[i],
        #[trigger] out[j],
    ) && out[i].0 != out[j].0 by {
        let a = kept[i];
        let b = kept[j];
        assert(rel(kept[i], kept[j]));
        assert(kept.contains(a) && kept.contains(b));
        let p = lemma_entry_version(m, snap, x, a);
        let q = lemma_entry_version(m, snap, x, b);
        assert(out[i] == (a.row, rows[a.row.0][p].data));
        assert(out[j] == (b.row, rows[b.row.0][q].data));
        if a.row == b.row {
            assert(m.table(ix.table).rows[a.row.0][p] == m.table(ix.table).rows[a.row.0][q]);
            assert(a.key == b.key);
            lemma_key_relation_flips(ix.order, a.key, b.key);
        }
    }
}

/// An entry whose version is seen names a version of its row, and holds its key.
proof fn lemma_entry_version(m: StorageModel, snap: Snapshot, x: u64, e: EntryModel) -> (at: int)
    requires
        m.wf(),
        m.indexes.contains_key(x),
        m.indexes[x].entries.contains(e),
        m.entry_seen(snap, m.indexes[x], e),
    ensures
        ({
            let ix = m.indexes[x];
            let rows = m.table(ix.table).rows;
            &&& rows.contains_key(e.row.0)
            &&& 0 <= at < rows[e.row.0].len()
            &&& version_at(rows, e.row, e.version) == Some(rows[e.row.0][at])
            &&& rows[e.row.0][at].seq == e.version
            &&& m.sees(snap, rows[e.row.0][at])
            &&& e.key == key_in(ix.order, rows[e.row.0][at].data)
        }),
{
    let ix = m.indexes[x];
    let rows = m.table(ix.table).rows;
    assert(m.tables.contains_key(ix.table.0 as u64));
    let i = choose|i: int| 0 <= i < ix.entries.len() && ix.entries[i] == e;
    assert(version_at(rows, ix.entries[i].row, ix.entries[i].version) is Some);
    lemma_chain_found(rows[e.row.0], e.version);
    let v = version_at(rows, e.row, e.version)->0;
    choose|at: int| 0 <= at < rows[e.row.0].len() && rows[e.row.0][at] == v
}

/// Where at most one version of a row is seen, it is what is seen of the row.
proof fn lemma_one_is_seen(m: StorageModel, snap: Snapshot, table: TableId, id: RowId, at: int)
    requires
        sees_one(m, snap, table),
        m.table(table).rows.contains_key(id.0),
        0 <= at < m.table(table).rows[id.0].len(),
        m.sees(snap, m.table(table).rows[id.0][at]),
    ensures
        m.seen(snap, table, id) == Some(m.table(table).rows[id.0][at].data),
{
    let c = m.table(table).rows[id.0];
    assert forall|i: int| 0 <= i < at implies !snap.visible(
        (#[trigger] c[i]).xmin,
        c[i].xmax,
        m.st(),
    ) by {
        assert(m.table(table).rows[id.0][i] == c[i]);
        assert(m.table(table).rows[id.0][at] == c[at]);
    }
    lemma_first_is_seen(c, snap, m.st(), at);
}

/// A point of no value and a range without bounds give what the whole index gives.
pub proof fn law_open_ranges_are_the_whole_index(m: StorageModel, snap: Snapshot, x: u64)
    ensures
        ({
            let ix = m.indexes[x];
            let full = m.sought(snap, ix, KeyRangeModel::Full, ix.entries);
            &&& m.sought(snap, ix, KeyRangeModel::Point(Seq::empty()), ix.entries) == full
            &&& m.sought(
                snap,
                ix,
                KeyRangeModel::Between(BoundModel::Unbounded, BoundModel::Unbounded),
                ix.entries,
            ) == full
        }),
{
    let ix = m.indexes[x];
    let open = KeyRangeModel::Between(BoundModel::Unbounded, BoundModel::Unbounded);
    let point = KeyRangeModel::Point(Seq::empty());
    let p = |e: EntryModel|
        in_range(ix.order, e.key, KeyRangeModel::Full) && m.entry_seen(snap, ix, e);
    let q = |e: EntryModel| in_range(ix.order, e.key, point) && m.entry_seen(snap, ix, e);
    let r = |e: EntryModel| in_range(ix.order, e.key, open) && m.entry_seen(snap, ix, e);
    assert forall|i: int| 0 <= i < ix.entries.len() implies p(#[trigger] ix.entries[i]) == q(
        ix.entries[i],
    ) by {
        law_empty_point_is_the_whole_index(ix.order, ix.entries[i].key);
    }
    lemma_filter_agree(ix.entries, p, q);
    lemma_filter_agree(ix.entries, p, r);
}

} // verus!
