//! When a call on an instance fails: each failure has its cause, and without one the call goes through.

use vstd::prelude::*;

use super::ends::Step;
use super::heap_reads::{
    all_legible, first_seen, is_live_key, live_fault, live_keys, rows_at, scan_fault, shows_none,
    versions_fault,
};
use super::heap_table::HeapTable;
use super::journal::JournalModel;
use super::lists::{buildable, can_build, unsortable, unsought};
use super::storage::DiskModel;
use super::table_model::{data_of, legible, HeapTableModel};
use super::wal::WalRecordKind;
use crate::error::{InternalError, SqlError, SqlResult};
use crate::ids::{RowId, SavepointId, TxnId};
use crate::key_range::{BoundModel, KeyRangeModel};
use crate::memory::key_order::{key_in, key_relation, keys_comparable, Column};
use crate::snapshot::{Snapshot, TxnStatus};
use crate::value::{Relation, ValueModel};

verus! {

/// A read or a scan fails only at a version that the snapshot sees and whose columns are no row.
pub proof fn law_read_fails_only_at_a_version_that_is_no_row(
    t: HeapTableModel,
    snap: Snapshot,
    st: Map<u64, TxnStatus>,
    row: RowId,
    e: InternalError,
)
    requires
        shows_none(t, snap, st, row, e) || scan_fault(t, snap, st, e),
    ensures
        exists|k: (u64, u64)|
            {
                &&& #[trigger] t.contents.contains_key(k)
                &&& snap.visible(t.contents[k].header.xmin, t.contents[k].header.xmax, st)
                &&& !legible(t.contents[k])
            },
{
    if shows_none(t, snap, st, row, e) {
        let seq = choose|seq: u64| #[trigger]
            first_seen(t, snap, st, row, seq) && !legible(t.contents[(row.0, seq)]);
        assert(t.sees(snap, st, (row.0, seq)));
        assert(t.contents.contains_key((row.0, seq)));
    } else {
        let k = choose|k: (u64, u64)| #[trigger]
            first_seen(t, snap, st, RowId(k.0), k.1) && !legible(t.contents[k]);
        assert(t.sees(snap, st, (RowId(k.0).0, k.1)));
        assert(t.contents.contains_key(k));
    }
}

/// A walk of the versions fails only at one whose columns are no row.
pub proof fn law_walk_fails_only_at_a_version_that_is_no_row(
    t: HeapTableModel,
    only: Option<RowId>,
    e: InternalError,
)
    requires
        versions_fault(t, only, e) || (t.wf() && live_fault(t, e)),
    ensures
        exists|k: (u64, u64)| #[trigger] t.contents.contains_key(k) && !legible(t.contents[k]),
{
    if versions_fault(t, only, e) {
        let k = choose|k: (u64, u64)| #[trigger]
            t.contents.contains_key(k) && !legible(t.contents[k]);
        assert(t.contents.contains_key(k));
    } else {
        let k = choose|k: (u64, u64)| #[trigger] is_live_key(t, k) && !legible(t.contents[k]);
        assert(t.contents.contains_key((k.0, t.current[k.0])));
    }
}

/// Rows cannot be put in the order of a key only where two of their keys cannot be compared, or one of
/// them lacks a column of the key.
pub proof fn law_rows_fail_to_sort_for_a_reason(
    order: Seq<Column>,
    rows: Seq<(RowId, Seq<ValueModel>)>,
    e: SqlError,
)
    requires
        unsortable(order, rows, e),
    ensures
        (exists|i: int, j: int|
            0 <= i < rows.len() && 0 <= j < rows.len() && !keys_comparable(
                order,
                key_in(order, (#[trigger] rows[i]).1),
                key_in(order, (#[trigger] rows[j]).1),
            )) || exists|i: int, c: int|
            0 <= i < rows.len() && 0 <= c < order.len() && (#[trigger] order[c]).position >= (
            #[trigger] rows[i]).1.len(),
{
    if !(crate::memory::read::keys_clash(order, rows) && e == SqlError::IncomparableValues) {
        let i = choose|i: int|
            0 <= i < rows.len() && crate::memory::key_order::short_row(
                order,
                (#[trigger] rows[i]).1.len(),
                e,
            );
        let c = choose|c: int|
            0 <= c < order.len() && (#[trigger] order[c]).position >= rows[i].1.len();
        assert(order[c].position >= rows[i].1.len());
    }
}

/// The prefixes a range is bounded by.
pub open spec fn bounds_with(range: KeyRangeModel, p: Seq<ValueModel>) -> bool {
    match range {
        KeyRangeModel::Full => false,
        KeyRangeModel::Point(q) => q == p,
        KeyRangeModel::Between(lo, hi) => lo == BoundModel::Included(p) || lo
            == BoundModel::Excluded(p) || hi == BoundModel::Included(p) || hi
            == BoundModel::Excluded(p),
    }
}

/// A seek fails only where its rows cannot be put in order, or the key of one of them cannot be compared
/// with a bound of the range.
pub proof fn law_seek_fails_for_a_reason(
    order: Seq<Column>,
    rows: Seq<(RowId, Seq<ValueModel>)>,
    range: KeyRangeModel,
    e: SqlError,
)
    requires
        unsought(order, rows, range, e),
    ensures
        unsortable(order, rows, e) || exists|i: int, p: Seq<ValueModel>|
            0 <= i < rows.len() && #[trigger] bounds_with(range, p) && !keys_comparable(
                order,
                key_in(order, (#[trigger] rows[i]).1),
                p,
            ),
{
    if !unsortable(order, rows, e) {
        let i = choose|i: int|
            0 <= i < rows.len() && !super::lists::range_meets(
                order,
                key_in(order, (#[trigger] rows[i]).1),
                range,
            );
        let p = lemma_bound_not_met(order, key_in(order, rows[i].1), range);
        assert(bounds_with(range, p));
        assert(rows[i] == rows[i]);
    }
}

/// A range that a key cannot be compared with has a bound that it cannot be compared with.
proof fn lemma_bound_not_met(
    order: Seq<Column>,
    key: Seq<ValueModel>,
    range: KeyRangeModel,
) -> (p: Seq<ValueModel>)
    requires
        !super::lists::range_meets(order, key, range),
    ensures
        bounds_with(range, p),
        !keys_comparable(order, key, p),
{
    match range {
        KeyRangeModel::Full => Seq::empty(),
        KeyRangeModel::Point(p) => p,
        KeyRangeModel::Between(lo, hi) => {
            let bound = if super::lists::bound_meets(order, key, lo) {
                hi
            } else {
                lo
            };
            match bound {
                BoundModel::Unbounded => Seq::empty(),
                BoundModel::Included(p) => p,
                BoundModel::Excluded(p) => p,
            }
        },
    }
}

/// An index can be built over a table whose live rows read back, hold the key columns and have keys that
/// can be compared, and, for a `unique` one, that differ from row to row.
pub proof fn law_index_is_built_over_rows_that_take_it(
    t: HeapTableModel,
    order: Seq<Column>,
    unique: bool,
    keys: Seq<(u64, u64)>,
)
    requires
        live_keys(t, keys),
        forall|i: int| 0 <= i < keys.len() ==> legible(t.contents[#[trigger] keys[i]]),
        forall|i: int, c: int|
            #![trigger keys[i], order[c]]
            0 <= i < keys.len() && 0 <= c < order.len() ==> order[c].position < data_of(
                t.contents[keys[i]],
            ).len(),
        forall|i: int, j: int|
            #![trigger keys[i], keys[j]]
            0 <= i < keys.len() && 0 <= j < keys.len() ==> keys_comparable(
                order,
                key_in(order, data_of(t.contents[keys[i]])),
                key_in(order, data_of(t.contents[keys[j]])),
            ),
        unique ==> forall|i: int, j: int|
            #![trigger keys[i], keys[j]]
            0 <= i < keys.len() && 0 <= j < keys.len() && i != j ==> key_relation(
                order,
                key_in(order, data_of(t.contents[keys[i]])),
                key_in(order, data_of(t.contents[keys[j]])),
            ) != Relation::Equal,
    ensures
        can_build(t, order, unique),
{
    let rows = rows_at(t, keys);
    assert forall|i: int| 0 <= i < rows.len() implies crate::memory::key_order::fits(
        order,
        (#[trigger] rows[i]).1.len(),
    ) by {
        assert(rows[i].1 == data_of(t.contents[keys[i]]));
        assert forall|c: int| 0 <= c < order.len() implies (#[trigger] order[c]).position
            < rows[i].1.len() by {
            let k = keys[i];
        }
    }
    assert forall|i: int, j: int| 0 <= i < rows.len() && 0 <= j < rows.len() implies keys_comparable(
        order,
        key_in(order, (#[trigger] rows[i]).1),
        key_in(order, (#[trigger] rows[j]).1),
    ) && (unique && i != j ==> key_relation(
        order,
        key_in(order, rows[i].1),
        key_in(order, rows[j].1),
    ) != Relation::Equal) by {
        let a = keys[i];
        let b = keys[j];
    }
    assert(buildable(order, rows, unique));
    assert(all_legible(t, keys));
}

/// A commit of a transaction that is running fails only where the journal takes no record, or a table the
/// transaction wrote in was dropped.
pub proof fn law_commit_fails_only_where_a_table_was_dropped(
    m: DiskModel,
    n: DiskModel,
    txn: TxnId,
    r: SqlResult<()>,
)
    requires
        m.end_result(n, txn, WalRecordKind::Commit, r),
        m.journal.txns.contains_key(txn.0) ==> m.journal.txns[txn.0].status
            == TxnStatus::InProgress,
        m.journal.log.len() < u64::MAX,
        forall|t: u64| #[trigger]
            m.journal.record(txn).tables.contains(t) ==> m.tables.contains_key(t),
    ensures
        r is Ok,
{
    if r is Err {
        let list = choose|list: Seq<u64>| #[trigger]
            m.wrote_in(txn, list) && (exists|i: int| #[trigger]
                m.stops(n, list, i, Step::End(txn, TxnStatus::Committed), r->Err_0));
        let i = choose|i: int| #[trigger]
            m.stops(n, list, i, Step::End(txn, TxnStatus::Committed), r->Err_0);
        assert(list.contains(list[i]));
        assert(m.tables.contains_key(list[i]));
    }
}

/// A savepoint cannot be rolled back to only where the transaction is unknown or over, or took no such
/// savepoint.
pub proof fn law_savepoint_is_refused_for_a_reason(
    j: JournalModel,
    txn: TxnId,
    sp: SavepointId,
    e: InternalError,
    i: int,
)
    requires
        j.savepoint_error(txn, sp, e),
        j.txns.contains_key(txn.0),
        j.txns[txn.0].status == TxnStatus::InProgress,
        0 <= i < j.txns[txn.0].savepoints.len(),
    ensures
        j.txns[txn.0].savepoints[i].id != sp,
{
    assert(j.record(txn).savepoints[i].id != sp);
}

/// A table that was rebuilt after a recovery has, for each row, the newest of the versions whose creator
/// has not rolled back as its most recent one, and no other row.
pub proof fn law_rebuilt_row_is_its_newest_version(
    before: HeapTable,
    after: HeapTable,
    st: Map<u64, TxnStatus>,
    next_row_id: u64,
    next_seq: u64,
    k: (u64, u64),
)
    requires
        before.resumes(&after, st, next_row_id, next_seq, Ok(())),
    ensures
        ({
            let t = after@;
            let stands = |k: (u64, u64)|
                t.contents.contains_key(k) && !(st.contains_key(t.contents[k].header.xmin.0)
                    && st[t.contents[k].header.xmin.0] == TxnStatus::Aborted);
            &&& t.current.contains_key(k.0) ==> stands((k.0, t.current[k.0]))
            &&& t.current.contains_key(k.0) && stands(k) ==> k.1 <= t.current[k.0]
            &&& t.contents == before@.contents
            &&& t.next_row_id >= next_row_id && t.next_row_id >= before@.next_row_id
            &&& t.next_seq >= next_seq && t.next_seq >= before@.next_seq
        }),
        ({
            let t = after@;
            let h = t.contents[k].header;
            t.contents.contains_key(k) && !(st.contains_key(h.xmin.0) && st[h.xmin.0]
                == TxnStatus::Aborted) ==> t.current.contains_key(k.0)
        }),
{
    let t = after@;
    let h = t.contents[k].header;
    if t.current.contains_key(k.0) {
        assert(super::heap_reads::resumes_at(t, st, k.0, t.current[k.0]));
    }
    if t.contents.contains_key(k) && !(st.contains_key(h.xmin.0) && st[h.xmin.0]
        == TxnStatus::Aborted) {
        let seq = lemma_newest(t, st, k, k.1);
        assert(super::heap_reads::resumes_at(t, st, k.0, seq));
    }
}

/// Among the versions of a row whose creator has not rolled back there is a newest one.
proof fn lemma_newest(
    t: HeapTableModel,
    st: Map<u64, TxnStatus>,
    k: (u64, u64),
    from: u64,
) -> (seq: u64)
    requires
        t.contents.contains_key((k.0, from)),
        crate::snapshot::status_of(st, t.contents[(k.0, from)].header.xmin) != TxnStatus::Aborted,
    ensures
        super::heap_reads::resumes_at(t, st, k.0, seq),
    decreases u64::MAX - from,
{
    if super::heap_reads::resumes_at(t, st, k.0, from) {
        from
    } else {
        let s = choose|s: u64| #[trigger]
            t.contents.contains_key((k.0, s)) && crate::snapshot::status_of(
                st,
                t.contents[(k.0, s)].header.xmin,
            ) != TxnStatus::Aborted && s > from;
        lemma_newest(t, st, k, s)
    }
}

} // verus!
