//! The redo may repeat what a heap already holds: it is idempotent.

use vstd::prelude::*;

use super::contents::StoredModel;
use super::redo::{
    change_key, is_previous, previous, redone, replayed, replays, with_previous_hidden,
    with_version, Redone,
};
use super::version::NO_XMAX;
use super::wal::{RecordModel, WalRecordKind};
use super::wal_payload::{change_of, ChangeModel};
use crate::ids::TxnId;

verus! {

/// Whether the redo writes a version for a record.
pub open spec fn creates(r: RecordModel, winners: Set<u64>, cancelled: Set<u64>) -> bool {
    replays(r, winners, cancelled) && (r.kind == WalRecordKind::Insert || r.kind
        == WalRecordKind::Update)
}

/// Whether two records describe the same row of the same table.
pub open spec fn same_row(a: RecordModel, b: RecordModel) -> bool {
    change_of(a.payload).table == change_of(b.payload).table && change_of(a.payload).header.row
        == change_of(b.payload).header.row
}

/// Whether the versions the journal creates on each row come in increasing order of serial, as
/// the tables hand the serials out.
pub open spec fn in_serial_order(
    records: Seq<RecordModel>,
    winners: Set<u64>,
    cancelled: Set<u64>,
) -> bool {
    forall|i: int, j: int|
        #![trigger records[i], records[j]]
        0 <= i < j < records.len() && creates(records[i], winners, cancelled) && creates(
            records[j],
            winners,
            cancelled,
        ) && same_row(records[i], records[j]) ==> change_of(records[i].payload).header.seq
            < change_of(records[j].payload).header.seq
}

/// Whether every version of `c` is in `d`, still hidden where it was hidden.
pub open spec fn grows(
    c: Map<(u64, u64), StoredModel>,
    d: Map<(u64, u64), StoredModel>,
) -> bool {
    forall|key: (u64, u64)| #[trigger]
        c.contains_key(key) ==> d.contains_key(key) && (c[key].header.xmax is Some
            ==> d[key].header.xmax is Some)
}

/// Whether `c` and `d` hold the same serials of `row` below `seq`.
pub open spec fn same_below(
    c: Map<(u64, u64), StoredModel>,
    d: Map<(u64, u64), StoredModel>,
    row: u64,
    seq: u64,
) -> bool {
    forall|q: u64| q < seq ==> (#[trigger] c.contains_key((row, q)) <==> d.contains_key((row, q)))
}

/// What hiding the version before `seq` keeps.
proof fn lemma_previous_hidden(
    c: Map<(u64, u64), StoredModel>,
    row: u64,
    seq: u64,
    txn: TxnId,
)
    requires
        txn.0 != NO_XMAX,
    ensures
        ({
            let d = with_previous_hidden(c, row, seq, txn);
            &&& d.dom() == c.dom()
            &&& grows(c, d)
            &&& previous(c, row, seq) matches Some(p) ==> d.contains_key((row, p)) && d[(
                row,
                p,
            )].header.xmax is Some
        }),
{
    let d = with_previous_hidden(c, row, seq, txn);
    match previous(c, row, seq) {
        Some(p) => {
            assert(is_previous(c, row, seq, p));
            assert(d.dom() =~= c.dom());
        },
        None => {},
    }
}

/// One replayed record makes its table grow, and adds at most the version it names.
proof fn lemma_replayed_grows(
    c: Map<(u64, u64), StoredModel>,
    kind: WalRecordKind,
    r: RecordModel,
)
    requires
        r.txn.0 != NO_XMAX,
        replayed(c, kind, change_of(r.payload), r.txn) is Some,
    ensures
        ({
            let d = (replayed(c, kind, change_of(r.payload), r.txn)->0).0;
            let key = change_key(change_of(r.payload));
            &&& grows(c, d)
            &&& forall|k: (u64, u64)|
                #[trigger] d.contains_key(k) && !c.contains_key(k) ==> k == key && (kind
                    == WalRecordKind::Insert || kind == WalRecordKind::Update)
        }),
{
    let change = change_of(r.payload);
    let key = change_key(change);
    if kind == WalRecordKind::Update {
        lemma_previous_hidden(c, key.0, key.1, r.txn);
        let m = with_previous_hidden(c, key.0, key.1, r.txn);
        let d = with_version(m, change);
        assert forall|k: (u64, u64)| #[trigger] d.contains_key(k) && !c.contains_key(k) implies k
            == key by {
            assert(m.dom().contains(k) <==> c.dom().contains(k));
        }
        assert(grows(c, d)) by {
            assert forall|k: (u64, u64)| #[trigger] c.contains_key(k) implies d.contains_key(k) && (
            c[k].header.xmax is Some ==> d[k].header.xmax is Some) by {
                assert(m.contains_key(k));
            }
        }
    }
}

/// Between two points of a redo every table grows, and the serials of a row below `seq` stay the
/// same where no record in between creates one.
proof fn lemma_between(
    s: Redone,
    records: Seq<RecordModel>,
    m: int,
    n: int,
    winners: Set<u64>,
    cancelled: Set<u64>,
)
    requires
        0 <= m <= n <= records.len(),
        !winners.contains(NO_XMAX),
        redone(s, records, n, winners, cancelled) is Some,
    ensures
        redone(s, records, m, winners, cancelled) is Some,
        ({
            let a = redone(s, records, m, winners, cancelled)->0;
            let b = redone(s, records, n, winners, cancelled)->0;
            &&& a.tables.dom() == b.tables.dom()
            &&& forall|t: u64| #[trigger]
                a.tables.contains_key(t) ==> grows(a.tables[t], b.tables[t])
            &&& forall|t: u64, k: (u64, u64)|
                #![trigger b.tables[t].contains_key(k)]
                a.tables.contains_key(t) && b.tables[t].contains_key(k)
                    && !a.tables[t].contains_key(k) ==> exists|j: int|
                    m <= j < n && creates(#[trigger] records[j], winners, cancelled) && change_of(
                        records[j].payload,
                    ).table.0 as u64 == t && change_key(change_of(records[j].payload)) == k
        }),
    decreases n - m,
{
    if m < n {
        let mid = redone(s, records, n - 1, winners, cancelled);
        assert(mid is Some);
        lemma_between(s, records, m, n - 1, winners, cancelled);
        let a = redone(s, records, m, winners, cancelled)->0;
        let x = mid->0;
        let b = redone(s, records, n, winners, cancelled)->0;
        let r = records[n - 1];
        let t0 = change_of(r.payload).table.0 as u64;
        if replays(r, winners, cancelled) && x.tables.contains_key(t0) {
            lemma_replayed_grows(x.tables[t0], r.kind, r);
            assert(b.tables.dom() =~= x.tables.dom());
        } else {
            assert(b.tables == x.tables);
        }
        assert forall|t: u64| #[trigger] a.tables.contains_key(t) implies grows(
            a.tables[t],
            b.tables[t],
        ) by {
            assert(grows(a.tables[t], x.tables[t]));
            assert(x.tables.dom().contains(t));
            assert(grows(x.tables[t], b.tables[t]));
        }
        assert forall|t: u64, k: (u64, u64)|
            #![trigger b.tables[t].contains_key(k)]
            a.tables.contains_key(t) && b.tables[t].contains_key(k) && !a.tables[t].contains_key(
                k,
            ) implies exists|j: int|
            m <= j < n && creates(#[trigger] records[j], winners, cancelled) && change_of(
                records[j].payload,
            ).table.0 as u64 == t && change_key(change_of(records[j].payload)) == k by {
            assert(x.tables.dom().contains(t));
            if x.tables[t].contains_key(k) {
                let j = choose|j: int|
                    m <= j < n - 1 && creates(#[trigger] records[j], winners, cancelled)
                        && change_of(records[j].payload).table.0 as u64 == t && change_key(
                        change_of(records[j].payload),
                    ) == k;
                assert(creates(records[j], winners, cancelled));
            } else {
                assert(t == t0);
                assert(creates(records[n - 1], winners, cancelled));
            }
        }
    }
}

/// Replaying a record on the outcome of the whole redo changes nothing.
proof fn lemma_again(
    s: Redone,
    records: Seq<RecordModel>,
    m: int,
    winners: Set<u64>,
    cancelled: Set<u64>,
)
    requires
        0 <= m < records.len(),
        !winners.contains(NO_XMAX),
        in_serial_order(records, winners, cancelled),
        redone(s, records, records.len() as int, winners, cancelled) is Some,
        replays(records[m], winners, cancelled),
        (redone(s, records, records.len() as int, winners, cancelled)->0).tables.contains_key(
            change_of(records[m].payload).table.0 as u64,
        ),
    ensures
        ({
            let f = (redone(s, records, records.len() as int, winners, cancelled)->0).tables[
                change_of(records[m].payload).table.0 as u64];
            replayed(f, records[m].kind, change_of(records[m].payload), records[m].txn) == Some(
                (f, false),
            )
        }),
{
    let n = records.len() as int;
    let r = records[m];
    let change = change_of(r.payload);
    let t = change.table.0 as u64;
    let key = change_key(change);
    lemma_between(s, records, m + 1, n, winners, cancelled);
    lemma_between(s, records, m, m + 1, winners, cancelled);
    let a = redone(s, records, m, winners, cancelled)->0;
    let b = redone(s, records, m + 1, winners, cancelled)->0;
    let f = redone(s, records, n, winners, cancelled)->0;
    assert(b.tables.dom().contains(t));
    assert(a.tables.dom().contains(t));
    let c = a.tables[t];
    let d = b.tables[t];
    let e = f.tables[t];
    assert(grows(d, e));
    assert(d == (replayed(c, r.kind, change, r.txn)->0).0);
    match r.kind {
        WalRecordKind::Insert => {
            assert(d.contains_key(key));
        },
        WalRecordKind::Update => {
            assert(d.contains_key(key));
            lemma_previous_hidden(c, key.0, key.1, r.txn);
            let h = with_previous_hidden(c, key.0, key.1, r.txn);
            assert(same_below(c, e, key.0, key.1)) by {
                assert forall|q: u64| q < key.1 implies (#[trigger] c.contains_key((key.0, q))
                    <==> e.contains_key((key.0, q))) by {
                    let k = (key.0, q);
                    assert(h.dom().contains(k) <==> c.dom().contains(k));
                    if c.contains_key(k) {
                        assert(d.contains_key(k));
                    }
                    if e.contains_key(k) && !d.contains_key(k) {
                        let j = choose|j: int|
                            m + 1 <= j < n && creates(#[trigger] records[j], winners, cancelled)
                                && change_of(records[j].payload).table.0 as u64 == t && change_key(
                                change_of(records[j].payload),
                            ) == k;
                        assert(same_row(records[m], records[j]));
                        assert(creates(records[m], winners, cancelled));
                    }
                }
            }
            match previous(c, key.0, key.1) {
                Some(p) => {
                    assert(is_previous(c, key.0, key.1, p));
                    assert(is_previous(e, key.0, key.1, p));
                    let o = choose|o: u64| is_previous(e, key.0, key.1, o);
                    assert(is_previous(e, key.0, key.1, o));
                    assert(o == p);
                    assert(d.contains_key((key.0, p)));
                    assert(d[(key.0, p)].header.xmax is Some) by {
                        assert(h.contains_key((key.0, p)));
                    }
                    assert(with_previous_hidden(e, key.0, key.1, r.txn) == e);
                },
                None => {
                    assert forall|p: u64| !is_previous(e, key.0, key.1, p) by {
                        if is_previous(e, key.0, key.1, p) {
                            assert(c.contains_key((key.0, p)));
                            assert forall|q: u64| q < key.1 && #[trigger] c.contains_key(
                                (key.0, q),
                            ) implies q <= p by {
                                assert(e.contains_key((key.0, q)));
                            }
                            assert(is_previous(c, key.0, key.1, p));
                        }
                    }
                },
            }
        },
        _ => {
            assert(c.contains_key(key));
            assert(d.contains_key(key) && d[key].header.xmax is Some);
        },
    }
}

/// The redo is idempotent: over what a redo left, the same records write nothing, and every
/// version of every table stays as it is.
pub proof fn law_redo_is_idempotent(
    s: Redone,
    records: Seq<RecordModel>,
    winners: Set<u64>,
    cancelled: Set<u64>,
)
    requires
        !winners.contains(NO_XMAX),
        in_serial_order(records, winners, cancelled),
        redone(s, records, records.len() as int, winners, cancelled) is Some,
    ensures
        ({
            let t = redone(s, records, records.len() as int, winners, cancelled)->0;
            let again = redone(
                Redone { tables: t.tables, applied: 0, skipped: 0, unplaced: 0 },
                records,
                records.len() as int,
                winners,
                cancelled,
            );
            &&& again matches Some(u)
            &&& u.tables == t.tables
            &&& u.applied == 0
        }),
{
    lemma_nothing_new(s, records, records.len() as int, winners, cancelled);
}

proof fn lemma_nothing_new(
    s: Redone,
    records: Seq<RecordModel>,
    m: int,
    winners: Set<u64>,
    cancelled: Set<u64>,
)
    requires
        0 <= m <= records.len(),
        !winners.contains(NO_XMAX),
        in_serial_order(records, winners, cancelled),
        redone(s, records, records.len() as int, winners, cancelled) is Some,
    ensures
        ({
            let t = redone(s, records, records.len() as int, winners, cancelled)->0;
            let again = redone(
                Redone { tables: t.tables, applied: 0, skipped: 0, unplaced: 0 },
                records,
                m,
                winners,
                cancelled,
            );
            &&& again matches Some(u)
            &&& u.tables == t.tables
            &&& u.applied == 0
        }),
    decreases m,
{
    let t = redone(s, records, records.len() as int, winners, cancelled)->0;
    let start = Redone { tables: t.tables, applied: 0, skipped: 0, unplaced: 0 };
    if m > 0 {
        lemma_nothing_new(s, records, m - 1, winners, cancelled);
        let u = redone(start, records, m - 1, winners, cancelled)->0;
        let r = records[m - 1];
        let table = change_of(r.payload).table.0 as u64;
        if replays(r, winners, cancelled) {
            lemma_between(s, records, m, records.len() as int, winners, cancelled);
            lemma_between(s, records, m - 1, m, winners, cancelled);
            if t.tables.contains_key(table) {
                lemma_again(s, records, m - 1, winners, cancelled);
                assert(t.tables.insert(table, t.tables[table]) =~= t.tables);
            }
        }
    }
}

/// A version that is written is held as its change says it, and one that is held is not written over:
/// writing it a second time changes nothing.
pub proof fn law_written_version_is_held(c: Map<(u64, u64), StoredModel>, change: ChangeModel)
    ensures
        with_version(c, change).contains_key(change_key(change)),
        !c.contains_key(change_key(change)) ==> with_version(c, change)[change_key(change)]
            == (StoredModel { header: change.header, columns: change.columns }),
        c.contains_key(change_key(change)) ==> with_version(c, change) == c,
        with_version(with_version(c, change), change) == with_version(c, change),
{
}

} // verus!
