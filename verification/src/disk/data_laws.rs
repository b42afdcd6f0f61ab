//! What the data file holds changes nothing of what an open gives back: the redo of the journal over a
//! part of its own outcome leaves the whole of it.

use vstd::prelude::*;

use super::catalogue::{catalogue_of, CatalogueModel};
use super::catalogue_laws::law_definitions_may_be_replayed;
use super::control::Control;
use super::contents::{sound, StoredModel};
use super::data::{contents_in, short_held, DataModel};
use super::durability::{pruned, recoverable};
use super::heap_reads::short_record;
use super::instance_laws::{
    defines, law_reopened_instance_is_durable, lemma_redo_succeeds, lemma_table_id,
};
use super::journal::{JournalModel, MarkModel};
use super::ledger::{
    accounts, committed, numbered, project, record_of, standing, stands_behind, writes_key, Ledger,
};
use super::open::{
    blank_redo, index_unbuilt, leaves_unfit, open_error, recovered, redo_failed, redo_stops,
    replay_error, rows_unfit, tells, tells_alone, undefined_at,
};
use super::recover::{has_kind, is_cancelled, is_row, payload_ok, takes_back, Recovery};
use super::redo::{
    change_key, is_previous, numbers, previous, redone, replayed, replays, with_hidden,
    with_version, Redone,
};
use super::reopening::{
    committed_records, lemma_kept, lemma_redo_by_table, lemma_redo_dom, lemma_redone_fits,
    reads_alike,
};
use super::savepoint_laws::{
    lemma_columns_told, lemma_created_is_there, lemma_hidden_alike, lemma_not_cancelled,
    lemma_takes_same, works,
};
use super::shapes::{shape_ok, DiskOptions};
use super::storage::{DiskModel, DiskStorage};
use super::table_model::HeapTableModel;
use super::told::{rebuildable, told, writer_told};
use super::redo_laws::{creates, grows, same_below, same_row};
use super::version::xmax_of;
use super::wal::{journal_records, tail_ok, RecordModel, WalRecordKind};
use super::wal_payload::{change_of, ChangeModel};
use crate::error::{Bug, InternalError};
use crate::ids::{SavepointId, TableId, TxnId};
use crate::snapshot::TxnStatus;

verus! {

/// Whether every version of `c` is in `d`, the same or not yet hidden.
pub open spec fn part_of(
    c: Map<(u64, u64), StoredModel>,
    d: Map<(u64, u64), StoredModel>,
) -> bool {
    forall|k: (u64, u64)| #[trigger]
        c.contains_key(k) ==> d.contains_key(k) && (c[k] == d[k] || c[k] == d[k].with_xmax(None))
}

/// Whether what `g` holds beyond `c` comes from `base`.
spec fn beyond(
    c: Map<(u64, u64), StoredModel>,
    g: Map<(u64, u64), StoredModel>,
    base: Map<(u64, u64), StoredModel>,
) -> bool {
    forall|k: (u64, u64)| #[trigger]
        g.contains_key(k) && !c.contains_key(k) ==> base.contains_key(k) && (g[k].header.xmax is None
            ==> base[k].header.xmax is None)
}

/// Hiding a version in both keeps one a part of the outcome the other leads to.
proof fn lemma_hide_both(
    c: Map<(u64, u64), StoredModel>,
    g: Map<(u64, u64), StoredModel>,
    e: Map<(u64, u64), StoredModel>,
    base: Map<(u64, u64), StoredModel>,
    k: (u64, u64),
    txn: TxnId,
)
    requires
        c.contains_key(k),
        grows(c, g),
        part_of(g, e),
        beyond(c, g, base),
        part_of(with_hidden(c, k, txn), e),
    ensures
        grows(with_hidden(c, k, txn), with_hidden(g, k, txn)),
        part_of(with_hidden(g, k, txn), e),
        beyond(with_hidden(c, k, txn), with_hidden(g, k, txn), base),
        with_hidden(c, k, txn).dom() == c.dom(),
        with_hidden(g, k, txn).dom() == g.dom(),
{
    let d = with_hidden(c, k, txn);
    let h = with_hidden(g, k, txn);
    assert(g.contains_key(k));
    assert(d.dom() =~= c.dom());
    assert(h.dom() =~= g.dom());
    assert(d.contains_key(k));
    assert(e.contains_key(k));
    if g[k].header.xmax is None && xmax_of(txn.0) is None {
        assert(c[k].with_xmax(None) =~= c[k]);
        assert(g[k].with_xmax(None) =~= g[k]);
    } else if g[k].header.xmax is None {
        assert(c[k].header.xmax is None);
        assert(d[k].header.xmax == Some(txn));
        assert(d[k] == e[k]);
        assert(g[k] == e[k].with_xmax(None));
        assert(h[k] =~= e[k]);
    }
    assert forall|q: (u64, u64)| #[trigger] h.contains_key(q) implies e.contains_key(q) && (h[q]
        == e[q] || h[q] == e[q].with_xmax(None)) by {
        assert(g.contains_key(q));
    }
    assert forall|q: (u64, u64)| #[trigger] d.contains_key(q) implies h.contains_key(q) && (
    d[q].header.xmax is Some ==> h[q].header.xmax is Some) by {
        assert(c.contains_key(q));
    }
    assert forall|q: (u64, u64)| #[trigger] h.contains_key(q) && !d.contains_key(q) implies
        base.contains_key(q) && (h[q].header.xmax is None ==> base[q].header.xmax is None) by {
        assert(g.contains_key(q) && !c.contains_key(q));
    }
}

/// Writing a version in both keeps one a part of the outcome the other leads to.
proof fn lemma_write_both(
    c: Map<(u64, u64), StoredModel>,
    g: Map<(u64, u64), StoredModel>,
    e: Map<(u64, u64), StoredModel>,
    base: Map<(u64, u64), StoredModel>,
    change: ChangeModel,
)
    requires
        grows(c, g),
        part_of(g, e),
        beyond(c, g, base),
        part_of(with_version(c, change), e),
        base.contains_key(change_key(change)) && base[change_key(change)].header.xmax is None
            ==> change.header.xmax is None,
    ensures
        grows(with_version(c, change), with_version(g, change)),
        part_of(with_version(g, change), e),
        beyond(with_version(c, change), with_version(g, change), base),
{
    let key = change_key(change);
    let d = with_version(c, change);
    let h = with_version(g, change);
    assert(d.contains_key(key));
    assert forall|q: (u64, u64)| #[trigger] h.contains_key(q) implies e.contains_key(q) && (h[q]
        == e[q] || h[q] == e[q].with_xmax(None)) by {
        if !g.contains_key(q) {
            assert(q == key);
            assert(!c.contains_key(key));
            assert(h[q] == d[q]);
        }
    }
    assert forall|q: (u64, u64)| #[trigger] d.contains_key(q) implies h.contains_key(q) && (
    d[q].header.xmax is Some ==> h[q].header.xmax is Some) by {
        if !c.contains_key(q) {
            assert(q == key);
        }
    }
    assert forall|q: (u64, u64)| #[trigger] h.contains_key(q) && !d.contains_key(q) implies
        base.contains_key(q) && (h[q].header.xmax is None ==> base[q].header.xmax is None) by {
        assert(q != key);
        assert(g.contains_key(q) && !c.contains_key(q));
    }
}

/// The version before a serial is the same in both.
proof fn lemma_previous_same(
    c: Map<(u64, u64), StoredModel>,
    g: Map<(u64, u64), StoredModel>,
    row: u64,
    seq: u64,
)
    requires
        same_below(c, g, row, seq),
    ensures
        previous(c, row, seq) == previous(g, row, seq),
        previous(c, row, seq) matches Some(p) ==> c.contains_key((row, p)),
{
    assert forall|p: u64| is_previous(c, row, seq, p) <==> is_previous(g, row, seq, p) by {
        if is_previous(c, row, seq, p) {
            assert(c.contains_key((row, p)));
            assert forall|q: u64| q < seq && #[trigger] g.contains_key((row, q)) implies q <= p by {
                assert(c.contains_key((row, q)));
            }
        }
        if is_previous(g, row, seq, p) {
            assert(g.contains_key((row, p)));
            assert(c.contains_key((row, p)));
            assert forall|q: u64| q < seq && #[trigger] c.contains_key((row, q)) implies q <= p by {
                assert(g.contains_key((row, q)));
            }
        }
    }
    if previous(c, row, seq) is Some {
        let p = previous(c, row, seq)->0;
        assert(is_previous(c, row, seq, p));
        let o = previous(g, row, seq)->0;
        assert(is_previous(g, row, seq, p));
        assert(is_previous(g, row, seq, o));
        assert(g.contains_key((row, o)) && g.contains_key((row, p)));
    } else if previous(g, row, seq) is Some {
        let o = previous(g, row, seq)->0;
        assert(is_previous(g, row, seq, o));
    }
}

/// Replaying a record in both keeps one a part of the outcome the other leads to.
proof fn lemma_replay_both(
    c: Map<(u64, u64), StoredModel>,
    g: Map<(u64, u64), StoredModel>,
    e: Map<(u64, u64), StoredModel>,
    base: Map<(u64, u64), StoredModel>,
    kind: WalRecordKind,
    change: ChangeModel,
    txn: TxnId,
)
    requires
        grows(c, g),
        part_of(g, e),
        beyond(c, g, base),
        replayed(c, kind, change, txn) is Some,
        part_of((replayed(c, kind, change, txn)->0).0, e),
        kind == WalRecordKind::Update ==> same_below(
            c,
            g,
            change_key(change).0,
            change_key(change).1,
        ),
        kind == WalRecordKind::Insert || kind == WalRecordKind::Update ==> (base.contains_key(
            change_key(change),
        ) && base[change_key(change)].header.xmax is None ==> change.header.xmax is None),
    ensures
        replayed(g, kind, change, txn) is Some,
        ({
            let d = (replayed(c, kind, change, txn)->0).0;
            let h = (replayed(g, kind, change, txn)->0).0;
            &&& grows(d, h)
            &&& part_of(h, e)
            &&& beyond(d, h, base)
        }),
{
    let key = change_key(change);
    match kind {
        WalRecordKind::Insert => {
            lemma_write_both(c, g, e, base, change);
        },
        WalRecordKind::Update => {
            lemma_previous_same(c, g, key.0, key.1);
            match previous(c, key.0, key.1) {
                Some(p) => {
                    let k = (key.0, p);
                    let d = with_hidden(c, k, txn);
                    assert(part_of(d, e)) by {
                        let w = with_version(d, change);
                        assert(part_of(w, e));
                        assert forall|q: (u64, u64)| #[trigger] d.contains_key(q) implies
                            e.contains_key(q) && (d[q] == e[q] || d[q] == e[q].with_xmax(None)) by {
                            assert(w.contains_key(q) && w[q] == d[q]);
                        }
                    }
                    lemma_hide_both(c, g, e, base, k, txn);
                    lemma_write_both(d, with_hidden(g, k, txn), e, base, change);
                },
                None => {
                    lemma_write_both(c, g, e, base, change);
                },
            }
        },
        _ => {
            lemma_hide_both(c, g, e, base, key, txn);
        },
    }
}

/// Whether the versions the journal creates on each row of `tables` come in increasing order of
/// serial.
pub open spec fn ordered_in(
    records: Seq<RecordModel>,
    winners: Set<u64>,
    cancelled: Set<u64>,
    tables: Set<u64>,
) -> bool {
    forall|i: int, j: int|
        #![trigger records[i], records[j]]
        0 <= i < j < records.len() && creates(records[i], winners, cancelled) && creates(
            records[j],
            winners,
            cancelled,
        ) && same_row(records[i], records[j]) && tables.contains(
            change_of(records[i].payload).table.0 as u64,
        ) ==> change_of(records[i].payload).header.seq < change_of(records[j].payload).header.seq
}

/// A part of a part is a part.
proof fn lemma_part_trans(
    a: Map<(u64, u64), StoredModel>,
    b: Map<(u64, u64), StoredModel>,
    c: Map<(u64, u64), StoredModel>,
)
    requires
        part_of(a, b),
        part_of(b, c),
    ensures
        part_of(a, c),
{
    assert forall|k: (u64, u64)| #[trigger] a.contains_key(k) implies c.contains_key(k) && (a[k]
        == c[k] || a[k] == c[k].with_xmax(None)) by {
        assert(b.contains_key(k));
        assert(c[k].with_xmax(None).with_xmax(None) =~= c[k].with_xmax(None));
    }
}

/// What a record leaves has what was there as a part, and adds at most the version it names.
proof fn lemma_replay_adds(
    c: Map<(u64, u64), StoredModel>,
    kind: WalRecordKind,
    change: ChangeModel,
    txn: TxnId,
)
    requires
        replayed(c, kind, change, txn) is Some,
    ensures
        ({
            let d = (replayed(c, kind, change, txn)->0).0;
            &&& part_of(c, d)
            &&& forall|k: (u64, u64)| #[trigger]
                d.contains_key(k) && !c.contains_key(k) ==> k == change_key(change) && (kind
                    == WalRecordKind::Insert || kind == WalRecordKind::Update)
        }),
{
    let key = change_key(change);
    let d = (replayed(c, kind, change, txn)->0).0;
    if kind == WalRecordKind::Update && previous(c, key.0, key.1) is Some {
        let p = previous(c, key.0, key.1)->0;
        assert(is_previous(c, key.0, key.1, p));
        assert(c.contains_key((key.0, p)));
    }
    assert forall|k: (u64, u64)| #[trigger] c.contains_key(k) implies d.contains_key(k) && (c[k]
        == d[k] || c[k] == d[k].with_xmax(None)) by {
        if c[k] != d[k] {
            assert(c[k].header.xmax is None);
            assert(d[k].with_xmax(None) =~= c[k]);
        }
    }
}

/// Between two points of a redo every table has what it held as a part, and what it gained was created
/// in between.
proof fn lemma_parts_between(
    s: Redone,
    records: Seq<RecordModel>,
    m: int,
    n: int,
    winners: Set<u64>,
    cancelled: Set<u64>,
)
    requires
        0 <= m <= n <= records.len(),
        redone(s, records, n, winners, cancelled) is Some,
    ensures
        redone(s, records, m, winners, cancelled) is Some,
        ({
            let a = redone(s, records, m, winners, cancelled)->0;
            let b = redone(s, records, n, winners, cancelled)->0;
            &&& a.tables.dom() == b.tables.dom()
            &&& forall|t: u64| #[trigger]
                a.tables.contains_key(t) ==> part_of(a.tables[t], b.tables[t])
            &&& forall|t: u64, k: (u64, u64)|
                #![trigger b.tables[t].contains_key(k)]
                a.tables.contains_key(t) && b.tables[t].contains_key(k)
                    && !a.tables[t].contains_key(k) ==> exists|j: int|
                    m <= j < n && creates(#[trigger] records[j], winners, cancelled) && change_of(
                        records[j].payload,
                    ).table.0 as u64 == t && change_key(change_of(records[j].payload)) == k
        }),
    decreases n - m,
{
    if m < n {
        let mid = redone(s, records, n - 1, winners, cancelled);
        assert(mid is Some);
        lemma_parts_between(s, records, m, n - 1, winners, cancelled);
        let a = redone(s, records, m, winners, cancelled)->0;
        let x = mid->0;
        let b = redone(s, records, n, winners, cancelled)->0;
        let r = records[n - 1];
        let t0 = change_of(r.payload).table.0 as u64;
        if replays(r, winners, cancelled) && x.tables.contains_key(t0) {
            lemma_replay_adds(x.tables[t0], r.kind, change_of(r.payload), r.txn);
            assert(b.tables.dom() =~= x.tables.dom());
        } else {
            assert(b.tables == x.tables);
        }
        assert forall|t: u64| #[trigger] a.tables.contains_key(t) implies part_of(
            a.tables[t],
            b.tables[t],
        ) by {
            assert(x.tables.dom().contains(t));
            if t == t0 && replays(r, winners, cancelled) {
                lemma_part_trans(a.tables[t], x.tables[t], b.tables[t]);
            }
        }
        assert forall|t: u64, k: (u64, u64)|
            #![trigger b.tables[t].contains_key(k)]
            a.tables.contains_key(t) && b.tables[t].contains_key(k) && !a.tables[t].contains_key(
                k,
            ) implies exists|j: int|
            m <= j < n && creates(#[trigger] records[j], winners, cancelled) && change_of(
                records[j].payload,
            ).table.0 as u64 == t && change_key(change_of(records[j].payload)) == k by {
            assert(x.tables.dom().contains(t));
            if x.tables[t].contains_key(k) {
                let j = choose|j: int|
                    m <= j < n - 1 && creates(#[trigger] records[j], winners, cancelled)
                        && change_of(records[j].payload).table.0 as u64 == t && change_key(
                        change_of(records[j].payload),
                    ) == k;
                assert(creates(records[j], winners, cancelled));
            } else {
                assert(t == t0);
                assert(creates(records[n - 1], winners, cancelled));
            }
        }
    } else {
        let a = redone(s, records, m, winners, cancelled)->0;
        assert forall|t: u64| #[trigger] a.tables.contains_key(t) implies part_of(
            a.tables[t],
            a.tables[t],
        ) by {}
    }
}

/// Whether a version that `base` holds and nobody hid there was created without a mark.
pub open spec fn plain_in(
    base: Map<u64, Map<(u64, u64), StoredModel>>,
    records: Seq<RecordModel>,
    winners: Set<u64>,
    cancelled: Set<u64>,
) -> bool {
    forall|j: int|
        0 <= j < records.len() && creates(#[trigger] records[j], winners, cancelled) ==> {
            let change = change_of(records[j].payload);
            let t = change.table.0 as u64;
            let k = change_key(change);
            base.contains_key(t) && base[t].contains_key(k) && base[t][k].header.xmax is None
                ==> change.header.xmax is None
        }
}

/// The redo over a part of the outcome, up to a point.
proof fn lemma_redo_over_part(
    s: Redone,
    b: Redone,
    records: Seq<RecordModel>,
    m: int,
    winners: Set<u64>,
    cancelled: Set<u64>,
)
    requires
        0 <= m <= records.len(),
        redone(s, records, records.len() as int, winners, cancelled) is Some,
        s.tables.dom() == b.tables.dom(),
        forall|t: u64| #[trigger]
            s.tables.contains_key(t) ==> s.tables[t] == Map::<(u64, u64), StoredModel>::empty(),
        forall|t: u64| #[trigger]
            b.tables.contains_key(t) ==> part_of(
                b.tables[t],
                (redone(s, records, records.len() as int, winners, cancelled)->0).tables[t],
            ),
        ordered_in(records, winners, cancelled, s.tables.dom()),
        plain_in(b.tables, records, winners, cancelled),
    ensures
        redone(s, records, m, winners, cancelled) is Some,
        redone(b, records, m, winners, cancelled) is Some,
        ({
            let c = redone(s, records, m, winners, cancelled)->0;
            let g = redone(b, records, m, winners, cancelled)->0;
            let f = redone(s, records, records.len() as int, winners, cancelled)->0;
            &&& g.tables.dom() == s.tables.dom()
            &&& c.tables.dom() == s.tables.dom()
            &&& forall|t: u64| #[trigger]
                s.tables.contains_key(t) ==> {
                    &&& grows(c.tables[t], g.tables[t])
                    &&& part_of(g.tables[t], f.tables[t])
                    &&& beyond(c.tables[t], g.tables[t], b.tables[t])
                }
        }),
    decreases m,
{
    let n = records.len() as int;
    let f = redone(s, records, n, winners, cancelled)->0;
    if m == 0 {
        assert forall|t: u64| #[trigger] s.tables.contains_key(t) implies grows(
            s.tables[t],
            b.tables[t],
        ) && part_of(b.tables[t], f.tables[t]) && beyond(s.tables[t], b.tables[t], b.tables[t]) by {
            assert(b.tables.dom().contains(t));
            assert(b.tables.contains_key(t));
        }
        lemma_parts_between(s, records, 0, n, winners, cancelled);
    } else {
        lemma_redo_over_part(s, b, records, m - 1, winners, cancelled);
        lemma_parts_between(s, records, m, n, winners, cancelled);
        lemma_parts_between(s, records, m - 1, n, winners, cancelled);
        let c = redone(s, records, m - 1, winners, cancelled)->0;
        let g = redone(b, records, m - 1, winners, cancelled)->0;
        let d = redone(s, records, m, winners, cancelled)->0;
        let r = records[m - 1];
        let change = change_of(r.payload);
        let key = change_key(change);
        let t0 = change.table.0 as u64;
        assert(c.tables.dom().contains(t0) <==> s.tables.dom().contains(t0));
        assert(g.tables.dom().contains(t0) <==> s.tables.dom().contains(t0));
        if replays(r, winners, cancelled) && s.tables.contains_key(t0) {
            let x = c.tables[t0];
            let y = g.tables[t0];
            let e = f.tables[t0];
            if r.kind == WalRecordKind::Update {
                assert forall|q: u64| q < key.1 implies (#[trigger] x.contains_key((key.0, q))
                    <==> y.contains_key((key.0, q))) by {
                    let k = (key.0, q);
                    if x.contains_key(k) {
                        assert(y.contains_key(k));
                    }
                    if y.contains_key(k) && !x.contains_key(k) {
                        assert(e.contains_key(k));
                        let j = choose|j: int|
                            m - 1 <= j < n && creates(#[trigger] records[j], winners, cancelled)
                                && change_of(records[j].payload).table.0 as u64 == t0 && change_key(
                                change_of(records[j].payload),
                            ) == k;
                        assert(j != m - 1);
                        assert(creates(records[m - 1], winners, cancelled));
                        assert(same_row(records[m - 1], records[j]));
                    }
                }
            }
            assert(part_of(d.tables[t0], e)) by {
                assert(d.tables.dom().contains(t0));
            }
            assert(d.tables[t0] == (replayed(x, r.kind, change, r.txn)->0).0);
            assert(r.kind == WalRecordKind::Insert || r.kind == WalRecordKind::Update ==> creates(
                records[m - 1],
                winners,
                cancelled,
            ));
            assert(b.tables.contains_key(t0)) by {
                assert(b.tables.dom().contains(t0));
            }
            lemma_replay_both(x, y, e, b.tables[t0], r.kind, change, r.txn);
        }
        let h = redone(b, records, m, winners, cancelled)->0;
        assert(h.tables.dom() =~= s.tables.dom());
        assert(d.tables.dom() =~= s.tables.dom());
        assert forall|t: u64| #[trigger] s.tables.contains_key(t) implies grows(
            d.tables[t],
            h.tables[t],
        ) && part_of(h.tables[t], f.tables[t]) && beyond(d.tables[t], h.tables[t], b.tables[t]) by {
            if !(t == t0 && replays(r, winners, cancelled)) {
                assert(d.tables[t] == c.tables[t]);
                assert(h.tables[t] == g.tables[t]);
            }
        }
    }
}

/// The redo of a journal over a part of what it leaves leaves the whole of it: what a heap already
/// holds is skipped, and the rest is written.
pub proof fn law_redo_over_a_part_leaves_the_whole(
    s: Redone,
    b: Redone,
    records: Seq<RecordModel>,
    winners: Set<u64>,
    cancelled: Set<u64>,
)
    requires
        redone(s, records, records.len() as int, winners, cancelled) is Some,
        s.tables.dom() == b.tables.dom(),
        forall|t: u64| #[trigger]
            s.tables.contains_key(t) ==> s.tables[t] == Map::<(u64, u64), StoredModel>::empty(),
        forall|t: u64| #[trigger]
            b.tables.contains_key(t) ==> part_of(
                b.tables[t],
                (redone(s, records, records.len() as int, winners, cancelled)->0).tables[t],
            ),
        ordered_in(records, winners, cancelled, s.tables.dom()),
        plain_in(b.tables, records, winners, cancelled),
    ensures
        redone(b, records, records.len() as int, winners, cancelled) matches Some(g)
            && g.tables == (redone(
            s,
            records,
            records.len() as int,
            winners,
            cancelled,
        )->0).tables,
        forall|m: int|
            0 <= m <= records.len() ==> #[trigger] redone(b, records, m, winners, cancelled) is Some,
{
    let n = records.len() as int;
    lemma_redo_over_part(s, b, records, n, winners, cancelled);
    let f = redone(s, records, n, winners, cancelled)->0;
    let g = redone(b, records, n, winners, cancelled)->0;
    assert forall|t: u64| #[trigger] f.tables.contains_key(t) implies g.tables.contains_key(t)
        && g.tables[t] == f.tables[t] by {
        assert(f.tables.dom().contains(t));
        assert(s.tables.contains_key(t));
        let a = f.tables[t];
        let c = g.tables[t];
        assert forall|k: (u64, u64)| #[trigger] a.contains_key(k) implies c.contains_key(k) && c[k]
            == a[k] by {
            if c[k] != a[k] {
                assert(a[k].with_xmax(None) =~= a[k] || a[k].header.xmax is Some);
            }
        }
        assert(c =~= a);
    }
    assert(g.tables =~= f.tables);
    assert forall|m: int| 0 <= m <= records.len() implies #[trigger] redone(
        b,
        records,
        m,
        winners,
        cancelled,
    ) is Some by {
        lemma_redo_over_part(s, b, records, m, winners, cancelled);
    }
}

/// Whether `past` is an earlier state of the journal `j`: its records come first, what was over stays
/// as it ended, and writes nothing more and takes nothing back.
pub open spec fn comes_before(past: JournalModel, j: JournalModel) -> bool {
    let n = past.log.len() as int;
    &&& n <= j.log.len()
    &&& forall|k: int| 0 <= k < n ==> #[trigger] j.log[k] == past.log[k]
    &&& forall|x: TxnId| #[trigger]
        past.finished(x) ==> j.txns.contains_key(x.0) && j.txns[x.0].status
            == past.txns[x.0].status
    &&& forall|k: int|
        n <= k < j.log.len() && works(#[trigger] j.log[k]) ==> !past.finished(j.log[k].txn)
}

/// Whether a version of a table reached the data file in an earlier, durable state of an instance,
/// the transactions it names having committed.
pub open spec fn written_back(
    past: DiskModel,
    horizon: TxnId,
    m: DiskModel,
    t: u64,
    k: (u64, u64),
    v: StoredModel,
) -> bool {
    &&& past.durable(horizon)
    &&& comes_before(past.journal, m.journal)
    &&& past.tables.contains_key(t)
    &&& past.rows_of(t).contents.contains_key(k)
    &&& past.rows_of(t).contents[k] == v
    &&& committed(past.journal, v.header.xmin)
    &&& v.header.xmax is Some ==> committed(past.journal, v.header.xmax->0)
}

/// Whether the data file of an instance holds what it may: the definitions as they were at some record
/// of the journal, and of each table versions that reached it in earlier states, the transactions they
/// name having committed by then.
pub open spec fn held_by(data: DataModel, m: DiskModel) -> bool {
    &&& data.wf()
    &&& exists|d: int|
        0 <= d <= m.journal.log.len() && #[trigger] catalogue_of(m.journal.log, d) == Some(
            data.catalogue,
        )
    &&& forall|t: u64| #[trigger]
        data.heaps.contains_key(t) ==> {
            &&& sound(data.heaps[t].records)
            &&& data.heaps[t].next + m.journal.log.len() <= u64::MAX
        }
    &&& forall|t: u64, k: (u64, u64)|
        #![trigger contents_in(data.heaps, t).contains_key(k)]
        m.tables.contains_key(t) && contents_in(data.heaps, t).contains_key(k) ==> exists|
            past: DiskModel,
            horizon: TxnId,
        | #[trigger]
            written_back(past, horizon, m, t, k, contents_in(data.heaps, t)[k])
}

/// A record taken back in an earlier state stays taken back.
proof fn lemma_cancelled_later(past: JournalModel, j: JournalModel, l: u64)
    requires
        comes_before(past, j),
        numbered(past.log),
        is_cancelled(past.log, past.log.len() as int, l),
    ensures
        is_cancelled(j.log, j.log.len() as int, l),
{
    let (k, i) = choose|k: int, i: int|
        0 <= k < past.log.len() && #[trigger] takes_back(past.log, k, i) && past.log[i].lsn.0 == l;
    assert(past.log[k].lsn.0 == k + 1 && past.log[i].lsn.0 == i + 1);
    assert forall|x: int| 0 <= x <= k implies #[trigger] past.log[x] == j.log[x] by {}
    lemma_takes_same(past.log, j.log, k, i);
    assert(j.log[i] == past.log[i]);
}

/// A record of a transaction that was over, not taken back then, is never taken back.
proof fn lemma_never_cancelled(past: JournalModel, j: JournalModel, l: u64)
    requires
        comes_before(past, j),
        numbered(j.log),
        1 <= l <= past.log.len(),
        past.finished(record_of(past.log, l).txn),
        is_cancelled(j.log, j.log.len() as int, l),
    ensures
        is_cancelled(past.log, past.log.len() as int, l),
{
    let n = past.log.len() as int;
    let (k, i) = choose|k: int, i: int|
        0 <= k < j.log.len() && #[trigger] takes_back(j.log, k, i) && j.log[i].lsn.0 == l;
    assert(j.log[k].lsn.0 == k + 1 && j.log[i].lsn.0 == i + 1);
    assert(j.log[i] == past.log[i]);
    if k < n {
        assert forall|x: int| 0 <= x <= k implies #[trigger] j.log[x] == past.log[x] by {}
        lemma_takes_same(j.log, past.log, k, i);
    } else {
        assert(works(j.log[k]));
    }
}

/// A version that reached the data file is in the table, its record standing.
proof fn lemma_back_is_there(
    fp: HeapTableModel,
    past: JournalModel,
    gp: Ledger,
    full: HeapTableModel,
    j: JournalModel,
    g: Ledger,
    k: (u64, u64),
)
    requires
        accounts(fp, past, gp),
        told(fp, past, gp),
        accounts(full, j, g),
        told(full, j, g),
        fp.table == full.table,
        comes_before(past, j),
        fp.contents.contains_key(k),
        committed(past, fp.contents[k].header.xmin),
    ensures
        full.contents.contains_key(k),
        g.born[k] == gp.born[k],
        full.contents[k].header.xmin == fp.contents[k].header.xmin,
        committed(j, fp.contents[k].header.xmin),
        full.contents[k].columns == fp.contents[k].columns,
        fp.contents[k].header.xmax is None ==> change_of(
            record_of(j.log, g.born[k]).payload,
        ).header.xmax is None,
{
    let l = gp.born[k];
    let x = fp.contents[k].header.xmin;
    lemma_not_cancelled(fp, past, gp, k);
    assert(past.finished(x));
    assert(j.log[l - 1] == past.log[l - 1]);
    if is_cancelled(j.log, j.log.len() as int, l) {
        lemma_never_cancelled(past, j, l);
    }
    assert(standing(j, x));
    lemma_created_is_there(full, j, g, l, k);
    lemma_columns_told(fp, past, gp, k);
    lemma_columns_told(full, j, g, k);
}

/// What hid a version that reached the data file hides it in the table.
proof fn lemma_back_is_hidden(
    fp: HeapTableModel,
    past: JournalModel,
    gp: Ledger,
    full: HeapTableModel,
    j: JournalModel,
    g: Ledger,
    k: (u64, u64),
)
    requires
        accounts(fp, past, gp),
        told(fp, past, gp),
        accounts(full, j, g),
        told(full, j, g),
        fp.table == full.table,
        comes_before(past, j),
        fp.contents.contains_key(k),
        full.contents.contains_key(k),
        fp.contents[k].header.xmax is Some,
        committed(past, fp.contents[k].header.xmax->0),
    ensures
        full.contents[k].header.xmax == fp.contents[k].header.xmax,
        g.hid.contains_key(k),
        stands_behind(full, g, g.hid[k]),
        record_of(j.log, g.hid[k]).txn == fp.contents[k].header.xmax->0,
        committed(j, fp.contents[k].header.xmax->0),
{
    let y = fp.contents[k].header.xmax->0;
    assert(gp.hid.contains_key(k));
    let l = gp.hid[k];
    lemma_not_cancelled(fp, past, gp, k);
    assert(past.finished(y));
    assert(j.log[l - 1] == past.log[l - 1]);
    if is_cancelled(j.log, j.log.len() as int, l) {
        lemma_never_cancelled(past, j, l);
    }
    assert(standing(j, y));
    assert forall|v: (u64, u64)| #[trigger]
        full.contents.contains_key(v) && v.0 == k.0 && g.born[v] < l && (
        full.contents[v].header.xmin == record_of(past.log, l).txn || committed(
            j,
            full.contents[v].header.xmin,
        )) implies fp.contents.contains_key(v) && gp.born[v] == g.born[v] by {
        let b = g.born[v];
        let x = full.contents[v].header.xmin;
        lemma_not_cancelled(full, j, g, v);
        assert(j.log[b - 1] == past.log[b - 1]);
        if is_cancelled(past.log, past.log.len() as int, b) {
            lemma_cancelled_later(past, j, b);
        }
        assert(is_row(past.log[b - 1].kind));
        assert(writer_told(past, x.0));
        assert(standing(past, x)) by {
            if past.txns[x.0].status == TxnStatus::Aborted {
                assert(past.finished(x));
            }
        }
        lemma_created_is_there(fp, past, gp, b, v);
    }
    lemma_hidden_alike(fp, past, gp, full, j, g, k);
}

/// What the data file holds of a table is a part of what the redo of the journal leaves in it, and what
/// is not hidden there was created without a mark.
proof fn lemma_held_is_part(
    data: DataModel,
    m: DiskModel,
    full: HeapTableModel,
    g: Ledger,
    t: u64,
    k: (u64, u64),
)
    requires
        held_by(data, m),
        m.wf(),
        m.tables.contains_key(t),
        accounts(full, m.journal, g),
        told(full, m.journal, g),
        full.table == m.rows_of(t).table,
        contents_in(data.heaps, t).contains_key(k),
    ensures
        ({
            let c = project(full.contents, g, committed_records(full, m.journal, g));
            let v = contents_in(data.heaps, t)[k];
            &&& c.contains_key(k)
            &&& v == c[k] || v == c[k].with_xmax(None)
            &&& full.contents.contains_key(k)
            &&& v.header.xmax is None ==> change_of(
                record_of(m.journal.log, g.born[k]).payload,
            ).header.xmax is None
        }),
{
    let v = contents_in(data.heaps, t)[k];
    let j = m.journal;
    let (past, h) = choose|past: DiskModel, h: TxnId| #[trigger]
        written_back(past, h, m, t, k, v);
    assert(written_back(past, h, m, t, k, v));
    let p = past.rows_of(t);
    assert(recoverable(p, past.journal, h));
    let fp = choose|fp: HeapTableModel| #[trigger]
        rebuildable(fp, past.journal) && pruned(fp, p, past.journal, h);
    let gp = choose|gp: Ledger| #[trigger]
        accounts(fp, past.journal, gp) && told(fp, past.journal, gp);
    assert(fp.contents.contains_key(k) && fp.contents[k] == v);
    assert(fp.table == full.table) by {
        assert(past.tables[t].store.table.0 as u64 == t);
        assert(m.tables[t].store.table.0 as u64 == t);
    }
    lemma_back_is_there(fp, past.journal, gp, full, j, g, k);
    let w = full.contents[k];
    let ours = committed_records(full, j, g);
    assert(stands_behind(full, g, g.born[k]));
    assert(ours.contains(g.born[k]));
    assert(w.key() == k && v.key() == k);
    assert(v.with_xmax(w.header.xmax) =~= w);
    if v.header.xmax is Some {
        lemma_back_is_hidden(fp, past.journal, gp, full, j, g, k);
        assert(ours.contains(g.hid[k]));
        assert(v =~= w);
    } else {
        assert(v =~= w.with_xmax(None));
        assert(w.with_xmax(None).with_xmax(None) =~= w.with_xmax(None));
    }
}

/// A record that a recovery replays in a table of a durable instance stands behind it.
proof fn lemma_replayed_stands(
    full: HeapTableModel,
    j: JournalModel,
    g: Ledger,
    control: Control,
    r: Recovery,
    i: int,
)
    requires
        accounts(full, j, g),
        told(full, j, g),
        recovered(j.log, control, r),
        0 <= i < j.log.len(),
        creates(j.log[i], numbers(r.winners@), r.cancelled@),
        change_of(j.log[i].payload).table == full.table,
    ensures
        full.contents.contains_key(change_key(change_of(j.log[i].payload))),
        g.born[change_key(change_of(j.log[i].payload))] == i + 1,
{
    let rec = j.log[i];
    let l = (i + 1) as u64;
    let x = rec.txn;
    assert(rec.lsn.0 == l);
    assert(record_of(j.log, l) == rec);
    assert(numbers(r.winners@).contains(x.0));
    assert(r.winners@.contains(TxnId(x.0)));
    assert(has_kind(j.log, WalRecordKind::Commit, x.0));
    let c = choose|c: int|
        0 <= c < j.log.len() && (#[trigger] j.log[c]).kind == WalRecordKind::Commit
            && j.log[c].txn.0 == x.0;
    assert(j.log[c].kind == WalRecordKind::Commit);
    assert(committed(j, x));
    assert(standing(j, x));
    assert(payload_ok(j.log[i]));
    assert(!is_cancelled(j.log, j.log.len() as int, l)) by {
        assert(!r.cancelled@.contains(l));
    }
    let k = change_key(change_of(rec.payload));
    assert(writes_key(j.log, full.table, l, rec.kind, k));
    lemma_created_is_there(full, j, g, l, k);
}

/// The ledger of a table of a durable instance.
proof fn lemma_ledger(m: DiskModel, horizon: TxnId, t: u64) -> (fg: (HeapTableModel, Ledger))
    requires
        m.durable(horizon),
        m.tables.contains_key(t),
    ensures
        accounts(fg.0, m.journal, fg.1),
        told(fg.0, m.journal, fg.1),
        fg.0.table == m.rows_of(t).table,
        fg.0.table.0 as u64 == t,
{
    let u = m.rows_of(t);
    assert(recoverable(u, m.journal, horizon));
    let full = choose|full: HeapTableModel| #[trigger]
        rebuildable(full, m.journal) && pruned(full, u, m.journal, horizon);
    let g = choose|g: Ledger| #[trigger] accounts(full, m.journal, g) && told(full, m.journal, g);
    lemma_table_id(m, t);
    (full, g)
}

/// The redo of the journal of a durable instance over what its data file holds leaves what it leaves
/// on empty heaps.
proof fn lemma_redo_over_data(m: DiskModel, data: DataModel, horizon: TxnId, r: Recovery)
    requires
        m.durable(horizon),
        held_by(data, m),
        recovered(m.journal.log, m.control, r),
    ensures
        ({
            let log = m.journal.log;
            let n = log.len() as int;
            let won = numbers(r.winners@);
            let c = m.catalogue();
            &&& data.defines(log, n) == Some(c)
            &&& redone(blank_redo(c), log, n, won, r.cancelled@) is Some
            &&& redone(data.redo_start(c), log, n, won, r.cancelled@) matches Some(z) && z.tables
                == (redone(blank_redo(c), log, n, won, r.cancelled@)->0).tables
            &&& forall|i: int|
                0 <= i <= n ==> #[trigger] redone(
                    data.redo_start(c),
                    log,
                    i,
                    won,
                    r.cancelled@,
                ) is Some
        }),
{
    let j = m.journal;
    let log = j.log;
    let n = log.len() as int;
    let won = numbers(r.winners@);
    let out = r.cancelled@;
    let c = m.catalogue();
    let s = blank_redo(c);
    let b = data.redo_start(c);
    law_definitions_may_be_replayed(log, data.catalogue);
    lemma_redo_succeeds(m, horizon, r);
    let f = redone(s, log, n, won, out)->0;
    assert(s.tables.dom() =~= b.tables.dom());
    assert forall|t: u64| #[trigger] b.tables.contains_key(t) implies part_of(
        b.tables[t],
        f.tables[t],
    ) by {
        assert(c.tables.contains_key(t));
        assert(m.tables.contains_key(t));
        let (full, g) = lemma_ledger(m, horizon, t);
        lemma_kept(full, j, g, m.control, r);
        lemma_redo_by_table(c, log, n, won, out, full.table);
        assert forall|k: (u64, u64)| #[trigger] b.tables[t].contains_key(k) implies
            f.tables[t].contains_key(k) && (b.tables[t][k] == f.tables[t][k] || b.tables[t][k]
            == f.tables[t][k].with_xmax(None)) by {
            assert(contents_in(data.heaps, t).contains_key(k));
            lemma_held_is_part(data, m, full, g, t, k);
        }
    }
    assert(ordered_in(log, won, out, s.tables.dom())) by {
        assert forall|i: int, k: int|
            #![trigger log[i], log[k]]
            0 <= i < k < log.len() && creates(log[i], won, out) && creates(log[k], won, out)
                && same_row(log[i], log[k]) && s.tables.dom().contains(
                change_of(log[i].payload).table.0 as u64,
            ) implies change_of(log[i].payload).header.seq < change_of(
            log[k].payload,
        ).header.seq by {
            let t = change_of(log[i].payload).table.0 as u64;
            assert(m.tables.contains_key(t));
            let (full, g) = lemma_ledger(m, horizon, t);
            lemma_replayed_stands(full, j, g, m.control, r, i);
            lemma_replayed_stands(full, j, g, m.control, r, k);
            let a = change_key(change_of(log[i].payload));
            let d = change_key(change_of(log[k].payload));
            assert(full.contents.contains_key(a) && full.contents.contains_key(d));
            assert(full.contents.contains_key(d) && full.contents.contains_key(a));
        }
    }
    assert(plain_in(b.tables, log, won, out)) by {
        assert forall|i: int| 0 <= i < log.len() && creates(#[trigger] log[i], won, out) implies {
            let change = change_of(log[i].payload);
            let t = change.table.0 as u64;
            let k = change_key(change);
            b.tables.contains_key(t) && b.tables[t].contains_key(k)
                && b.tables[t][k].header.xmax is None ==> change.header.xmax is None
        } by {
            let change = change_of(log[i].payload);
            let t = change.table.0 as u64;
            let k = change_key(change);
            if b.tables.contains_key(t) && b.tables[t].contains_key(k)
                && b.tables[t][k].header.xmax is None {
                assert(m.tables.contains_key(t));
                let (full, g) = lemma_ledger(m, horizon, t);
                lemma_replayed_stands(full, j, g, m.control, r, i);
                assert(contents_in(data.heaps, t).contains_key(k));
                lemma_held_is_part(data, m, full, g, t, k);
                assert(record_of(log, (i + 1) as u64) == log[i]);
            }
        }
    }
    law_redo_over_a_part_leaves_the_whole(s, b, log, won, out);
}

/// What the data file holds changes nothing of what an open gives back: the instance is the one the
/// records of the journal tell by themselves.
pub proof fn law_data_changes_nothing(
    m: DiskModel,
    data: DataModel,
    horizon: TxnId,
    s: DiskStorage,
)
    requires
        m.durable(horizon),
        held_by(data, m),
        tells(data, m.journal.log, m.control, s),
    ensures
        tells_alone(m.journal.log, m.control, s),
{
    lemma_redo_over_data(m, data, horizon, s.recovery);
}

/// Opening a durable instance over its data file gives back its definitions and its committed rows, and
/// the instance it gives is durable in its turn.
pub proof fn law_instance_opened_over_its_data_is_durable(
    m: DiskModel,
    data: DataModel,
    horizon: TxnId,
    s: DiskStorage,
)
    requires
        m.durable(horizon),
        held_by(data, m),
        s.wf(),
        tells(data, m.journal.log, m.control, s),
        s@.journal.next_savepoint_id == 0,
    ensures
        s@.durable(TxnId(0)),
        s@.catalogue() == m.catalogue(),
        forall|t: u64| #[trigger]
            m.tables.contains_key(t) ==> s@.tables.contains_key(t) && reads_alike(
                m.rows_of(t),
                m.journal,
                s@.rows_of(t),
                s@.journal,
                horizon,
            ),
{
    law_data_changes_nothing(m, data, horizon, s);
    law_reopened_instance_is_durable(m, horizon, s);
}

/// A journal comes before itself.
proof fn lemma_comes_before_itself(j: JournalModel)
    ensures
        comes_before(j, j),
{
}

/// What a checkpoint leaves in the data file is what the file of the instance may hold: opened over it,
/// the instance gives back its definitions and its committed rows.
pub proof fn law_flushed_data_is_held(m: DiskModel, horizon: TxnId, held: DataModel, data: DataModel)
    requires
        m.durable(horizon),
        held_by(held, m),
        m.flushes(held, data),
        data.wf(),
        forall|t: u64| #[trigger]
            m.tables.contains_key(t) ==> m.tables[t].store.next + m.journal.log.len() <= u64::MAX,
    ensures
        held_by(data, m),
{
    let log = m.journal.log;
    let n = log.len() as int;
    law_definitions_may_be_replayed(log, held.catalogue);
    assert(catalogue_of(log, n) == Some(data.catalogue));
    assert forall|t: u64| #[trigger] data.heaps.contains_key(t) implies {
        &&& sound(data.heaps[t].records)
        &&& data.heaps[t].next + m.journal.log.len() <= u64::MAX
    } by {
        assert(m.tables.contains_key(t));
        assert(m.tables[t].store.wf());
    }
    lemma_comes_before_itself(m.journal);
    assert forall|t: u64, k: (u64, u64)|
        #![trigger contents_in(data.heaps, t).contains_key(k)]
        m.tables.contains_key(t) && contents_in(data.heaps, t).contains_key(k) implies exists|
        past: DiskModel,
        earlier: TxnId,
    | #[trigger] written_back(past, earlier, m, t, k, contents_in(data.heaps, t)[k]) by {
        if m.table_settled(t) {
            assert(contents_in(data.heaps, t) == m.rows_of(t).contents);
            assert(written_back(m, horizon, m, t, k, contents_in(data.heaps, t)[k]));
        } else {
            assert(contents_in(held.heaps, t).contains_key(k));
        }
    }
}

/// The definitions of the records two journals share are the same.
proof fn lemma_shared_definitions(a: Seq<RecordModel>, b: Seq<RecordModel>, n: int)
    requires
        0 <= n <= a.len(),
        n <= b.len(),
        forall|k: int| 0 <= k < n ==> #[trigger] a[k] == b[k],
    ensures
        catalogue_of(a, n) == catalogue_of(b, n),
    decreases n,
{
    if n > 0 {
        lemma_shared_definitions(a, b, n - 1);
        assert(a[n - 1] == b[n - 1]);
    }
}

/// What comes before a journal comes before every later one.
proof fn lemma_comes_before_later(past: JournalModel, j: JournalModel, later: JournalModel)
    requires
        comes_before(past, j),
        comes_before(j, later),
    ensures
        comes_before(past, later),
{
    assert forall|k: int| 0 <= k < past.log.len() implies #[trigger] later.log[k] == past.log[k] by {
        assert(j.log[k] == past.log[k]);
    }
    assert forall|x: TxnId| #[trigger] past.finished(x) implies later.txns.contains_key(x.0)
        && later.txns[x.0].status == past.txns[x.0].status by {
        assert(j.finished(x));
    }
    assert forall|k: int|
        past.log.len() <= k < later.log.len() && works(
            #[trigger] later.log[k],
        ) implies !past.finished(later.log[k].txn) by {
        let x = later.log[k].txn;
        if k < j.log.len() {
            assert(later.log[k] == j.log[k]);
        }
        if past.finished(x) {
            assert(j.finished(x));
        }
    }
}

/// A journal comes before the one that a transaction still running leaves: by a write, an end, a
/// savepoint or a rollback to one.
pub proof fn law_a_transaction_goes_on_from_a_journal(
    j: JournalModel,
    txn: TxnId,
    table: TableId,
    kind: WalRecordKind,
    payload: Seq<u8>,
    mark: MarkModel,
    sp: SavepointId,
    i: int,
)
    requires
        !j.finished(txn),
    ensures
        comes_before(j, j.noted(txn, table)),
        comes_before(j, j.begun(txn, table)),
        comes_before(j, j.begun(txn, table).logged(kind, txn, payload)),
        comes_before(j, j.ended(txn, kind)),
        comes_before(j, j.savepoint_logged(txn).with_mark(txn, mark)),
        comes_before(j, j.rollback_logged(txn, sp)),
        comes_before(j, j.rollback_logged(txn, sp).marks_cut(txn, i)),
{
}

/// A journal comes before the one that a definition or a checkpoint leaves.
pub proof fn law_a_definition_goes_on_from_a_journal(
    j: JournalModel,
    kind: WalRecordKind,
    payload: Seq<u8>,
)
    requires
        defines(kind) || kind == WalRecordKind::Checkpoint,
    ensures
        comes_before(j, j.logged(kind, TxnId(0), payload).flushed()),
{
}

/// What the data file of an instance holds, it may hold as long as the instance goes on writing its
/// journal.
pub proof fn law_held_data_stays_held(m: DiskModel, later: DiskModel, data: DataModel)
    requires
        held_by(data, m),
        comes_before(m.journal, later.journal),
        forall|t: u64| #[trigger]
            data.heaps.contains_key(t) ==> {
                &&& data.heaps[t].next + later.journal.log.len() <= u64::MAX
                &&& later.tables.contains_key(t) ==> m.tables.contains_key(t)
            },
    ensures
        held_by(data, later),
{
    let d = choose|d: int|
        0 <= d <= m.journal.log.len() && #[trigger] catalogue_of(m.journal.log, d) == Some(
            data.catalogue,
        );
    lemma_shared_definitions(m.journal.log, later.journal.log, d);
    assert forall|t: u64, k: (u64, u64)|
        #![trigger contents_in(data.heaps, t).contains_key(k)]
        later.tables.contains_key(t) && contents_in(data.heaps, t).contains_key(k) implies exists|
        past: DiskModel,
        earlier: TxnId,
    | #[trigger] written_back(past, earlier, later, t, k, contents_in(data.heaps, t)[k]) by {
        assert(data.heaps.contains_key(t));
        let v = contents_in(data.heaps, t)[k];
        let (past, earlier) = choose|past: DiskModel, earlier: TxnId| #[trigger]
            written_back(past, earlier, m, t, k, v);
        lemma_comes_before_later(past.journal, m.journal, later.journal);
        assert(written_back(past, earlier, later, t, k, v));
    }
}

/// A data file without pages is one an instance may have.
pub proof fn law_no_data_is_held(m: DiskModel)
    ensures
        held_by(DataModel::empty(), m),
{
    let data = DataModel::empty();
    assert(catalogue_of(m.journal.log, 0) == Some(data.catalogue));
    assert forall|t: u64, k: (u64, u64)| !(#[trigger] contents_in(data.heaps, t).contains_key(k)) by {}
}

/// Definitions that stopped reading stay unread.
proof fn lemma_no_definitions(data: DataModel, log: Seq<RecordModel>, k: int, n: int)
    requires
        0 <= k <= n,
        data.defines(log, k) is None,
    ensures
        data.defines(log, n) is None,
    decreases n - k,
{
    if k < n {
        lemma_no_definitions(data, log, k, n - 1);
    }
}

/// A durable instance opens again after a crash, over its data file and whatever unfinished append the
/// crash left behind: the one error left is that of an index that cannot be built over the rows.
pub proof fn law_durable_instance_opens_again(
    m: DiskModel,
    data: DataModel,
    horizon: TxnId,
    options: DiskOptions,
    bytes: Seq<u8>,
    e: InternalError,
)
    requires
        m.durable(horizon),
        held_by(data, m),
        options.buffer_pages > 0,
        tail_ok(bytes),
        journal_records(bytes) == m.journal.log,
        m.journal.log.len() < u64::MAX,
        open_error(options, m.control, data, bytes, e),
    ensures
        index_unbuilt(data, m.journal.log, m.control, e),
{
    let log = m.journal.log;
    let n = log.len() as int;
    let c = m.catalogue();
    assert(catalogue_of(log, n) == Some(c));
    law_definitions_may_be_replayed(log, data.catalogue);
    assert(data.defines(log, n) == Some(c));
    assert(c.storable()) by {
        assert forall|t: u64| #[trigger] c.tables.contains_key(t) implies shape_ok(
            c.tables[t].shape,
        ) by {
            assert(m.tables.contains_key(t));
        }
        assert forall|x: u64| #[trigger] c.indexes.contains_key(x) implies c.index_fits(x) by {
            assert(m.indexes.contains_key(x));
            assert(m.has_table(m.indexes[x].table));
        }
    }
    if replay_error(data, log, m.control, e) {
        lemma_replays(m, data, horizon, e);
    }
    if rows_unfit(data, log, m.control, e) {
        let (r, d, s, t, k) = choose|r: Recovery, d: CatalogueModel, s: Redone, t: u64, k: (u64, u64)|
            #[trigger] leaves_unfit(data, log, m.control, r, d, s, t, k) && e == InternalError::Bug(
                Bug::SerialsExhausted(d.tables[t].table),
            );
        lemma_redo_over_data(m, data, horizon, r);
        let z = redone(blank_redo(c), log, n, numbers(r.winners@), r.cancelled@)->0;
        lemma_redo_dom(c, log, n, numbers(r.winners@), r.cancelled@);
        assert(z.tables.dom().contains(t));
        assert(m.tables.contains_key(t));
        lemma_table_id(m, t);
        lemma_redone_fits(m.rows_of(t), m.journal, horizon, m.control, r, c, z, k);
    }
}

/// The journal of a durable instance can be replayed over its data file.
proof fn lemma_replays(m: DiskModel, data: DataModel, horizon: TxnId, e: InternalError)
    requires
        m.durable(horizon),
        held_by(data, m),
        m.catalogue().storable(),
        data.defines(m.journal.log, m.journal.log.len() as int) == Some(m.catalogue()),
        m.journal.log.len() < u64::MAX,
    ensures
        !replay_error(data, m.journal.log, m.control, e),
{
    let log = m.journal.log;
    let n = log.len() as int;
    let c = m.catalogue();
    if exists|k: int| #[trigger] undefined_at(data, log, k, e) {
        let k = choose|k: int| #[trigger] undefined_at(data, log, k, e);
        lemma_no_definitions(data, log, k + 1, n);
    }
    if short_held(data.heaps, c, e) {
        let t = choose|t: u64| #[trigger]
            data.heaps.contains_key(t) && c.tables.contains_key(t) && short_record(
                data.heaps[t].records,
                e,
            );
        assert(sound(data.heaps[t].records));
    }
    if redo_failed(data, log, m.control, e) {
        let (r, d, i) = choose|r: Recovery, d: CatalogueModel, i: int|
            recovered(log, m.control, r) && #[trigger] redo_stops(
                data,
                log,
                d,
                numbers(r.winners@),
                r.cancelled@,
                i,
                e,
            );
        lemma_redo_over_data(m, data, horizon, r);
        assert(redone(data.redo_start(c), log, i + 1, numbers(r.winners@), r.cancelled@) is Some);
    }
}

} // verus!
