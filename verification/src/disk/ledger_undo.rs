//! An undo takes back exactly what the write did, never fails on a table the journal accounts
//! for, and leaves the journal accounting for it; so does the end of a transaction.

use vstd::prelude::*;

use super::journal::JournalModel;
use super::ledger::{
    accounts, admissible, backed, chained, committed, entry_backed, project, record_of,
    replays_back, rows_given, stands_behind, standing, table_redo, undo_backed, writes_key, Ledger,
};
use super::redo::{change_key, is_previous};
use super::table_model::{latest, HeapTableModel, RowUndo};
use super::wal::WalRecordKind;
use super::wal_payload::change_of;
use crate::ids::TxnId;

verus! {

/// The ledger once the last record of a running transaction is taken back, and with it what it
/// hid.
pub open spec fn without_last(g: Ledger, txn: TxnId, shown: Option<(u64, u64)>) -> Ledger {
    Ledger {
        hid: match shown {
            Some(k) => g.hid.remove(k),
            None => g.hid,
        },
        alive: g.alive.insert(txn.0, g.alive_of(txn).drop_last()),
        ..g
    }
}

/// The version an undo entry made current.
proof fn lemma_tail(t: HeapTableModel, j: JournalModel, g: Ledger, txn: TxnId, key: (u64, u64))
    requires
        accounts(t, j, g),
        g.alive_of(txn).len() > 0,
        t.contents.contains_key(key),
        g.born[key] == g.alive_of(txn).last(),
    ensures
        t.current.contains_key(key.0),
        t.current[key.0] == key.1,
        t.contents[key].header.xmin == txn,
        t.contents[key].header.xmax is None,
        !g.hid.contains_key(key),
{
    let n = g.alive_of(txn).len() - 1;
    let l = g.alive_of(txn)[n];
    assert(record_of(j.log, l).txn == txn);
    assert(!committed(j, txn));
    let cur = (key.0, t.current[key.0]);
    assert(t.contents.contains_key(cur));
    if cur.1 > key.1 {
        assert(t.contents.contains_key(key) && t.contents.contains_key(cur));
        assert(t.contents[cur].header.xmin == txn);
        assert(g.alive_of(txn).contains(g.born[cur]));
        let a = choose|a: int| 0 <= a < g.alive_of(txn).len() && g.alive_of(txn)[a] == g.born[cur];
        if a < n {
            assert(g.alive_of(txn)[a] < g.alive_of(txn)[n]);
        }
    }
    if g.hid.contains_key(key) {
        assert(g.alive_of(txn).contains(g.hid[key]));
        let a = choose|a: int| 0 <= a < g.alive_of(txn).len() && g.alive_of(txn)[a] == g.hid[key];
        if a < n {
            assert(g.alive_of(txn)[a] < g.alive_of(txn)[n]);
        }
    }
}

/// A record is not the last one of a transaction if another version stands on it.
proof fn lemma_still_alive(g: Ledger, txn: TxnId, x: u64)
    requires
        g.alive_of(txn).len() > 0,
        g.alive_of(txn).contains(x),
        x != g.alive_of(txn).last(),
    ensures
        g.alive_of(txn).drop_last().contains(x),
{
    let a = choose|a: int| 0 <= a < g.alive_of(txn).len() && g.alive_of(txn)[a] == x;
    assert(g.alive_of(txn).drop_last()[a] == x);
}

/// The common part of every undo: the last record of `txn` stands behind nothing any more, and
/// what remains is as it was. A version stays, but for what the last record created; it stays
/// hidden, but for what the last record hid.
spec fn taken_back(
    t: HeapTableModel,
    j: JournalModel,
    g: Ledger,
    txn: TxnId,
    u: HeapTableModel,
    h: Ledger,
) -> bool {
    &&& accounts(t, j, g)
    &&& g.alive_of(txn).len() > 0
    &&& u.whole()
    &&& rows_given(u)
    &&& u.table == t.table
    &&& u.writes_of(txn) == t.writes_of(txn).drop_last()
    &&& forall|x: TxnId| x != txn ==> #[trigger] u.writes_of(x) == t.writes_of(x)
    &&& h.born == g.born
    &&& h.replaced == g.replaced
    &&& h.alive_of(txn) == g.alive_of(txn).drop_last()
    &&& forall|x: TxnId| x != txn ==> #[trigger] h.alive_of(x) == g.alive_of(x)
    &&& forall|k: (u64, u64)| #[trigger]
        u.contents.contains_key(k) <==> t.contents.contains_key(k) && g.born[k] != g.alive_of(
            txn,
        ).last()
    &&& forall|k: (u64, u64)| #[trigger]
        h.hid.contains_key(k) <==> g.hid.contains_key(k) && g.hid[k] != g.alive_of(txn).last()
    &&& forall|k: (u64, u64)| #[trigger] h.hid.contains_key(k) ==> h.hid[k] == g.hid[k]
    &&& forall|k: (u64, u64)| #[trigger]
        u.contents.contains_key(k) ==> u.contents[k] == if h.hid.contains_key(k) {
            t.contents[k]
        } else {
            t.contents[k].with_xmax(None)
        }
    &&& forall|k: (u64, u64)| #[trigger]
        u.contents.contains_key(k) ==> u.current.contains_key(k.0) && k.1 <= u.current[k.0]
}

proof fn lemma_taken_back_backed(
    t: HeapTableModel,
    j: JournalModel,
    g: Ledger,
    txn: TxnId,
    u: HeapTableModel,
    h: Ledger,
)
    requires
        taken_back(t, j, g, txn, u, h),
    ensures
        backed(u, j, h),
{
    let last = g.alive_of(txn).last();
    let n = g.alive_of(txn).len() - 1;
    assert(g.alive_of(txn)[n] == last);
    // What the last record created was not hidden, so what is hidden stays.
    assert forall|k: (u64, u64)| #[trigger] h.hid.contains_key(k) implies u.contents.contains_key(
        k,
    ) by {
        assert(g.hid.contains_key(k));
        assert(t.contents.contains_key(k));
        if g.born[k] == last {
            lemma_tail(t, j, g, txn, k);
        }
    }
    assert forall|k: (u64, u64)| #[trigger] u.contents.contains_key(k) implies {
        let r = record_of(j.log, h.born[k]);
        &&& writes_key(j.log, u.table, h.born[k], WalRecordKind::Insert, k) || writes_key(
            j.log,
            u.table,
            h.born[k],
            WalRecordKind::Update,
            k,
        )
        &&& r.txn == u.contents[k].header.xmin
        &&& standing(j, r.txn)
        &&& (u.contents[k].header.xmax is Some <==> h.hid.contains_key(k))
        &&& !committed(j, r.txn) ==> h.alive_of(r.txn).contains(h.born[k])
    } by {
        assert(t.contents.contains_key(k));
        let r = record_of(j.log, g.born[k]);
        if r.txn == txn && !committed(j, r.txn) {
            lemma_still_alive(g, txn, g.born[k]);
        }
        if h.hid.contains_key(k) {
            assert(g.hid.contains_key(k));
        }
    }
    assert forall|k: (u64, u64)| #[trigger] h.hid.contains_key(k) implies {
        let r = record_of(j.log, h.hid[k]);
        let xmin = u.contents[k].header.xmin;
        &&& u.contents.contains_key(k)
        &&& u.contents[k].header.xmax == Some(r.txn)
        &&& standing(j, r.txn)
        &&& h.born[k] < h.hid[k]
        &&& xmin == r.txn || committed(j, xmin)
        &&& !committed(j, r.txn) ==> h.alive_of(r.txn).contains(h.hid[k])
        &&& ({
            ||| writes_key(j.log, u.table, h.hid[k], WalRecordKind::Delete, k) && u.current[k.0]
                == k.1
            ||| {
                let next = change_key(change_of(r.payload));
                &&& writes_key(j.log, u.table, h.hid[k], WalRecordKind::Update, next)
                &&& next.0 == k.0 && k.1 < next.1
                &&& u.contents.contains_key(next) && h.born[next] == h.hid[k]
                &&& h.replaced.contains_key(h.hid[k]) && h.replaced[h.hid[k]] == k
            }
        })
    } by {
        assert(g.hid.contains_key(k));
        assert(u.contents.contains_key(k));
        let r = record_of(j.log, g.hid[k]);
        if r.txn == txn && !committed(j, r.txn) {
            lemma_still_alive(g, txn, g.hid[k]);
        }
        if writes_key(j.log, t.table, g.hid[k], WalRecordKind::Delete, k) && t.current[k.0]
            == k.1 {
            assert(k.1 <= u.current[k.0]);
            assert(u.contents.contains_key((k.0, u.current[k.0])));
            assert(t.contents.contains_key((k.0, u.current[k.0])));
        }
    }
}

proof fn lemma_taken_back_chained(
    t: HeapTableModel,
    j: JournalModel,
    g: Ledger,
    txn: TxnId,
    u: HeapTableModel,
    h: Ledger,
)
    requires
        taken_back(t, j, g, txn, u, h),
    ensures
        chained(u, j, h),
{
    let last = g.alive_of(txn).last();
    let n = g.alive_of(txn).len() - 1;
    assert(g.alive_of(txn)[n] == last);
    assert forall|a: (u64, u64), b: (u64, u64)|
        #![trigger u.contents.contains_key(a), u.contents.contains_key(b)]
        u.contents.contains_key(a) && u.contents.contains_key(b) && a.0 == b.0 && a.1
            < b.1 implies {
        &&& h.born[a] < h.born[b]
        &&& h.hid.contains_key(a)
        &&& h.hid[a] <= h.born[b]
        &&& record_of(j.log, h.born[b]).kind == WalRecordKind::Update
        &&& u.contents[a].header.xmin == u.contents[b].header.xmin || committed(
            j,
            u.contents[a].header.xmin,
        )
    } by {
        assert(t.contents.contains_key(a) && t.contents.contains_key(b));
        assert(g.hid.contains_key(a));
        if g.hid[a] == last {
            lemma_on_top(t, j, g, txn, b);
        }
    }
}

proof fn lemma_taken_back_undo(
    t: HeapTableModel,
    j: JournalModel,
    g: Ledger,
    txn: TxnId,
    u: HeapTableModel,
    h: Ledger,
)
    requires
        taken_back(t, j, g, txn, u, h),
    ensures
        undo_backed(u, j, h),
{
    let last = g.alive_of(txn).last();
    let n = g.alive_of(txn).len() - 1;
    assert(g.alive_of(txn)[n] == last);
    assert forall|x: TxnId, i: int|
        #![trigger h.alive_of(x)[i]]
        0 <= i < h.alive_of(x).len() implies {
        &&& entry_backed(u, j, h, u.writes_of(x)[i], h.alive_of(x)[i])
        &&& record_of(j.log, h.alive_of(x)[i]).txn == x
        &&& standing(j, x) && !committed(j, x)
    } by {
        let l = g.alive_of(x)[i];
        assert(h.alive_of(x)[i] == l);
        assert(u.writes_of(x)[i] == t.writes_of(x)[i]);
        assert(entry_backed(t, j, g, t.writes_of(x)[i], l));
        assert(l != last) by {
            if x == txn {
                assert(g.alive_of(txn)[i] < g.alive_of(txn)[n]);
            } else {
                assert(record_of(j.log, l).txn == x);
                assert(record_of(j.log, last).txn == txn);
            }
        }
        let key = change_key(change_of(record_of(j.log, l).payload));
        match t.writes_of(x)[i] {
            RowUndo::Insert(_) => {
                assert(u.contents.contains_key(key));
            },
            RowUndo::Update(_) => {
                assert(u.contents.contains_key(key));
                assert(h.hid.contains_key(g.replaced[l]));
            },
            RowUndo::Delete(_) => {
                assert(h.hid.contains_key(key));
            },
        }
        assert(entry_backed(u, j, h, u.writes_of(x)[i], l));
    }
    assert forall|x: TxnId| #[trigger] h.alive_of(x).len() == u.writes_of(x).len() by {
        assert(g.alive_of(x).len() == t.writes_of(x).len());
    }
    assert forall|x: TxnId, a: int, b: int|
        #![trigger h.alive_of(x)[a], h.alive_of(x)[b]]
        0 <= a < b < h.alive_of(x).len() implies h.alive_of(x)[a] < h.alive_of(x)[b] by {
        assert(h.alive_of(x)[a] == g.alive_of(x)[a]);
        assert(h.alive_of(x)[b] == g.alive_of(x)[b]);
    }
}

#[verifier::rlimit(60)]
proof fn lemma_taken_back_replays(
    t: HeapTableModel,
    j: JournalModel,
    g: Ledger,
    txn: TxnId,
    u: HeapTableModel,
    h: Ledger,
)
    requires
        taken_back(t, j, g, txn, u, h),
    ensures
        replays_back(u, j, h),
{
    let last = g.alive_of(txn).last();
    let n = g.alive_of(txn).len() - 1;
    assert(g.alive_of(txn)[n] == last);
    // What the last record created was not hidden, so what is hidden stays.
    assert forall|k: (u64, u64)| #[trigger] h.hid.contains_key(k) implies u.contents.contains_key(
        k,
    ) by {
        assert(g.hid.contains_key(k));
        assert(t.contents.contains_key(k));
        if g.born[k] == last {
            lemma_tail(t, j, g, txn, k);
        }
    }
    assert forall|kept: Set<u64>| #[trigger] admissible(u, j, h, kept) implies table_redo(
        j.log,
        j.log.len() as int,
        u.table,
        kept,
    ) == Some(project(u.contents, h, kept)) by {
        assert(!kept.contains(last)) by {
            if kept.contains(last) {
                assert(stands_behind(u, h, last));
            }
        }
        assert(admissible(t, j, g, kept)) by {
            assert forall|k: (u64, u64)| #[trigger]
                t.contents.contains_key(k) && committed(
                    j,
                    t.contents[k].header.xmin,
                ) implies kept.contains(g.born[k]) by {
                assert(record_of(j.log, last).txn == txn && !committed(j, txn));
                assert(u.contents.contains_key(k));
            }
            assert forall|k: (u64, u64)|
                #![trigger g.hid.contains_key(k)]
                g.hid.contains_key(k) && committed(
                    j,
                    t.contents[k].header.xmax->0,
                ) implies kept.contains(g.hid[k]) by {
                assert(record_of(j.log, last).txn == txn && !committed(j, txn));
                assert(h.hid.contains_key(k));
                assert(u.contents.contains_key(k));
            }
            assert forall|l: u64| #[trigger] kept.contains(l) implies stands_behind(t, g, l) by {
                assert(stands_behind(u, h, l));
                if exists|k: (u64, u64)| #[trigger]
                    u.contents.contains_key(k) && h.born[k] == l {
                    let k = choose|k: (u64, u64)| #[trigger]
                        u.contents.contains_key(k) && h.born[k] == l;
                    assert(t.contents.contains_key(k));
                } else {
                    let k = choose|k: (u64, u64)| #[trigger]
                        h.hid.contains_key(k) && h.hid[k] == l;
                    assert(g.hid.contains_key(k));
                }
            }
            assert forall|x: TxnId, a: int, b: int|
                #![trigger g.alive_of(x)[a], g.alive_of(x)[b]]
                0 <= a < b < g.alive_of(x).len() && kept.contains(
                    g.alive_of(x)[b],
                ) implies kept.contains(g.alive_of(x)[a]) by {
                if x == txn && b == n {
                } else {
                    assert(h.alive_of(x)[a] == g.alive_of(x)[a]);
                    assert(h.alive_of(x)[b] == g.alive_of(x)[b]);
                }
            }
        }
        assert(project(u.contents, h, kept) =~= project(t.contents, g, kept)) by {
            assert forall|k: (u64, u64)| #[trigger]
                t.contents.contains_key(k) && kept.contains(
                    g.born[k],
                ) implies u.contents.contains_key(k) && project(u.contents, h, kept)[k]
                == project(t.contents, g, kept)[k] by {
                assert(u.contents.contains_key(k));
                if g.hid.contains_key(k) && g.hid[k] != last {
                    assert(h.hid.contains_key(k));
                }
            }
        }
    }
}

/// An undo leaves the journal accounting for the table.
proof fn lemma_taken_back(
    t: HeapTableModel,
    j: JournalModel,
    g: Ledger,
    txn: TxnId,
    u: HeapTableModel,
    h: Ledger,
)
    requires
        taken_back(t, j, g, txn, u, h),
    ensures
        accounts(u, j, h),
{
    lemma_taken_back_backed(t, j, g, txn, u, h);
    lemma_taken_back_chained(t, j, g, txn, u, h);
    lemma_taken_back_undo(t, j, g, txn, u, h);
    lemma_taken_back_replays(t, j, g, txn, u, h);
}

/// Whether the last record of `txn` stands behind nothing any more, and the others behind what
/// they did.
pub open spec fn last_gone(
    t: HeapTableModel,
    g: Ledger,
    txn: TxnId,
    u: HeapTableModel,
    h: Ledger,
) -> bool {
    &&& h.alive_of(txn) == g.alive_of(txn).drop_last()
    &&& forall|x: TxnId| x != txn ==> #[trigger] h.alive_of(x) == g.alive_of(x)
    &&& forall|l: u64| #[trigger]
        stands_behind(u, h, l) <==> stands_behind(t, g, l) && l != g.alive_of(txn).last()
}

proof fn lemma_last_gone(
    t: HeapTableModel,
    j: JournalModel,
    g: Ledger,
    txn: TxnId,
    u: HeapTableModel,
    h: Ledger,
)
    requires
        taken_back(t, j, g, txn, u, h),
    ensures
        last_gone(t, g, txn, u, h),
{
    let last = g.alive_of(txn).last();
    assert forall|l: u64| #[trigger] stands_behind(u, h, l) <==> stands_behind(t, g, l) && l
        != last by {
        if stands_behind(t, g, l) && l != last {
            if exists|k: (u64, u64)| #[trigger] t.contents.contains_key(k) && g.born[k] == l {
                let k = choose|k: (u64, u64)| #[trigger]
                    t.contents.contains_key(k) && g.born[k] == l;
                assert(u.contents.contains_key(k));
            } else {
                let k = choose|k: (u64, u64)| #[trigger] g.hid.contains_key(k) && g.hid[k] == l;
                assert(h.hid.contains_key(k));
            }
        }
        if stands_behind(u, h, l) {
            if exists|k: (u64, u64)| #[trigger] u.contents.contains_key(k) && h.born[k] == l {
                let k = choose|k: (u64, u64)| #[trigger]
                    u.contents.contains_key(k) && h.born[k] == l;
                assert(t.contents.contains_key(k));
            } else {
                let k = choose|k: (u64, u64)| #[trigger] h.hid.contains_key(k) && h.hid[k] == l;
                assert(g.hid.contains_key(k));
            }
        }
    }
}

/// What the last record of a transaction hid has nothing on top but what that record created.
proof fn lemma_on_top(t: HeapTableModel, j: JournalModel, g: Ledger, txn: TxnId, b: (u64, u64))
    requires
        accounts(t, j, g),
        g.alive_of(txn).len() > 0,
        t.contents.contains_key(b),
        exists|a: (u64, u64)|
            #![trigger g.hid.contains_key(a)]
            g.hid.contains_key(a) && a.0 == b.0 && a.1 < b.1 && g.hid[a] == g.alive_of(txn).last(),
    ensures
        g.born[b] == g.alive_of(txn).last(),
{
    let last = g.alive_of(txn).last();
    let a = choose|a: (u64, u64)|
        #![trigger g.hid.contains_key(a)]
        g.hid.contains_key(a) && a.0 == b.0 && a.1 < b.1 && g.hid[a] == g.alive_of(txn).last();
    let r = record_of(j.log, last);
    assert(t.contents.contains_key(a));
    if writes_key(j.log, t.table, last, WalRecordKind::Delete, a) && t.current[a.0] == a.1 {
        assert(b.1 <= t.current[b.0]);
    } else {
        let next = change_key(change_of(r.payload));
        assert(t.contents.contains_key(next) && g.born[next] == last);
        lemma_tail(t, j, g, txn, next);
        assert(b.1 <= t.current[b.0]);
        if b.1 < next.1 {
            assert(t.contents.contains_key(b) && t.contents.contains_key(next));
            assert(t.contents.contains_key(a) && t.contents.contains_key(b));
            assert(g.hid[a] <= g.born[b]);
            assert(g.born[b] < g.born[next]);
        }
    }
}

/// Undoing the last write of a running transaction works, and takes back what its record did.
proof fn lemma_undo_taken_back(
    t: HeapTableModel,
    j: JournalModel,
    g: Ledger,
    txn: TxnId,
    w: Seq<RowUndo>,
) -> (h: Ledger)
    requires
        accounts(t.with_writes(txn, w), j, g),
        w.len() > 0,
    ensures
        t.undo_fault(txn, w.last()) is None,
        t.undone(txn, w.last()).whole(),
        taken_back(
            t.with_writes(txn, w),
            j,
            g,
            txn,
            t.undone(txn, w.last()).with_writes(txn, w.drop_last()),
            h,
        ),
{
    let full = t.with_writes(txn, w);
    let e = w.last();
    let n = w.len() - 1;
    assert(full.writes_of(txn) == w);
    assert(g.alive_of(txn).len() == full.writes_of(txn).len());
    let l = g.alive_of(txn)[n];
    assert(l == g.alive_of(txn).last());
    assert(entry_backed(full, j, g, full.writes_of(txn)[n], g.alive_of(txn)[n]));
    assert(record_of(j.log, l).txn == txn);
    let key = change_key(change_of(record_of(j.log, l).payload));
    let row = key.0;
    let u = t.undone(txn, e).with_writes(txn, w.drop_last());
    assert(u.writes_of(txn) == w.drop_last());
    assert forall|x: TxnId| x != txn implies #[trigger] u.writes_of(x) == full.writes_of(x) by {}
    // Two records never stand behind the same thing, and one record behind one thing alone.
    assert forall|k: (u64, u64)| #[trigger]
        t.contents.contains_key(k) && g.born[k] == l implies k == key by {
        assert(full.contents.contains_key(k));
    }
    let h = match e {
        RowUndo::Insert(r) => {
            lemma_tail(full, j, g, txn, key);
            let h = without_last(g, txn, None);
            assert forall|k: (u64, u64)| #[trigger] g.hid.contains_key(k) implies g.hid[k] != l by {
                assert(full.contents.contains_key(k));
            }
            assert(u.contents == t.contents.remove(key));
            assert forall|k: (u64, u64)| #[trigger] u.contents.contains_key(k) implies u.contents[k]
                == (if h.hid.contains_key(k) {
                t.contents[k]
            } else {
                t.contents[k].with_xmax(None)
            }) && u.current.contains_key(k.0) && k.1 <= u.current[k.0] by {
                assert(full.contents.contains_key(k));
                if k.0 == row {
                    // An inserted row has no older version.
                    assert(full.contents.contains_key(key));
                    assert(k.1 <= full.current[k.0]);
                }
                if !h.hid.contains_key(k) {
                    assert(t.contents[k].header.xmax is None);
                    assert(t.contents[k].with_xmax(None) == t.contents[k]);
                }
            }
            lemma_wf_removed(t, u, key);
            h
        },
        RowUndo::Update(r) => {
            lemma_tail(full, j, g, txn, key);
            let pk = g.replaced[l];
            let h = without_last(g, txn, Some(pk));
            let less = t.without_tail(r);
            assert(less.contents == t.contents.remove(key));
            assert(full.contents.contains_key(pk));
            assert(pk != key);
            assert(less.contents.contains_key(pk));
            assert(is_previous(less.contents, row, u64::MAX, pk.1)) by {
                assert(pk.1 < t.next_seq);
                assert forall|q: u64| q < u64::MAX && #[trigger] less.contents.contains_key(
                    (row, q),
                ) implies q <= pk.1 by {
                    if q > pk.1 {
                        assert(full.contents.contains_key((row, q)));
                        lemma_on_top(full, j, g, txn, (row, q));
                    }
                }
            }
            let p = choose|p: u64| is_previous(less.contents, row, u64::MAX, p);
            assert(is_previous(less.contents, row, u64::MAX, p));
            assert(p == pk.1);
            assert(latest(less.contents, row) == Some(pk.1));
            assert(u.contents == less.contents.insert(pk, t.contents[pk].with_xmax(None)));
            assert forall|k: (u64, u64)| #[trigger] g.hid.contains_key(k) && g.hid[k] == l implies k
                == pk by {
                assert(full.contents.contains_key(k));
            }
            assert forall|k: (u64, u64)| #[trigger] u.contents.contains_key(k) implies u.contents[k]
                == (if h.hid.contains_key(k) {
                t.contents[k]
            } else {
                t.contents[k].with_xmax(None)
            }) && u.current.contains_key(k.0) && k.1 <= u.current[k.0] by {
                assert(full.contents.contains_key(k));
                if k.0 == row {
                    assert(less.contents.contains_key((row, k.1)));
                }
                if k != pk && !h.hid.contains_key(k) {
                    assert(t.contents[k].header.xmax is None);
                    assert(t.contents[k].with_xmax(None) == t.contents[k]);
                }
            }
            lemma_wf_removed(t, less, key);
            assert(u.whole()) by {
                assert forall|k: (u64, u64)| #[trigger] u.contents.contains_key(k) implies
                    less.contents.contains_key(k) by {}
                assert forall|x: u64| #[trigger] u.current.contains_key(x) implies
                    u.contents.contains_key((x, u.current[x])) by {
                    if x != row {
                        assert(less.current.contains_key(x));
                    }
                }
            }
            h
        },
        RowUndo::Delete(r) => {
            assert(full.contents.contains_key(key));
            let h = without_last(g, txn, Some(key));
            assert(writes_key(j.log, full.table, l, WalRecordKind::Delete, key));
            assert(full.current[row] == key.1);
            assert(full.current.contains_key(row));
            assert(u.contents == t.contents.insert(key, t.contents[key].with_xmax(None)));
            assert forall|k: (u64, u64)| #[trigger] t.contents.contains_key(k) implies g.born[k]
                != l by {
                assert(full.contents.contains_key(k));
            }
            assert forall|k: (u64, u64)| #[trigger] g.hid.contains_key(k) && g.hid[k] == l implies k
                == key by {
                assert(full.contents.contains_key(k));
            }
            assert forall|k: (u64, u64)| #[trigger] u.contents.contains_key(k) implies u.contents[k]
                == (if h.hid.contains_key(k) {
                t.contents[k]
            } else {
                t.contents[k].with_xmax(None)
            }) && u.current.contains_key(k.0) && k.1 <= u.current[k.0] by {
                assert(full.contents.contains_key(k));
                if k != key && !h.hid.contains_key(k) {
                    assert(t.contents[k].header.xmax is None);
                    assert(t.contents[k].with_xmax(None) == t.contents[k]);
                }
            }
            assert(u.whole()) by {
                assert forall|k: (u64, u64)| #[trigger] u.contents.contains_key(k) implies
                    t.contents.contains_key(k) by {}
                assert forall|x: u64| #[trigger] u.current.contains_key(x) implies
                    u.contents.contains_key((x, u.current[x])) by {
                    assert(full.current.contains_key(x));
                }
            }
            h
        },
    };
    assert(t.undone(txn, e).whole()) by {
        assert(u.whole());
        assert(u.contents == t.undone(txn, e).contents);
        assert(u.current == t.undone(txn, e).current);
    }
    h
}

/// Undoing the last write of a running transaction works, takes back what its record did, and
/// leaves the journal accounting for the table.
pub proof fn lemma_undo_accounts(
    t: HeapTableModel,
    j: JournalModel,
    g: Ledger,
    txn: TxnId,
    w: Seq<RowUndo>,
)
    requires
        accounts(t.with_writes(txn, w), j, g),
        w.len() > 0,
    ensures
        t.undo_fault(txn, w.last()) is None,
        t.undone(txn, w.last()).whole(),
        exists|h: Ledger|
            accounts(t.undone(txn, w.last()).with_writes(txn, w.drop_last()), j, h)
                && #[trigger] last_gone(t, g, txn, t.undone(txn, w.last()), h),
{
    let full = t.with_writes(txn, w);
    let u = t.undone(txn, w.last()).with_writes(txn, w.drop_last());
    let h = lemma_undo_taken_back(t, j, g, txn, w);
    lemma_taken_back(full, j, g, txn, u, h);
    lemma_last_gone(full, j, g, txn, u, h);
    assert forall|l: u64| stands_behind(u, h, l) == #[trigger] stands_behind(
        t.undone(txn, w.last()),
        h,
        l,
    ) && stands_behind(full, g, l) == stands_behind(t, g, l) by {}
    assert(last_gone(t, g, txn, t.undone(txn, w.last()), h));
}

/// A version less keeps the versions reading back.
proof fn lemma_wf_removed(t: HeapTableModel, u: HeapTableModel, key: (u64, u64))
    requires
        t.whole(),
        u.contents == t.contents.remove(key),
        u.current == t.current.remove(key.0),
        u.lost == t.lost,
        u.next_seq == t.next_seq,
        u.arity == t.arity,
    ensures
        u.whole(),
{
    assert forall|k: (u64, u64)| #[trigger] u.contents.contains_key(k) implies
        t.contents.contains_key(k) by {}
    assert forall|x: u64| #[trigger] u.current.contains_key(x) implies u.contents.contains_key(
        (x, u.current[x]),
    ) by {
        assert(t.current.contains_key(x));
    }
}

} // verus!
