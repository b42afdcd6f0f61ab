//! Every write, every undo and every end of a transaction keeps the journal accounting for the
//! table.

use vstd::prelude::*;

use super::journal::JournalModel;
use super::ledger::{
    accounts, admissible, backed, chained, committed, entry_backed, lemma_redo_same, numbered,
    project, record_of, replays_back, stands_behind, standing, table_redo, undo_backed, writes_key,
    Ledger,
};
use super::recover::is_row;
use super::redo::{change_key, is_previous, with_hidden, with_previous_hidden, with_version};
use super::table_model::{HeapTableModel, RowUndo};
use super::version::NO_XMAX;
use super::wal::{RecordModel, WalRecordKind};
use super::wal_payload::{change_of, law_row_change_reads_back, ChangeModel};
use crate::ids::{RowId, TableId, TxnId};
use crate::value::ValueModel;

verus! {

/// Whether a record says nothing of the rows of `table`.
pub open spec fn foreign(r: RecordModel, table: TableId) -> bool {
    !(is_row(r.kind) && change_of(r.payload).table == table)
}

/// Whether `b` is `a`, perhaps with one more record that says nothing of `table`, the status of
/// every transaction `a` knows unchanged, but for those of `spared`.
pub open spec fn elsewhere(
    a: JournalModel,
    b: JournalModel,
    table: TableId,
    spared: Set<u64>,
) -> bool {
    &&& forall|txn: u64| #[trigger]
        a.txns.contains_key(txn) && !spared.contains(txn) ==> b.txns.contains_key(txn)
            && b.txns[txn].status == a.txns[txn].status
    &&& b.log == a.log || {
        &&& b.log.len() == a.log.len() + 1
        &&& b.log.len() <= u64::MAX
        &&& b.log.drop_last() == a.log
        &&& b.log.last().lsn.0 == b.log.len()
        &&& foreign(b.log.last(), table)
    }
}

/// Whether no transaction of `spared` wrote anything that stands in the table.
pub open spec fn untouched(t: HeapTableModel, g: Ledger, spared: Set<u64>) -> bool {
    &&& forall|k: (u64, u64)| #[trigger]
        t.contents.contains_key(k) ==> !spared.contains(t.contents[k].header.xmin.0)
    &&& forall|k: (u64, u64)| #[trigger]
        g.hid.contains_key(k) ==> !spared.contains((t.contents[k].header.xmax->0).0)
    &&& forall|txn: TxnId| #[trigger] g.alive_of(txn).len() > 0 ==> !spared.contains(txn.0)
}

/// Work elsewhere leaves the journal accounting for the table.
pub proof fn lemma_elsewhere(
    t: HeapTableModel,
    a: JournalModel,
    b: JournalModel,
    g: Ledger,
    spared: Set<u64>,
)
    requires
        accounts(t, a, g),
        elsewhere(a, b, t.table, spared),
        untouched(t, g, spared),
    ensures
        accounts(t, b, g),
{
    assert forall|i: int| 0 <= i < a.log.len() implies a.log[i] == b.log[i] by {
        if b.log != a.log {
            assert(b.log.drop_last()[i] == b.log[i]);
        }
    }
    assert(numbered(b.log));
    assert forall|txn: TxnId| #[trigger]
        standing(a, txn) && !spared.contains(txn.0) implies standing(b, txn) && committed(b, txn)
        == committed(a, txn) by {}
    assert forall|kind: WalRecordKind, l: u64, k: (u64, u64)| #[trigger]
        writes_key(a.log, t.table, l, kind, k) implies writes_key(b.log, t.table, l, kind, k)
        && record_of(b.log, l) == record_of(a.log, l) by {}
    assert(backed(t, b, g)) by {
        assert forall|k: (u64, u64)| #[trigger] t.contents.contains_key(k) implies standing(
            a,
            record_of(a.log, g.born[k]).txn,
        ) && record_of(a.log, g.born[k]) == record_of(b.log, g.born[k]) by {}
        assert forall|k: (u64, u64)| #[trigger] g.hid.contains_key(k) implies record_of(
            a.log,
            g.hid[k],
        ) == record_of(b.log, g.hid[k]) && standing(a, record_of(a.log, g.hid[k]).txn) && standing(
            a,
            t.contents[k].header.xmin,
        ) by {
            assert(t.contents.contains_key(k));
        }
    }
    assert(chained(t, b, g)) by {
        assert forall|k: (u64, u64)| #[trigger] t.contents.contains_key(k) implies standing(
            a,
            t.contents[k].header.xmin,
        ) && record_of(a.log, g.born[k]) == record_of(b.log, g.born[k]) by {}
    }
    assert(undo_backed(t, b, g)) by {
        assert forall|txn: TxnId, i: int|
            #![trigger g.alive_of(txn)[i]]
            0 <= i < g.alive_of(txn).len() implies {
            &&& entry_backed(t, b, g, t.writes_of(txn)[i], g.alive_of(txn)[i])
            &&& record_of(b.log, g.alive_of(txn)[i]).txn == txn
            &&& standing(b, txn) && !committed(b, txn)
        } by {
            assert(entry_backed(t, a, g, t.writes_of(txn)[i], g.alive_of(txn)[i]));
            assert(standing(a, txn));
            assert(g.alive_of(txn).len() > 0);
        }
    }
    assert(replays_back(t, b, g)) by {
        assert forall|kept: Set<u64>| #[trigger] admissible(t, b, g, kept) implies table_redo(
            b.log,
            b.log.len() as int,
            t.table,
            kept,
        ) == Some(project(t.contents, g, kept)) by {
            assert(admissible(t, a, g, kept)) by {
                assert forall|k: (u64, u64)| #[trigger]
                    t.contents.contains_key(k) && committed(
                        a,
                        t.contents[k].header.xmin,
                    ) implies kept.contains(g.born[k]) by {
                    assert(standing(a, t.contents[k].header.xmin));
                    assert(committed(b, t.contents[k].header.xmin));
                }
                assert forall|k: (u64, u64)|
                    #![trigger g.hid.contains_key(k)]
                    g.hid.contains_key(k) && committed(
                        a,
                        t.contents[k].header.xmax->0,
                    ) implies kept.contains(g.hid[k]) by {
                    assert(standing(a, t.contents[k].header.xmax->0));
                    assert(committed(b, t.contents[k].header.xmax->0));
                }
            }
            lemma_redo_same(a.log, b.log, a.log.len() as int, t.table, kept, kept);
        }
    }
}

/// A table with the same rows and the same undo logs is accounted for alike.
pub proof fn lemma_same_rows(t: HeapTableModel, u: HeapTableModel, j: JournalModel, g: Ledger)
    requires
        accounts(t, j, g),
        u.whole(),
        u.next_row_id >= t.next_row_id,
        u.table == t.table,
        u.contents == t.contents,
        u.current == t.current,
        forall|txn: TxnId| #[trigger] u.writes_of(txn) == t.writes_of(txn),
    ensures
        accounts(u, j, g),
{
    assert(undo_backed(u, j, g)) by {
        assert forall|txn: TxnId| #[trigger] g.alive_of(txn).len() == u.writes_of(txn).len() by {
            assert(u.writes_of(txn) == t.writes_of(txn));
        }
        assert forall|txn: TxnId, i: int|
            #![trigger g.alive_of(txn)[i]]
            0 <= i < g.alive_of(txn).len() implies entry_backed(
            u,
            j,
            g,
            u.writes_of(txn)[i],
            g.alive_of(txn)[i],
        ) by {
            assert(entry_backed(t, j, g, t.writes_of(txn)[i], g.alive_of(txn)[i]));
            assert(u.writes_of(txn) == t.writes_of(txn));
        }
    }
    assert(replays_back(u, j, g)) by {
        assert forall|kept: Set<u64>| #[trigger] admissible(u, j, g, kept) implies table_redo(
            j.log,
            j.log.len() as int,
            u.table,
            kept,
        ) == Some(project(u.contents, g, kept)) by {
            assert(admissible(t, j, g, kept)) by {
                assert forall|l: u64| #[trigger] kept.contains(l) implies stands_behind(t, g, l) by {
                    assert(stands_behind(u, g, l));
                }
            }
        }
    }
}

/// The ledger once the next record created the version `key`.
pub open spec fn with_birth(g: Ledger, txn: TxnId, l: u64, key: (u64, u64)) -> Ledger {
    Ledger {
        born: g.born.insert(key, l),
        alive: g.alive.insert(txn.0, g.alive_of(txn).push(l)),
        ..g
    }
}

/// The common ground of a write by a running transaction: what its record is.
pub open spec fn next_write(
    t: HeapTableModel,
    j: JournalModel,
    k: JournalModel,
    txn: TxnId,
    kind: WalRecordKind,
    change: ChangeModel,
) -> bool {
    &&& j.log.len() < u64::MAX
    &&& standing(j, txn)
    &&& !committed(j, txn)
    &&& txn.0 != NO_XMAX
    &&& change.header.storable()
    &&& change.table == t.table
    &&& k == j.logged(kind, txn, change.encoded())
}

/// What appending a record keeps.
proof fn lemma_appended(
    t: HeapTableModel,
    j: JournalModel,
    k: JournalModel,
    txn: TxnId,
    kind: WalRecordKind,
    change: ChangeModel,
)
    requires
        numbered(j.log),
        next_write(t, j, k, txn, kind, change),
    ensures
        numbered(k.log),
        k.log.len() == j.log.len() + 1,
        k.log.len() <= u64::MAX,
        record_of(k.log, k.log.len() as u64).txn == txn,
        record_of(k.log, k.log.len() as u64).kind == kind,
        record_of(k.log, k.log.len() as u64).lsn.0 == k.log.len(),
        change_of(record_of(k.log, k.log.len() as u64).payload) == change,
        writes_key(k.log, t.table, k.log.len() as u64, kind, change_key(change)),
        forall|l: u64| 1 <= l <= j.log.len() ==> #[trigger] record_of(k.log, l) == record_of(
            j.log,
            l,
        ),
        forall|q: WalRecordKind, l: u64, key: (u64, u64)| #[trigger]
            writes_key(j.log, t.table, l, q, key) ==> writes_key(k.log, t.table, l, q, key)
                && record_of(k.log, l) == record_of(j.log, l) && l < k.log.len(),
        forall|x: TxnId| #[trigger] standing(k, x) == standing(j, x),
        forall|x: TxnId| #[trigger] committed(k, x) == committed(j, x),
{
    law_row_change_reads_back(change);
    assert(k.st() =~= j.st());
    assert forall|i: int| 0 <= i < k.log.len() implies (#[trigger] k.log[i]).lsn.0 == i + 1 by {
        if i < j.log.len() {
            assert(k.log[i] == j.log[i]);
        }
    }
}

/// The replay of a log with one more record of the table.
proof fn lemma_redo_more(
    t: HeapTableModel,
    j: JournalModel,
    k: JournalModel,
    txn: TxnId,
    kind: WalRecordKind,
    change: ChangeModel,
    kept: Set<u64>,
)
    requires
        numbered(j.log),
        next_write(t, j, k, txn, kind, change),
        is_row(kind),
    ensures
        ({
            let l = k.log.len() as u64;
            let before = table_redo(j.log, j.log.len() as int, t.table, kept.remove(l));
            let after = table_redo(k.log, k.log.len() as int, t.table, kept);
            &&& before is None ==> after is None
            &&& before is Some && !kept.contains(l) ==> after == before
            &&& before is Some && kept.contains(l) ==> after == match super::redo::replayed(
                before->0,
                kind,
                change,
                txn,
            ) {
                Some((c, _)) => Some(c),
                None => None,
            }
        }),
{
    lemma_appended(t, j, k, txn, kind, change);
    let l = k.log.len() as u64;
    lemma_redo_same(j.log, k.log, j.log.len() as int, t.table, kept.remove(l), kept);
}

/// An insert keeps the journal accounting for the table.
pub proof fn lemma_insert_accounts(
    t: HeapTableModel,
    j: JournalModel,
    k: JournalModel,
    g: Ledger,
    txn: TxnId,
    data: Seq<ValueModel>,
)
    requires
        accounts(t, j, g),
        t.next_seq < u64::MAX,
        t.next_row_id < u64::MAX,
        t.inserted(txn, data).whole(),
        next_write(
            t,
            j,
            k,
            txn,
            WalRecordKind::Insert,
            t.fresh_change(txn, RowId(t.next_row_id), data),
        ),
    ensures
        accounts(
            t.inserted(txn, data),
            k,
            with_birth(g, txn, k.log.len() as u64, (t.next_row_id, t.next_seq)),
        ),
{
    let row = RowId(t.next_row_id);
    let change = t.fresh_change(txn, row, data);
    let v = t.fresh(txn, row, data);
    let key = (t.next_row_id, t.next_seq);
    let l = k.log.len() as u64;
    let u = t.inserted(txn, data);
    let h = with_birth(g, txn, l, key);
    lemma_appended(t, j, k, txn, WalRecordKind::Insert, change);
    assert(!t.contents.contains_key(key));
    assert(u.contents == t.contents.insert(key, v));
    lemma_alive(t, j, g, txn, l);
    assert(h.alive_of(txn) == g.alive_of(txn).push(l));
    assert forall|x: TxnId| x != txn implies #[trigger] h.alive_of(x) == g.alive_of(x) by {}
    assert forall|x: TxnId| x != txn implies #[trigger] u.writes_of(x) == t.writes_of(x) by {}
    assert(h.alive_of(txn).contains(l)) by {
        assert(h.alive_of(txn)[g.alive_of(txn).len() as int] == l);
    }
    assert(backed(u, k, h)) by {
        assert forall|q: (u64, u64)| q != key && #[trigger] u.contents.contains_key(q) implies
            t.contents.contains_key(q) && h.born[q] == g.born[q] && (g.alive_of(
            t.contents[q].header.xmin,
        ).contains(g.born[q]) ==> h.alive_of(t.contents[q].header.xmin).contains(g.born[q])) by {
            lemma_push_keeps(g.alive_of(txn), l, g.born[q]);
        }
        assert forall|q: (u64, u64)| #[trigger] h.hid.contains_key(q) implies g.hid.contains_key(q)
            && q != key && t.contents.contains_key(q) && (g.alive_of(
            t.contents[q].header.xmax->0,
        ).contains(g.hid[q]) ==> h.alive_of(t.contents[q].header.xmax->0).contains(g.hid[q])) by {
            assert(g.hid.contains_key(q));
            lemma_push_keeps(g.alive_of(txn), l, g.hid[q]);
        }
        assert(!h.hid.contains_key(key));
        assert forall|q: (u64, u64)| #[trigger] h.hid.contains_key(q) implies {
            let r = record_of(k.log, h.hid[q]);
            let next = change_key(change_of(r.payload));
            ||| writes_key(k.log, u.table, h.hid[q], WalRecordKind::Delete, q) && u.current[q.0]
                == q.1
            ||| {
                &&& writes_key(k.log, u.table, h.hid[q], WalRecordKind::Update, next)
                &&& next.0 == q.0 && q.1 < next.1
                &&& u.contents.contains_key(next) && h.born[next] == h.hid[q]
                &&& h.replaced.contains_key(h.hid[q]) && h.replaced[h.hid[q]] == q
            }
        } by {
            assert(g.hid.contains_key(q));
            assert(q.0 != key.0);
        }
    }
    assert(chained(u, k, h)) by {
        assert forall|a: (u64, u64), b: (u64, u64)|
            #![trigger u.contents.contains_key(a), u.contents.contains_key(b)]
            u.contents.contains_key(a) && u.contents.contains_key(b) && a.0 == b.0 && a.1
                < b.1 implies a != key && b != key by {
            if a == key {
                assert(t.contents.contains_key(b));
            }
            if b == key {
                assert(t.contents.contains_key(a));
            }
        }
        assert forall|q: (u64, u64)| #[trigger] u.contents.contains_key(q) implies
            u.current.contains_key(q.0) && q.1 <= u.current[q.0] by {
            if q != key {
                assert(t.contents.contains_key(q));
                assert(q.0 != key.0);
            }
        }
    }
    assert(undo_backed(u, k, h)) by {
        assert(u.writes_of(txn) == t.writes_of(txn).push(RowUndo::Insert(row)));
        assert forall|x: TxnId, i: int|
            #![trigger h.alive_of(x)[i]]
            0 <= i < h.alive_of(x).len() implies {
            &&& entry_backed(u, k, h, u.writes_of(x)[i], h.alive_of(x)[i])
            &&& record_of(k.log, h.alive_of(x)[i]).txn == x
            &&& standing(k, x) && !committed(k, x)
        } by {
            if x == txn && i == g.alive_of(txn).len() {
                assert(u.writes_of(x)[i] == RowUndo::Insert(row));
            } else {
                assert(h.alive_of(x)[i] == g.alive_of(x)[i]);
                assert(u.writes_of(x)[i] == t.writes_of(x)[i]);
                assert(entry_backed(t, j, g, t.writes_of(x)[i], g.alive_of(x)[i]));
            }
        }
        assert forall|x: TxnId| #[trigger] h.alive_of(x).len() == u.writes_of(x).len() by {
            assert(g.alive_of(x).len() == t.writes_of(x).len());
        }
        assert forall|x: TxnId, a: int, b: int|
            #![trigger h.alive_of(x)[a], h.alive_of(x)[b]]
            0 <= a < b < h.alive_of(x).len() implies h.alive_of(x)[a] < h.alive_of(x)[b] by {
            if x == txn {
                assert(h.alive_of(x)[a] == g.alive_of(x)[a]);
                assert(g.alive_of(x).contains(g.alive_of(x)[a]));
                if b < g.alive_of(x).len() {
                    assert(h.alive_of(x)[b] == g.alive_of(x)[b]);
                }
            }
        }
    }
    assert(replays_back(u, k, h)) by {
        assert forall|kept: Set<u64>| #[trigger] admissible(u, k, h, kept) implies table_redo(
            k.log,
            k.log.len() as int,
            u.table,
            kept,
        ) == Some(project(u.contents, h, kept)) by {
            let less = kept.remove(l);
            lemma_admissible_before(t, j, g, u, k, h, txn, l, kept);
            lemma_redo_more(t, j, k, txn, WalRecordKind::Insert, change, kept);
            let before = project(t.contents, g, less);
            let after = project(u.contents, h, kept);
            assert forall|q: (u64, u64)| #[trigger] t.contents.contains_key(q) implies g.born[q]
                < l && (g.hid.contains_key(q) ==> g.hid[q] < l) by {}
            if kept.contains(l) {
                assert(!before.contains_key(key));
                assert(after =~= before.insert(key, v));
                assert(with_version(before, change) == before.insert(key, v));
            } else {
                assert(after =~= before);
            }
        }
    }
}

/// The ledger once the next record replaced the version `old` by `key`.
pub open spec fn with_update(
    g: Ledger,
    txn: TxnId,
    l: u64,
    replaced: (u64, u64),
    key: (u64, u64),
) -> Ledger {
    Ledger {
        hid: g.hid.insert(replaced, l),
        replaced: g.replaced.insert(l, replaced),
        ..with_birth(g, txn, l, key)
    }
}

/// An update keeps the journal accounting for the table.
pub proof fn lemma_update_accounts(
    t: HeapTableModel,
    j: JournalModel,
    k: JournalModel,
    g: Ledger,
    txn: TxnId,
    row: RowId,
    data: Seq<ValueModel>,
)
    requires
        accounts(t, j, g),
        t.next_seq < u64::MAX,
        t.writable(txn, row, j.st()),
        t.updated(txn, row, data).whole(),
        next_write(t, j, k, txn, WalRecordKind::Update, t.fresh_change(txn, row, data)),
    ensures
        accounts(
            t.updated(txn, row, data),
            k,
            with_update(
                g,
                txn,
                k.log.len() as u64,
                (row.0, t.current[row.0]),
                (row.0, t.next_seq),
            ),
        ),
{
    let change = t.fresh_change(txn, row, data);
    let v = t.fresh(txn, row, data);
    let key = (row.0, t.next_seq);
    let cur = (row.0, t.current[row.0]);
    let l = k.log.len() as u64;
    let u = t.updated(txn, row, data);
    let h = with_update(g, txn, l, cur, key);
    lemma_appended(t, j, k, txn, WalRecordKind::Update, change);
    assert(!t.contents.contains_key(key));
    assert(t.contents.contains_key(cur));
    assert(!g.hid.contains_key(cur));
    let hidden = t.contents[cur].with_xmax(Some(txn));
    assert(u.contents == t.contents.insert(cur, hidden).insert(key, v));
    lemma_alive(t, j, g, txn, l);
    assert(h.alive_of(txn) == g.alive_of(txn).push(l));
    assert forall|x: TxnId| x != txn implies #[trigger] h.alive_of(x) == g.alive_of(x) by {}
    assert forall|x: TxnId| x != txn implies #[trigger] u.writes_of(x) == t.writes_of(x) by {}
    assert(h.alive_of(txn).contains(l)) by {
        assert(h.alive_of(txn)[g.alive_of(txn).len() as int] == l);
    }
    assert forall|q: (u64, u64)| q != key && #[trigger] u.contents.contains_key(q) implies
        t.contents.contains_key(q) && h.born[q] == g.born[q] && u.contents[q].header.xmin
        == t.contents[q].header.xmin && (q != cur ==> u.contents[q] == t.contents[q]) && (
    g.alive_of(t.contents[q].header.xmin).contains(g.born[q]) ==> h.alive_of(
        t.contents[q].header.xmin,
    ).contains(g.born[q])) && g.born[q] < l by {
        lemma_push_keeps(g.alive_of(txn), l, g.born[q]);
    }
    assert forall|q: (u64, u64)| #[trigger] g.hid.contains_key(q) implies h.hid.contains_key(q)
        && h.hid[q] == g.hid[q] && q != cur && q != key && t.contents.contains_key(q) && g.hid[q]
        < l && (g.alive_of(t.contents[q].header.xmax->0).contains(g.hid[q]) ==> h.alive_of(
        t.contents[q].header.xmax->0,
    ).contains(g.hid[q])) by {
        lemma_push_keeps(g.alive_of(txn), l, g.hid[q]);
    }
    assert(!h.hid.contains_key(key)) by {
        assert(!g.hid.contains_key(key));
        assert(cur != key);
    }
    assert(backed(u, k, h)) by {
        assert forall|q: (u64, u64)| #[trigger] h.hid.contains_key(q) implies {
            let r = record_of(k.log, h.hid[q]);
            let xmin = u.contents[q].header.xmin;
            &&& u.contents.contains_key(q)
            &&& u.contents[q].header.xmax == Some(r.txn)
            &&& standing(k, r.txn)
            &&& h.born[q] < h.hid[q]
            &&& xmin == r.txn || committed(k, xmin)
            &&& !committed(k, r.txn) ==> h.alive_of(r.txn).contains(h.hid[q])
            &&& ({
                ||| writes_key(k.log, u.table, h.hid[q], WalRecordKind::Delete, q) && u.current[q.0]
                    == q.1
                ||| {
                    let next = change_key(change_of(r.payload));
                    &&& writes_key(k.log, u.table, h.hid[q], WalRecordKind::Update, next)
                    &&& next.0 == q.0 && q.1 < next.1
                    &&& u.contents.contains_key(next) && h.born[next] == h.hid[q]
                    &&& h.replaced.contains_key(h.hid[q]) && h.replaced[h.hid[q]] == q
                }
            })
        } by {
            if q == cur {
                assert(change_key(change) == key);
                assert(cur.1 < key.1);
            } else {
                assert(g.hid.contains_key(q));
                assert(g.hid[q] < l);
                let r = record_of(j.log, g.hid[q]);
                let next = change_key(change_of(r.payload));
                if writes_key(j.log, t.table, g.hid[q], WalRecordKind::Delete, q) {
                    // A deleted row has no version `txn` may replace.
                    if q.0 == row.0 && t.current[q.0] == q.1 {
                        assert(q == cur);
                    }
                }
            }
        }
    }
    assert(chained(u, k, h)) by {
        assert forall|a: (u64, u64), b: (u64, u64)|
            #![trigger u.contents.contains_key(a), u.contents.contains_key(b)]
            u.contents.contains_key(a) && u.contents.contains_key(b) && a.0 == b.0 && a.1
                < b.1 implies {
            &&& h.born[a] < h.born[b]
            &&& h.hid.contains_key(a)
            &&& h.hid[a] <= h.born[b]
            &&& record_of(k.log, h.born[b]).kind == WalRecordKind::Update
            &&& u.contents[a].header.xmin == u.contents[b].header.xmin || committed(
                k,
                u.contents[a].header.xmin,
            )
        } by {
            if a == key {
                assert(t.contents.contains_key(b));
                assert(b.1 < t.next_seq);
            } else if b == key {
                assert(t.contents.contains_key(a));
                assert(a.1 <= cur.1);
                if a != cur {
                    assert(t.contents.contains_key(a) && t.contents.contains_key(cur));
                    assert(g.hid.contains_key(a));
                }
            } else {
                assert(t.contents.contains_key(a) && t.contents.contains_key(b));
                assert(g.hid.contains_key(a));
            }
        }
        assert forall|q: (u64, u64)| #[trigger] u.contents.contains_key(q) implies
            u.current.contains_key(q.0) && q.1 <= u.current[q.0] by {
            if q != key {
                assert(t.contents.contains_key(q));
            }
        }
    }
    assert(undo_backed(u, k, h)) by {
        assert(u.writes_of(txn) == t.writes_of(txn).push(RowUndo::Update(row)));
        assert forall|x: TxnId, i: int|
            #![trigger h.alive_of(x)[i]]
            0 <= i < h.alive_of(x).len() implies {
            &&& entry_backed(u, k, h, u.writes_of(x)[i], h.alive_of(x)[i])
            &&& record_of(k.log, h.alive_of(x)[i]).txn == x
            &&& standing(k, x) && !committed(k, x)
        } by {
            if x == txn && i == g.alive_of(txn).len() {
                assert(u.writes_of(x)[i] == RowUndo::Update(row));
                assert(change_key(change) == key);
            } else {
                assert(h.alive_of(x)[i] == g.alive_of(x)[i]);
                assert(u.writes_of(x)[i] == t.writes_of(x)[i]);
                assert(entry_backed(t, j, g, t.writes_of(x)[i], g.alive_of(x)[i]));
                assert(g.alive_of(x)[i] < l);
            }
        }
        assert forall|x: TxnId| #[trigger] h.alive_of(x).len() == u.writes_of(x).len() by {
            assert(g.alive_of(x).len() == t.writes_of(x).len());
        }
        assert forall|x: TxnId, a: int, b: int|
            #![trigger h.alive_of(x)[a], h.alive_of(x)[b]]
            0 <= a < b < h.alive_of(x).len() implies h.alive_of(x)[a] < h.alive_of(x)[b] by {
            if x == txn {
                assert(h.alive_of(x)[a] == g.alive_of(x)[a]);
                assert(g.alive_of(x).contains(g.alive_of(x)[a]));
                if b < g.alive_of(x).len() {
                    assert(h.alive_of(x)[b] == g.alive_of(x)[b]);
                }
            }
        }
    }
    assert(replays_back(u, k, h)) by {
        assert forall|kept: Set<u64>| #[trigger] admissible(u, k, h, kept) implies table_redo(
            k.log,
            k.log.len() as int,
            u.table,
            kept,
        ) == Some(project(u.contents, h, kept)) by {
            let less = kept.remove(l);
            lemma_admissible_before(t, j, g, u, k, h, txn, l, kept);
            lemma_redo_more(t, j, k, txn, WalRecordKind::Update, change, kept);
            let before = project(t.contents, g, less);
            let after = project(u.contents, h, kept);
            if kept.contains(l) {
                lemma_current_kept(t, j, g, u, k, h, txn, row, l, kept);
                assert(before.contains_key(cur));
                assert(is_previous(before, row.0, key.1, cur.1)) by {
                    assert forall|q: u64| q < key.1 && #[trigger] before.contains_key(
                        (row.0, q),
                    ) implies q <= cur.1 by {
                        assert(t.contents.contains_key((row.0, q)));
                    }
                }
                let p = choose|p: u64| is_previous(before, row.0, key.1, p);
                assert(is_previous(before, row.0, key.1, p));
                assert(p == cur.1);
                let m = with_previous_hidden(before, row.0, key.1, txn);
                assert(before[cur].header.xmax is None);
                assert(m == before.insert(cur, before[cur].with_xmax(Some(txn))));
                assert(!m.contains_key(key));
                assert(with_version(m, change) == m.insert(key, v));
                assert(before[cur].with_xmax(Some(txn)) == hidden);
                assert(after =~= m.insert(key, v));
            } else {
                assert(after =~= before);
            }
        }
    }
}

/// A choice that keeps the record of a write keeps the record of the version it replaces.
proof fn lemma_current_kept(
    t: HeapTableModel,
    j: JournalModel,
    g: Ledger,
    u: HeapTableModel,
    k: JournalModel,
    h: Ledger,
    txn: TxnId,
    row: RowId,
    l: u64,
    kept: Set<u64>,
)
    requires
        accounts(t, j, g),
        t.writable(txn, row, j.st()),
        admissible(u, k, h, kept),
        kept.contains(l),
        l == j.log.len() + 1,
        h.alive_of(txn) == g.alive_of(txn).push(l),
        forall|x: TxnId| #[trigger] committed(k, x) == committed(j, x),
        u.contents.contains_key((row.0, t.current[row.0])),
        u.contents[(row.0, t.current[row.0])].header.xmin == t.version(row).header.xmin,
        h.born[(row.0, t.current[row.0])] == g.born[(row.0, t.current[row.0])],
    ensures
        kept.remove(l).contains(g.born[(row.0, t.current[row.0])]),
{
    let cur = (row.0, t.current[row.0]);
    assert(t.contents.contains_key(cur));
    let xmin = t.contents[cur].header.xmin;
    assert(g.born[cur] < l);
    if committed(j, xmin) {
        assert(committed(k, u.contents[cur].header.xmin));
    } else {
        assert(xmin == txn);
        assert(g.alive_of(txn).contains(g.born[cur]));
        let a = choose|a: int| 0 <= a < g.alive_of(txn).len() && g.alive_of(txn)[a] == g.born[cur];
        let b = g.alive_of(txn).len() as int;
        assert(h.alive_of(txn)[a] == g.born[cur]);
        assert(h.alive_of(txn)[b] == l);
    }
}

/// The ledger once the next record deleted the version `key`.
pub open spec fn with_death(g: Ledger, txn: TxnId, l: u64, key: (u64, u64)) -> Ledger {
    Ledger {
        hid: g.hid.insert(key, l),
        alive: g.alive.insert(txn.0, g.alive_of(txn).push(l)),
        ..g
    }
}

/// A delete keeps the journal accounting for the table.
pub proof fn lemma_delete_accounts(
    t: HeapTableModel,
    j: JournalModel,
    k: JournalModel,
    g: Ledger,
    txn: TxnId,
    row: RowId,
)
    requires
        accounts(t, j, g),
        t.writable(txn, row, j.st()),
        t.deleted(txn, row).whole(),
        next_write(t, j, k, txn, WalRecordKind::Delete, t.hidden_change(txn, row)),
    ensures
        accounts(
            t.deleted(txn, row),
            k,
            with_death(g, txn, k.log.len() as u64, (row.0, t.current[row.0])),
        ),
{
    let change = t.hidden_change(txn, row);
    let cur = (row.0, t.current[row.0]);
    let l = k.log.len() as u64;
    let u = t.deleted(txn, row);
    let h = with_death(g, txn, l, cur);
    lemma_appended(t, j, k, txn, WalRecordKind::Delete, change);
    assert(t.contents.contains_key(cur));
    assert(!g.hid.contains_key(cur));
    assert(change_key(change) == cur);
    let hidden = t.contents[cur].with_xmax(Some(txn));
    assert(u.contents == t.contents.insert(cur, hidden));
    lemma_alive(t, j, g, txn, l);
    assert(h.alive_of(txn) == g.alive_of(txn).push(l));
    assert forall|x: TxnId| x != txn implies #[trigger] h.alive_of(x) == g.alive_of(x) by {}
    assert forall|x: TxnId| x != txn implies #[trigger] u.writes_of(x) == t.writes_of(x) by {}
    assert(h.alive_of(txn).contains(l)) by {
        assert(h.alive_of(txn)[g.alive_of(txn).len() as int] == l);
    }
    assert forall|q: (u64, u64)| #[trigger] u.contents.contains_key(q) implies
        t.contents.contains_key(q) && h.born[q] == g.born[q] && u.contents[q].header.xmin
        == t.contents[q].header.xmin && (q != cur ==> u.contents[q] == t.contents[q]) && (
    g.alive_of(t.contents[q].header.xmin).contains(g.born[q]) ==> h.alive_of(
        t.contents[q].header.xmin,
    ).contains(g.born[q])) && g.born[q] < l by {
        lemma_push_keeps(g.alive_of(txn), l, g.born[q]);
    }
    assert forall|q: (u64, u64)| #[trigger] g.hid.contains_key(q) implies h.hid.contains_key(q)
        && h.hid[q] == g.hid[q] && q != cur && t.contents.contains_key(q) && g.hid[q] < l && (
    g.alive_of(t.contents[q].header.xmax->0).contains(g.hid[q]) ==> h.alive_of(
        t.contents[q].header.xmax->0,
    ).contains(g.hid[q])) by {
        lemma_push_keeps(g.alive_of(txn), l, g.hid[q]);
    }
    assert(backed(u, k, h)) by {
        assert forall|q: (u64, u64)| #[trigger] h.hid.contains_key(q) implies {
            let r = record_of(k.log, h.hid[q]);
            let xmin = u.contents[q].header.xmin;
            &&& u.contents.contains_key(q)
            &&& u.contents[q].header.xmax == Some(r.txn)
            &&& standing(k, r.txn)
            &&& h.born[q] < h.hid[q]
            &&& xmin == r.txn || committed(k, xmin)
            &&& !committed(k, r.txn) ==> h.alive_of(r.txn).contains(h.hid[q])
            &&& ({
                ||| writes_key(k.log, u.table, h.hid[q], WalRecordKind::Delete, q) && u.current[q.0]
                    == q.1
                ||| {
                    let next = change_key(change_of(r.payload));
                    &&& writes_key(k.log, u.table, h.hid[q], WalRecordKind::Update, next)
                    &&& next.0 == q.0 && q.1 < next.1
                    &&& u.contents.contains_key(next) && h.born[next] == h.hid[q]
                    &&& h.replaced.contains_key(h.hid[q]) && h.replaced[h.hid[q]] == q
                }
            })
        } by {
            if q != cur {
                assert(g.hid.contains_key(q));
                assert(g.hid[q] < l);
            }
        }
    }
    assert(chained(u, k, h)) by {
        assert forall|a: (u64, u64), b: (u64, u64)|
            #![trigger u.contents.contains_key(a), u.contents.contains_key(b)]
            u.contents.contains_key(a) && u.contents.contains_key(b) && a.0 == b.0 && a.1
                < b.1 implies {
            &&& h.born[a] < h.born[b]
            &&& h.hid.contains_key(a)
            &&& h.hid[a] <= h.born[b]
            &&& record_of(k.log, h.born[b]).kind == WalRecordKind::Update
            &&& u.contents[a].header.xmin == u.contents[b].header.xmin || committed(
                k,
                u.contents[a].header.xmin,
            )
        } by {
            assert(t.contents.contains_key(a) && t.contents.contains_key(b));
            assert(g.hid.contains_key(a));
        }
        assert forall|q: (u64, u64)| #[trigger] u.contents.contains_key(q) implies
            u.current.contains_key(q.0) && q.1 <= u.current[q.0] by {
            assert(t.contents.contains_key(q));
        }
    }
    assert(undo_backed(u, k, h)) by {
        assert(u.writes_of(txn) == t.writes_of(txn).push(RowUndo::Delete(row)));
        assert forall|x: TxnId, i: int|
            #![trigger h.alive_of(x)[i]]
            0 <= i < h.alive_of(x).len() implies {
            &&& entry_backed(u, k, h, u.writes_of(x)[i], h.alive_of(x)[i])
            &&& record_of(k.log, h.alive_of(x)[i]).txn == x
            &&& standing(k, x) && !committed(k, x)
        } by {
            if x == txn && i == g.alive_of(txn).len() {
                assert(u.writes_of(x)[i] == RowUndo::Delete(row));
            } else {
                assert(h.alive_of(x)[i] == g.alive_of(x)[i]);
                assert(u.writes_of(x)[i] == t.writes_of(x)[i]);
                assert(entry_backed(t, j, g, t.writes_of(x)[i], g.alive_of(x)[i]));
                assert(g.alive_of(x)[i] < l);
            }
        }
        assert forall|x: TxnId| #[trigger] h.alive_of(x).len() == u.writes_of(x).len() by {
            assert(g.alive_of(x).len() == t.writes_of(x).len());
        }
        assert forall|x: TxnId, a: int, b: int|
            #![trigger h.alive_of(x)[a], h.alive_of(x)[b]]
            0 <= a < b < h.alive_of(x).len() implies h.alive_of(x)[a] < h.alive_of(x)[b] by {
            if x == txn {
                assert(h.alive_of(x)[a] == g.alive_of(x)[a]);
                assert(g.alive_of(x).contains(g.alive_of(x)[a]));
                if b < g.alive_of(x).len() {
                    assert(h.alive_of(x)[b] == g.alive_of(x)[b]);
                }
            }
        }
    }
    assert(replays_back(u, k, h)) by {
        assert forall|kept: Set<u64>| #[trigger] admissible(u, k, h, kept) implies table_redo(
            k.log,
            k.log.len() as int,
            u.table,
            kept,
        ) == Some(project(u.contents, h, kept)) by {
            let less = kept.remove(l);
            lemma_admissible_before(t, j, g, u, k, h, txn, l, kept);
            lemma_redo_more(t, j, k, txn, WalRecordKind::Delete, change, kept);
            let before = project(t.contents, g, less);
            let after = project(u.contents, h, kept);
            if kept.contains(l) {
                lemma_current_kept(t, j, g, u, k, h, txn, row, l, kept);
                assert(before.contains_key(cur));
                assert(before[cur].header.xmax is None);
                assert(with_hidden(before, cur, txn) == before.insert(
                    cur,
                    before[cur].with_xmax(Some(txn)),
                ));
                assert(before[cur].with_xmax(Some(txn)) == hidden);
                assert(after =~= before.insert(cur, hidden));
            } else {
                assert(after =~= before);
            }
        }
    }
}

/// The records of a running transaction come before the next one.
proof fn lemma_alive(t: HeapTableModel, j: JournalModel, g: Ledger, txn: TxnId, l: u64)
    requires
        accounts(t, j, g),
        l == j.log.len() + 1,
    ensures
        forall|x: u64| #[trigger] g.alive_of(txn).contains(x) ==> 1 <= x < l,
{
    assert forall|x: u64| #[trigger] g.alive_of(txn).contains(x) implies 1 <= x < l by {
        let i = choose|i: int| 0 <= i < g.alive_of(txn).len() && g.alive_of(txn)[i] == x;
        assert(entry_backed(t, j, g, t.writes_of(txn)[i], g.alive_of(txn)[i]));
    }
}

/// A push keeps what a sequence holds.
proof fn lemma_push_keeps(s: Seq<u64>, l: u64, x: u64)
    ensures
        s.contains(x) ==> s.push(l).contains(x),
{
    if s.contains(x) {
        let i = choose|i: int| 0 <= i < s.len() && s[i] == x;
        assert(s.push(l)[i] == x);
    }
}

/// Without the newest record, a choice admissible after a write is admissible before it.
proof fn lemma_admissible_before(
    t: HeapTableModel,
    j: JournalModel,
    g: Ledger,
    u: HeapTableModel,
    k: JournalModel,
    h: Ledger,
    txn: TxnId,
    l: u64,
    kept: Set<u64>,
)
    requires
        accounts(t, j, g),
        admissible(u, k, h, kept),
        l == j.log.len() + 1,
        !committed(j, txn),
        forall|x: TxnId| #[trigger] committed(k, x) == committed(j, x),
        h.alive_of(txn) == g.alive_of(txn).push(l),
        forall|x: TxnId| x != txn ==> #[trigger] h.alive_of(x) == g.alive_of(x),
        forall|q: (u64, u64)| #[trigger]
            t.contents.contains_key(q) ==> u.contents.contains_key(q) && h.born[q] == g.born[q]
                && u.contents[q].header.xmin == t.contents[q].header.xmin,
        forall|q: (u64, u64)| #[trigger]
            u.contents.contains_key(q) && !t.contents.contains_key(q) ==> h.born[q] == l,
        forall|q: (u64, u64)| #[trigger]
            g.hid.contains_key(q) ==> h.hid.contains_key(q) && h.hid[q] == g.hid[q]
                && u.contents[q].header.xmax == t.contents[q].header.xmax,
        forall|q: (u64, u64)| #[trigger]
            h.hid.contains_key(q) && !g.hid.contains_key(q) ==> h.hid[q] == l,
    ensures
        admissible(t, j, g, kept.remove(l)),
{
    let less = kept.remove(l);
    assert forall|q: (u64, u64)| #[trigger]
        t.contents.contains_key(q) && committed(j, t.contents[q].header.xmin) implies less.contains(
        g.born[q],
    ) by {
        assert(u.contents.contains_key(q));
        assert(committed(k, u.contents[q].header.xmin));
        assert(g.born[q] < l);
    }
    assert forall|q: (u64, u64)|
        #![trigger g.hid.contains_key(q)]
        g.hid.contains_key(q) && committed(j, t.contents[q].header.xmax->0) implies less.contains(
        g.hid[q],
    ) by {
        assert(h.hid.contains_key(q));
        assert(committed(k, u.contents[q].header.xmax->0));
        assert(g.hid[q] < l);
    }
    assert forall|x: u64| #[trigger] less.contains(x) implies stands_behind(t, g, x) by {
        assert(kept.contains(x));
        assert(stands_behind(u, h, x));
        if exists|q: (u64, u64)| #[trigger] u.contents.contains_key(q) && h.born[q] == x {
            let q = choose|q: (u64, u64)| #[trigger] u.contents.contains_key(q) && h.born[q] == x;
            assert(t.contents.contains_key(q));
        } else {
            let q = choose|q: (u64, u64)| #[trigger] h.hid.contains_key(q) && h.hid[q] == x;
            assert(g.hid.contains_key(q));
        }
    }
    assert forall|x: TxnId, a: int, b: int|
        #![trigger g.alive_of(x)[a], g.alive_of(x)[b]]
        0 <= a < b < g.alive_of(x).len() && less.contains(g.alive_of(x)[b]) implies less.contains(
        g.alive_of(x)[a],
    ) by {
        lemma_alive(t, j, g, x, l);
        assert(g.alive_of(x).contains(g.alive_of(x)[a]));
        assert(h.alive_of(x)[a] == g.alive_of(x)[a]);
        assert(h.alive_of(x)[b] == g.alive_of(x)[b]);
    }
}

} // verus!
