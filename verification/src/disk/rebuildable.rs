//! Every operation on a table that is never vacuumed leaves it one that its journal can rebuild.

use vstd::prelude::*;

use super::contents::StoredModel;
use super::journal::{mark_in, JournalModel, MarkModel};
use super::ledger::{
    accounts, admissible, backed, chained, committed, entry_backed, numbered, project, record_of,
    replays_back, stands_behind, standing, table_redo, undo_backed, writes_key, Ledger,
};
use super::ledger_steps::{
    elsewhere, foreign, lemma_delete_accounts, lemma_elsewhere, lemma_insert_accounts,
    lemma_same_rows, lemma_update_accounts, untouched, with_birth, with_death, with_update,
};
use super::ledger_undo::{last_gone, lemma_undo_accounts};
use super::table_model::{HeapTableModel, RowUndo};
use super::told::{
    lemma_alive_in_log, lemma_told_ended, lemma_told_quiet, lemma_told_rolled, lemma_told_same,
    lemma_told_savepoint, lemma_told_write, marked_at, moves_on, orderly, quiet_step, rebuildable,
    running, splits, told,
};
use super::wal::WalRecordKind;
use super::wal_payload::law_row_change_reads_back;
use crate::ids::{RowId, SavepointId, TableId, TxnId};
use crate::snapshot::TxnStatus;
use crate::value::ValueModel;

verus! {

/// Whether the records of `txn` from the `n`-th of its running ones on stand behind nothing any
/// more, and the others behind what they did.
pub open spec fn cut_back(
    t: HeapTableModel,
    g: Ledger,
    txn: TxnId,
    n: int,
    u: HeapTableModel,
    h: Ledger,
) -> bool {
    &&& h.alive_of(txn) == g.alive_of(txn).take(n)
    &&& forall|x: TxnId| x != txn ==> #[trigger] h.alive_of(x) == g.alive_of(x)
    &&& forall|l: u64| #[trigger]
        stands_behind(u, h, l) <==> stands_behind(t, g, l) && !g.alive_of(txn).skip(n).contains(l)
}

/// Undoing writes of a running transaction, the last one first, never fails, and leaves the
/// journal accounting for the table.
proof fn lemma_all_undone(
    t: HeapTableModel,
    j: JournalModel,
    g: Ledger,
    txn: TxnId,
    base: Seq<RowUndo>,
    ws: Seq<RowUndo>,
)
    requires
        accounts(t.with_writes(txn, base + ws), j, g),
    ensures
        t.stuck(txn, ws) is None,
        t.all_undone(txn, ws).writes == t.writes,
        t.all_undone(txn, ws).table == t.table,
        t.all_undone(txn, ws).next_row_id == t.next_row_id,
        exists|h: Ledger|
            accounts(t.all_undone(txn, ws).with_writes(txn, base), j, h) && #[trigger] cut_back(
                t,
                g,
                txn,
                base.len() as int,
                t.all_undone(txn, ws),
                h,
            ),
    decreases ws.len(),
{
    let w = base + ws;
    let full = t.with_writes(txn, w);
    assert(full.writes_of(txn) == w);
    assert(g.alive_of(txn).len() == full.writes_of(txn).len());
    if ws.len() == 0 {
        assert(w =~= base);
        assert(g.alive_of(txn).take(base.len() as int) =~= g.alive_of(txn));
        assert(g.alive_of(txn).skip(base.len() as int) =~= Seq::<u64>::empty());
        assert(cut_back(t, g, txn, base.len() as int, t, g));
    } else {
        assert(w.last() == ws.last());
        assert(w.drop_last() =~= base + ws.drop_last());
        lemma_undo_accounts(t, j, g, txn, w);
        let u = t.undone(txn, ws.last());
        let h = choose|h: Ledger|
            accounts(u.with_writes(txn, w.drop_last()), j, h) && #[trigger] last_gone(
                t,
                g,
                txn,
                u,
                h,
            );
        lemma_all_undone(u, j, h, txn, base, ws.drop_last());
        let v = t.all_undone(txn, ws);
        let n = base.len() as int;
        let f = choose|f: Ledger|
            accounts(v.with_writes(txn, base), j, f) && #[trigger] cut_back(u, h, txn, n, v, f);
        let all = g.alive_of(txn);
        assert(h.alive_of(txn).take(n) =~= all.take(n));
        assert forall|l: u64| #[trigger] stands_behind(v, f, l) <==> stands_behind(t, g, l)
            && !all.skip(n).contains(l) by {
            let some = h.alive_of(txn).skip(n);
            assert(all.skip(n) =~= some.push(all.last()));
            if some.contains(l) {
                let i = choose|i: int| 0 <= i < some.len() && some[i] == l;
                assert(all.skip(n)[i] == l);
            }
            if all.skip(n).contains(l) && l != all.last() {
                let i = choose|i: int| 0 <= i < all.skip(n).len() && all.skip(n)[i] == l;
                assert(some[i] == l);
            }
            if l == all.last() {
                assert(all.skip(n)[some.len() as int] == l);
            }
            assert(stands_behind(u, h, l) <==> stands_behind(t, g, l) && l != all.last());
        }
        assert(cut_back(t, g, txn, n, v, f));
    }
}

/// The journal of an instance accounts for a table nothing was written in.
pub proof fn lemma_empty_table_rebuildable(t: HeapTableModel, j: JournalModel)
    requires
        t.whole(),
        t.contents == Map::<(u64, u64), StoredModel>::empty(),
        forall|txn: TxnId| (#[trigger] t.writes_of(txn)).len() == 0,
        orderly(j),
        forall|i: int| 0 <= i < j.log.len() ==> foreign(#[trigger] j.log[i], t.table),
        forall|txn: TxnId, i: int|
            0 <= i < j.record(txn).savepoints.len() ==> mark_in(
                #[trigger] j.record(txn).savepoints[i],
                t.table.0 as u64,
            ) == 0,
    ensures
        rebuildable(t, j),
{
    let g = Ledger {
        born: Map::empty(),
        hid: Map::empty(),
        replaced: Map::empty(),
        alive: Map::empty(),
    };
    assert forall|txn: TxnId| #[trigger] g.alive_of(txn).len() == t.writes_of(txn).len() by {}
    assert forall|kept: Set<u64>| #[trigger] admissible(t, j, g, kept) implies table_redo(
        j.log,
        j.log.len() as int,
        t.table,
        kept,
    ) == Some(project(t.contents, g, kept)) by {
        lemma_foreign_log(j, t.table, j.log.len() as int, kept);
        assert(project(t.contents, g, kept) =~= Map::<(u64, u64), StoredModel>::empty());
    }
    assert(accounts(t, j, g));
    assert forall|txn: TxnId, i: int, p: int|
        #![trigger marked_at(j.log, txn.0, j.txns[txn.0].savepoints[i].id, p)]
        running(j, txn) && 0 <= i < j.txns[txn.0].savepoints.len() implies splits(
        g.alive_of(txn),
        mark_in(j.txns[txn.0].savepoints[i], t.table.0 as u64),
        p,
    ) by {
        assert(j.record(txn).savepoints[i] == j.txns[txn.0].savepoints[i]);
    }
    assert forall|l: u64| #[trigger] stands_behind(t, g, l) implies l > j.log.len() by {}
    assert forall|l: u64| 1 <= l <= j.log.len() implies foreign(
        #[trigger] record_of(j.log, l),
        t.table,
    ) by {
        assert(foreign(j.log[l - 1], t.table));
    }
    assert(told(t, j, g));
}

/// A log that says nothing of a table rebuilds nothing of it.
proof fn lemma_foreign_log(j: JournalModel, table: TableId, n: int, kept: Set<u64>)
    requires
        0 <= n <= j.log.len(),
        forall|i: int| 0 <= i < j.log.len() ==> foreign(#[trigger] j.log[i], table),
    ensures
        table_redo(j.log, n, table, kept) == Some(Map::<(u64, u64), StoredModel>::empty()),
    decreases n,
{
    if n > 0 {
        lemma_foreign_log(j, table, n - 1, kept);
        assert(foreign(j.log[n - 1], table));
    }
}

/// A record of the journal that says nothing of a table, and work of transactions that wrote
/// nothing in it, leave the table rebuildable.
pub proof fn lemma_work_elsewhere(
    t: HeapTableModel,
    a: JournalModel,
    b: JournalModel,
)
    requires
        rebuildable(t, a),
        elsewhere(a, b, t.table, Set::empty()),
        quiet_step(a, b, t.table),
    ensures
        rebuildable(t, b),
{
    let g = choose|g: Ledger| #[trigger] accounts(t, a, g) && told(t, a, g);
    lemma_elsewhere(t, a, b, g, Set::empty());
    lemma_told_quiet(t, a, b, g);
}

/// A write adds one record to those that stand behind a version.
proof fn lemma_stands_more(t: HeapTableModel, u: HeapTableModel, g: Ledger, h: Ledger, l: u64)
    requires
        forall|k: (u64, u64)| #[trigger]
            t.contents.contains_key(k) ==> u.contents.contains_key(k) && h.born[k] == g.born[k],
        forall|k: (u64, u64)| #[trigger]
            u.contents.contains_key(k) && !t.contents.contains_key(k) ==> h.born[k] == l,
        forall|k: (u64, u64)| #[trigger]
            g.hid.contains_key(k) ==> h.hid.contains_key(k) && h.hid[k] == g.hid[k],
        forall|k: (u64, u64)| #[trigger]
            h.hid.contains_key(k) && !g.hid.contains_key(k) ==> h.hid[k] == l,
        stands_behind(u, h, l),
    ensures
        forall|x: u64| #[trigger] stands_behind(u, h, x) <==> stands_behind(t, g, x) || x == l,
{
    assert forall|x: u64| #[trigger] stands_behind(u, h, x) <==> stands_behind(t, g, x) || x
        == l by {
        if stands_behind(u, h, x) && x != l {
            if exists|k: (u64, u64)| #[trigger] u.contents.contains_key(k) && h.born[k] == x {
                let k = choose|k: (u64, u64)| #[trigger]
                    u.contents.contains_key(k) && h.born[k] == x;
                assert(t.contents.contains_key(k));
            } else {
                let k = choose|k: (u64, u64)| #[trigger] h.hid.contains_key(k) && h.hid[k] == x;
                assert(g.hid.contains_key(k));
            }
        }
        if stands_behind(t, g, x) {
            if exists|k: (u64, u64)| #[trigger] t.contents.contains_key(k) && g.born[k] == x {
                let k = choose|k: (u64, u64)| #[trigger]
                    t.contents.contains_key(k) && g.born[k] == x;
                assert(u.contents.contains_key(k));
            } else {
                let k = choose|k: (u64, u64)| #[trigger] g.hid.contains_key(k) && g.hid[k] == x;
                assert(h.hid.contains_key(k));
            }
        }
    }
}

/// Beginning to write keeps a table rebuildable.
proof fn lemma_begun(t: HeapTableModel, j: JournalModel, txn: TxnId, g: Ledger, table: TableId)
    requires
        accounts(t, j, g),
        told(t, j, g),
        !j.finished(txn),
        !j.begin_refused(txn),
    ensures
        accounts(t, j.begun(txn, table), g),
        told(t, j.begun(txn, table), g),
        running(j.begun(txn, table), txn),
        j.begun(txn, table).txns[txn.0].began,
        j.begun(txn, table).txns[txn.0].tables.contains(table.0 as u64),
        standing(j.begun(txn, table), txn),
        !committed(j.begun(txn, table), txn),
{
    let k = j.begun(txn, table);
    if !j.record(txn).began {
        assert(k.log.drop_last() =~= j.log);
    }
    lemma_elsewhere(t, j, k, g, Set::empty());
    assert(k.txns[txn.0].status == TxnStatus::InProgress);
    lemma_same_marks(j, k);
    lemma_told_quiet(t, j, k, g);
}

/// Beginning is a quiet step, and so is noting a table.
pub proof fn lemma_same_marks(j: JournalModel, k: JournalModel)
    requires
        forall|x: u64| #[trigger]
            j.txns.contains_key(x) ==> k.txns.contains_key(x) && k.txns[x].status
                == j.txns[x].status && (j.txns[x].began ==> k.txns[x].began)
                && k.txns[x].savepoints == j.txns[x].savepoints,
    ensures
        forall|x: u64| #[trigger]
            j.txns.contains_key(x) ==> moves_on(j.txns[x], k.txns[x], k.log, x),
{
    assert forall|x: u64| #[trigger] j.txns.contains_key(x) implies moves_on(
        j.txns[x],
        k.txns[x],
        k.log,
        x,
    ) by {
        let marks = j.txns[x].savepoints;
        assert(marks.take(marks.len() as int) =~= marks);
    }
}

/// A first write that the journal refuses keeps a table rebuildable.
proof fn lemma_noted(t: HeapTableModel, j: JournalModel, txn: TxnId, g: Ledger)
    requires
        accounts(t, j, g),
        told(t, j, g),
        !j.finished(txn),
    ensures
        rebuildable(t, j.noted(txn, t.table)),
{
    let k = j.noted(txn, t.table);
    lemma_elsewhere(t, j, k, g, Set::empty());
    lemma_same_marks(j, k);
    lemma_told_quiet(t, j, k, g);
}

/// An insert leaves its table rebuildable, whether it is accepted or refused.
#[verifier::rlimit(40)]
pub proof fn lemma_insert_rebuildable(
    t: HeapTableModel,
    j: JournalModel,
    txn: TxnId,
    data: Seq<ValueModel>,
)
    requires
        rebuildable(t, j),
        t.insert_outcome(j, txn, data).table.whole(),
    ensures
        ({
            let o = t.insert_outcome(j, txn, data);
            rebuildable(o.table, o.journal)
        }),
{
    let o = t.insert_outcome(j, txn, data);
    let g = choose|g: Ledger| #[trigger] accounts(t, j, g) && told(t, j, g);
    let row = RowId(t.next_row_id);
    if t.insert_refusal(txn, data.len(), j) is Some || t.next_row_id == u64::MAX || t.next_address
        == u64::MAX {
    } else if j.begin_refused(txn) {
        lemma_noted(t, j, txn, g);
    } else {
        let k = j.begun(txn, t.table);
        lemma_begun(t, j, txn, g, t.table);
        assert forall|x: TxnId| #[trigger] t.opened(txn).writes_of(x) == t.writes_of(x) by {}
        if t.next_seq == u64::MAX {
            lemma_same_rows(t, o.table, k, g);
            lemma_told_same(t, o.table, k, g);
        } else {
            let change = t.fresh_change(txn, row, data);
            if k.refuses(change.encoded().len()) {
                assert forall|x: TxnId| #[trigger] o.table.writes_of(x) == t.writes_of(x) by {}
                lemma_same_rows(t, o.table, k, g);
                lemma_told_same(t, o.table, k, g);
            lemma_told_same(t, o.table, k, g);
            } else {
                lemma_insert_accounts(t, k, o.journal, g, txn, data);
                let l = o.journal.log.len() as u64;
                let key = (t.next_row_id, t.next_seq);
                let h = with_birth(g, txn, l, key);
                law_row_change_reads_back(change);
                assert(o.table.contents.contains_key(key));
                lemma_stands_more(t, o.table, g, h, l);
                lemma_told_write(t, k, g, o.table, o.journal, h, txn);
            }
        }
    }
}

/// An update leaves its table rebuildable, whether it is accepted or refused.
#[verifier::rlimit(40)]
pub proof fn lemma_update_rebuildable(
    t: HeapTableModel,
    j: JournalModel,
    txn: TxnId,
    row: RowId,
    data: Seq<ValueModel>,
)
    requires
        rebuildable(t, j),
        t.update_outcome(j, txn, row, data).table.whole(),
    ensures
        ({
            let o = t.update_outcome(j, txn, row, data);
            rebuildable(o.table, o.journal)
        }),
{
    let o = t.update_outcome(j, txn, row, data);
    let g = choose|g: Ledger| #[trigger] accounts(t, j, g) && told(t, j, g);
    if t.replace_refusal(txn, row, Some(data.len()), j) is Some || t.next_address == u64::MAX {
    } else if j.begin_refused(txn) {
        lemma_noted(t, j, txn, g);
    } else {
        let k = j.begun(txn, t.table);
        lemma_begun(t, j, txn, g, t.table);
        lemma_still_writable(t, j, txn, row, g);
        assert forall|x: TxnId| #[trigger] t.opened(txn).writes_of(x) == t.writes_of(x) by {}
        if t.next_seq == u64::MAX {
            lemma_same_rows(t, o.table, k, g);
            lemma_told_same(t, o.table, k, g);
        } else {
            let change = t.fresh_change(txn, row, data);
            if k.refuses(change.encoded().len()) {
                assert forall|x: TxnId| #[trigger] o.table.writes_of(x) == t.writes_of(x) by {}
                lemma_same_rows(t, o.table, k, g);
                lemma_told_same(t, o.table, k, g);
            lemma_told_same(t, o.table, k, g);
            } else {
                lemma_update_accounts(t, k, o.journal, g, txn, row, data);
                let l = o.journal.log.len() as u64;
                let key = (row.0, t.next_seq);
                let cur = (row.0, t.current[row.0]);
                let h = with_update(g, txn, l, cur, key);
                law_row_change_reads_back(change);
                assert(o.table.contents.contains_key(key));
                assert(t.contents.contains_key(cur));
                lemma_stands_more(t, o.table, g, h, l);
                lemma_told_write(t, k, g, o.table, o.journal, h, txn);
            }
        }
    }
}

/// Beginning to write does not change which rows a transaction may replace.
proof fn lemma_still_writable(
    t: HeapTableModel,
    j: JournalModel,
    txn: TxnId,
    row: RowId,
    g: Ledger,
)
    requires
        accounts(t, j, g),
        !j.finished(txn),
        t.writable(txn, row, j.st()),
    ensures
        t.writable(txn, row, j.begun(txn, t.table).st()),
{
    let xmin = t.version(row).header.xmin;
    let cur = (row.0, t.current[row.0]);
    assert(t.contents.contains_key(cur));
    assert(standing(j, xmin));
    if xmin != txn {
        assert(j.begun(txn, t.table).txns[xmin.0] == j.txns[xmin.0]);
    }
}

/// A delete leaves its table rebuildable, whether it is accepted or refused.
#[verifier::rlimit(40)]
pub proof fn lemma_delete_rebuildable(t: HeapTableModel, j: JournalModel, txn: TxnId, row: RowId)
    requires
        rebuildable(t, j),
        t.delete_outcome(j, txn, row).table.whole(),
    ensures
        ({
            let o = t.delete_outcome(j, txn, row);
            rebuildable(o.table, o.journal)
        }),
{
    let o = t.delete_outcome(j, txn, row);
    let g = choose|g: Ledger| #[trigger] accounts(t, j, g) && told(t, j, g);
    if t.replace_refusal(txn, row, None, j) is Some {
    } else if j.begin_refused(txn) {
        lemma_noted(t, j, txn, g);
    } else {
        let k = j.begun(txn, t.table);
        lemma_begun(t, j, txn, g, t.table);
        lemma_still_writable(t, j, txn, row, g);
        let change = t.hidden_change(txn, row);
        if k.refuses(change.encoded().len()) {
            assert forall|x: TxnId| #[trigger] o.table.writes_of(x) == t.writes_of(x) by {}
            lemma_same_rows(t, o.table, k, g);
            lemma_told_same(t, o.table, k, g);
        } else {
            lemma_delete_accounts(t, k, o.journal, g, txn, row);
            let l = o.journal.log.len() as u64;
            let cur = (row.0, t.current[row.0]);
            let h = with_death(g, txn, l, cur);
            law_row_change_reads_back(change);
            assert(t.contents.contains_key(cur));
            assert(h.hid.contains_key(cur));
            lemma_stands_more(t, o.table, g, h, l);
            lemma_told_write(t, k, g, o.table, o.journal, h, txn);
        }
    }
}

/// Undoing the writes of a running transaction from any of them on never fails, and takes back
/// what their records did.
#[verifier::rlimit(40)]
proof fn lemma_cut(t: HeapTableModel, j: JournalModel, g: Ledger, txn: TxnId, mark: nat)
    requires
        accounts(t, j, g),
        mark <= t.writes_of(txn).len(),
    ensures
        ({
            let ws = t.writes_of(txn).skip(mark as int);
            let u = t.cut(txn, mark).all_undone(txn, ws);
            &&& t.cut(txn, mark).stuck(txn, ws) is None
            &&& u.table == t.table
            &&& u.writes_of(txn) == t.writes_of(txn).take(mark as int)
            &&& exists|h: Ledger| #[trigger]
                accounts(u, j, h) && cut_back(t, g, txn, mark as int, u, h)
        }),
{
    let w = t.writes_of(txn);
    let base = w.take(mark as int);
    let ws = w.skip(mark as int);
    let cut = t.cut(txn, mark);
    let whole = cut.with_writes(txn, base + ws);
    assert(base + ws =~= w);
    assert forall|x: TxnId| #[trigger] whole.writes_of(x) == t.writes_of(x) by {}
    lemma_same_rows(t, whole, j, g);
    lemma_all_undone(cut, j, g, txn, base, ws);
    let u = cut.all_undone(txn, ws);
    let h = choose|h: Ledger|
        accounts(u.with_writes(txn, base), j, h) && #[trigger] cut_back(
            cut,
            g,
            txn,
            base.len() as int,
            u,
            h,
        );
    assert(u.writes == cut.writes);
    assert(cut.writes_of(txn) =~= base);
    assert forall|x: TxnId| #[trigger] u.writes_of(x) == u.with_writes(txn, base).writes_of(x) by {}
    assert(u.whole()) by {
        let v = u.with_writes(txn, base);
        assert(v.whole());
        assert(v.contents == u.contents && v.current == u.current && v.lost == u.lost);
    }
    lemma_same_rows(u.with_writes(txn, base), u, j, h);
    assert forall|l: u64| #[trigger] stands_behind(cut, g, l) == stands_behind(t, g, l) by {}
    assert forall|l: u64| #[trigger] stands_behind(u, h, l) <==> stands_behind(t, g, l)
        && !g.alive_of(txn).skip(mark as int).contains(l) by {
        assert(stands_behind(cut, g, l) == stands_behind(t, g, l));
    }
    assert(cut_back(t, g, txn, mark as int, u, h));
}

/// Taking a savepoint leaves the table rebuildable, whether the savepoint is kept or not.
pub proof fn lemma_savepoint_rebuildable(
    t: HeapTableModel,
    j: JournalModel,
    txn: TxnId,
    writes: Map<u64, usize>,
)
    requires
        rebuildable(t, j),
        !j.finished(txn),
        !j.savepoints_exhausted(),
        !j.refuses(8),
    ensures
        rebuildable(t, j.savepoint_logged(txn)),
        ({
            let mark = MarkModel { id: SavepointId(j.next_savepoint_id), writes };
            mark_in(mark, t.table.0 as u64) == t.writes_of(txn).len() ==> rebuildable(
                t,
                j.savepoint_logged(txn).with_mark(txn, mark),
            )
        }),
{
    let g = choose|g: Ledger| #[trigger] accounts(t, j, g) && told(t, j, g);
    let mark = MarkModel { id: SavepointId(j.next_savepoint_id), writes };
    let bare = j.savepoint_logged(txn);
    let kept = bare.with_mark(txn, mark);
    assert(bare.log.drop_last() =~= j.log);
    lemma_elsewhere(t, j, bare, g, Set::empty());
    lemma_told_savepoint(t, j, g, bare, txn, writes, false);
    if mark_in(mark, t.table.0 as u64) == t.writes_of(txn).len() {
        assert(kept.log.drop_last() =~= j.log);
        lemma_elsewhere(t, j, kept, g, Set::empty());
        lemma_told_savepoint(t, j, g, kept, txn, writes, true);
    }
}

/// Rolling a running transaction back to one of its savepoints never fails, and leaves the table
/// rebuildable: the recovery leaves out exactly the writes that were undone.
pub proof fn lemma_rollback_to_rebuildable(
    t: HeapTableModel,
    j: JournalModel,
    txn: TxnId,
    sp: SavepointId,
    i: int,
)
    requires
        rebuildable(t, j),
        running(j, txn),
        j.savepoint_at(txn, sp, i),
        !j.refuses(8),
    ensures
        ({
            let mark = mark_in(j.record(txn).savepoints[i], t.table.0 as u64);
            let ws = t.writes_after(txn, mark);
            &&& t.cut(txn, mark).stuck(txn, ws) is None
            &&& rebuildable(
                t.cut(txn, mark).all_undone(txn, ws),
                j.rollback_logged(txn, sp).marks_cut(txn, i),
            )
        }),
{
    let g = choose|g: Ledger| #[trigger] accounts(t, j, g) && told(t, j, g);
    let marks = j.record(txn).savepoints;
    let mark = mark_in(marks[i], t.table.0 as u64);
    assert(super::told::marks_told(j.log, j.next_savepoint_id, txn.0, marks));
    let p = choose|p: int| marked_at(j.log, txn.0, marks[i].id, p);
    assert(marked_at(j.log, txn.0, j.txns[txn.0].savepoints[i].id, p));
    assert(splits(g.alive_of(txn), mark, p));
    assert(g.alive_of(txn).len() == t.writes_of(txn).len());
    lemma_cut(t, j, g, txn, mark);
    let u = t.cut(txn, mark).all_undone(txn, t.writes_of(txn).skip(mark as int));
    let h = choose|h: Ledger| #[trigger]
        accounts(u, j, h) && cut_back(t, g, txn, mark as int, u, h);
    let k = j.rollback_logged(txn, sp).marks_cut(txn, i);
    assert(k.log.drop_last() =~= j.log);
    lemma_elsewhere(u, j, k, h, Set::empty());
    lemma_told_rolled(t, j, g, u, k, h, txn, sp, i);
}

/// A rollback never fails, and leaves the table rebuildable.
pub proof fn lemma_rollback_rebuildable(t: HeapTableModel, j: JournalModel, txn: TxnId)
    requires
        rebuildable(t, j),
        !j.finished(txn),
        !(j.record(txn).began && j.refuses(0)),
    ensures
        t.cut(txn, 0).stuck(txn, t.writes_of(txn)) is None,
        rebuildable(
            t.cut(txn, 0).all_undone(txn, t.writes_of(txn)),
            j.ended(txn, WalRecordKind::Abort),
        ),
{
    let g = choose|g: Ledger| #[trigger] accounts(t, j, g) && told(t, j, g);
    lemma_cut(t, j, g, txn, 0);
    assert(t.writes_of(txn).skip(0) =~= t.writes_of(txn));
    let u = t.cut(txn, 0).all_undone(txn, t.writes_of(txn));
    let h = choose|h: Ledger| #[trigger] accounts(u, j, h) && cut_back(t, g, txn, 0, u, h);
    assert(u.writes_of(txn) =~= Seq::<RowUndo>::empty());
    let k = j.ended(txn, WalRecordKind::Abort);
    let spared = Set::<u64>::empty().insert(txn.0);
    assert(h.alive_of(txn).len() == u.writes_of(txn).len());
    assert(untouched(u, h, spared)) by {
        assert forall|q: (u64, u64)| #[trigger] u.contents.contains_key(q) implies !spared.contains(
            u.contents[q].header.xmin.0,
        ) by {
            let x = u.contents[q].header.xmin;
            if x == txn {
                assert(standing(j, x));
                assert(!committed(j, x));
                assert(h.alive_of(x).contains(h.born[q]));
            }
        }
        assert forall|q: (u64, u64)| #[trigger] h.hid.contains_key(q) implies !spared.contains(
            (u.contents[q].header.xmax->0).0,
        ) by {
            let x = u.contents[q].header.xmax->0;
            if x == txn {
                assert(standing(j, x));
                assert(!committed(j, x));
                assert(h.alive_of(x).contains(h.hid[q]));
            }
        }
    }
    if j.record(txn).began {
        assert(k.log.drop_last() =~= j.log);
    }
    lemma_elsewhere(u, j, k, h, spared);
    lemma_ending(j, txn, WalRecordKind::Abort, t.table);
    lemma_told_quiet(t, j, k, g);
    lemma_alive_in_log(t, j, g, txn);
    assert forall|l: u64| 1 <= l <= k.log.len() && standing(k, record_of(k.log, l).txn) implies (
    #[trigger] stands_behind(u, h, l) <==> stands_behind(t, g, l)) by {
        let gone = g.alive_of(txn).skip(0);
        if gone.contains(l) {
            let b = choose|b: int| 0 <= b < gone.len() && gone[b] == l;
            assert(g.alive_of(txn)[b] == l);
            assert(record_of(k.log, l) == record_of(j.log, l));
        }
    }
    lemma_told_ended(t, u, k, g, h, txn);
}

/// Ending a transaction is a quiet step.
pub proof fn lemma_ending(j: JournalModel, txn: TxnId, kind: WalRecordKind, table: TableId)
    requires
        orderly(j),
        !j.finished(txn),
        !(j.record(txn).began && j.refuses(0)),
        kind == WalRecordKind::Commit || kind == WalRecordKind::Abort,
    ensures
        quiet_step(j, j.ended(txn, kind), table),
{
    let k = j.ended(txn, kind);
    if j.record(txn).began {
        assert(k.log == j.log.push(k.log.last()));
        assert(k.log[j.log.len() as int] == k.log.last());
    }
    assert forall|x: u64| #[trigger] j.txns.contains_key(x) implies moves_on(
        j.txns[x],
        k.txns[x],
        k.log,
        x,
    ) by {
        let marks = j.txns[x].savepoints;
        assert(marks.take(marks.len() as int) =~= marks);
    }
}

/// A commit leaves the table rebuildable: from then on a crash keeps what the transaction wrote.
#[verifier::rlimit(40)]
pub proof fn lemma_commit_rebuildable(t: HeapTableModel, j: JournalModel, txn: TxnId)
    requires
        rebuildable(t, j),
        !j.finished(txn),
        !(j.record(txn).began && j.refuses(0)),
    ensures
        rebuildable(t.cut(txn, 0), j.ended(txn, WalRecordKind::Commit)),
{
    let g = choose|g: Ledger| #[trigger] accounts(t, j, g) && told(t, j, g);
    let k = j.ended(txn, WalRecordKind::Commit);
    let u = t.cut(txn, 0);
    let h = Ledger { alive: g.alive.insert(txn.0, Seq::empty()), ..g };
    assert(h.alive_of(txn) =~= Seq::<u64>::empty());
    assert(u.writes_of(txn) =~= Seq::<RowUndo>::empty());
    assert forall|x: TxnId| x != txn implies #[trigger] h.alive_of(x) == g.alive_of(x)
        && u.writes_of(x) == t.writes_of(x) by {}
    assert forall|i: int| 0 <= i < j.log.len() implies j.log[i] == k.log[i] by {}
    assert(numbered(k.log));
    assert forall|x: TxnId| x != txn && #[trigger] standing(j, x) implies standing(k, x)
        && committed(k, x) == committed(j, x) by {}
    assert(standing(k, txn) && committed(k, txn));
    assert forall|kind: WalRecordKind, l: u64, q: (u64, u64)| #[trigger]
        writes_key(j.log, t.table, l, kind, q) implies writes_key(k.log, t.table, l, kind, q)
        && record_of(k.log, l) == record_of(j.log, l) by {}
    assert forall|q: (u64, u64)| #[trigger] t.contents.contains_key(q) implies standing(
        j,
        t.contents[q].header.xmin,
    ) && record_of(k.log, g.born[q]) == record_of(j.log, g.born[q]) by {}
    assert forall|q: (u64, u64)| #[trigger] g.hid.contains_key(q) implies record_of(
        k.log,
        g.hid[q],
    ) == record_of(j.log, g.hid[q]) && standing(j, record_of(j.log, g.hid[q]).txn)
        && t.contents.contains_key(q) by {}
    assert(backed(u, k, h));
    assert(chained(u, k, h));
    assert(undo_backed(u, k, h)) by {
        assert forall|x: TxnId, i: int|
            #![trigger h.alive_of(x)[i]]
            0 <= i < h.alive_of(x).len() implies {
            &&& entry_backed(u, k, h, u.writes_of(x)[i], h.alive_of(x)[i])
            &&& record_of(k.log, h.alive_of(x)[i]).txn == x
            &&& standing(k, x) && !committed(k, x)
        } by {
            assert(x != txn);
            assert(h.alive_of(x)[i] == g.alive_of(x)[i]);
            assert(entry_backed(t, j, g, t.writes_of(x)[i], g.alive_of(x)[i]));
            assert(standing(j, x));
        }
        assert forall|x: TxnId| #[trigger] h.alive_of(x).len() == u.writes_of(x).len() by {
            assert(g.alive_of(x).len() == t.writes_of(x).len());
        }
        assert forall|x: TxnId, a: int, b: int|
            #![trigger h.alive_of(x)[a], h.alive_of(x)[b]]
            0 <= a < b < h.alive_of(x).len() implies h.alive_of(x)[a] < h.alive_of(x)[b] by {
            assert(h.alive_of(x)[a] == g.alive_of(x)[a]);
            assert(h.alive_of(x)[b] == g.alive_of(x)[b]);
        }
    }
    assert(replays_back(u, k, h)) by {
        assert forall|kept: Set<u64>| #[trigger] admissible(u, k, h, kept) implies table_redo(
            k.log,
            k.log.len() as int,
            u.table,
            kept,
        ) == Some(project(u.contents, h, kept)) by {
            assert(admissible(t, j, g, kept)) by {
                assert forall|q: (u64, u64)| #[trigger]
                    t.contents.contains_key(q) && committed(
                        j,
                        t.contents[q].header.xmin,
                    ) implies kept.contains(g.born[q]) by {
                    assert(u.contents.contains_key(q));
                    assert(committed(k, u.contents[q].header.xmin));
                }
                assert forall|q: (u64, u64)|
                    #![trigger g.hid.contains_key(q)]
                    g.hid.contains_key(q) && committed(
                        j,
                        t.contents[q].header.xmax->0,
                    ) implies kept.contains(g.hid[q]) by {
                    assert(h.hid.contains_key(q));
                    assert(committed(k, u.contents[q].header.xmax->0));
                }
                assert forall|l: u64| #[trigger] kept.contains(l) implies stands_behind(t, g, l) by {
                    assert(stands_behind(u, h, l));
                }
                assert forall|x: TxnId, a: int, b: int|
                    #![trigger g.alive_of(x)[a], g.alive_of(x)[b]]
                    0 <= a < b < g.alive_of(x).len() && kept.contains(
                        g.alive_of(x)[b],
                    ) implies kept.contains(g.alive_of(x)[a]) by {
                    if x == txn {
                        // Every record of a committed transaction is kept.
                        let l = g.alive_of(x)[a];
                        assert(entry_backed(t, j, g, t.writes_of(x)[a], l));
                        assert(record_of(j.log, l).txn == txn);
                        let key = super::redo::change_key(
                            super::wal_payload::change_of(record_of(j.log, l).payload),
                        );
                        match t.writes_of(x)[a] {
                            RowUndo::Insert(_) => {
                                assert(u.contents.contains_key(key));
                            },
                            RowUndo::Update(_) => {
                                assert(u.contents.contains_key(key));
                            },
                            RowUndo::Delete(_) => {
                                assert(h.hid.contains_key(key));
                            },
                        }
                    } else {
                        assert(h.alive_of(x)[a] == g.alive_of(x)[a]);
                        assert(h.alive_of(x)[b] == g.alive_of(x)[b]);
                    }
                }
            }
            super::ledger::lemma_redo_same(
                j.log,
                k.log,
                j.log.len() as int,
                t.table,
                kept,
                kept,
            );
            assert(project(u.contents, h, kept) =~= project(t.contents, g, kept));
        }
    }
    assert(accounts(u, k, h));
    lemma_ending(j, txn, WalRecordKind::Commit, t.table);
    lemma_told_quiet(t, j, k, g);
    assert forall|l: u64| #[trigger] stands_behind(u, h, l) == stands_behind(t, g, l) by {}
    lemma_told_ended(t, u, k, g, h, txn);
}

} // verus!
