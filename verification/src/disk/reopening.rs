//! What a reopen gives back: whatever was committed, nothing that was not, and a table that can be
//! worked on and crash again.

use vstd::prelude::*;

use super::catalogue::CatalogueModel;
use super::control::Control;
use super::durability::{at_or_past, lemma_reads_full, pruned, recoverable};
use super::heap_reads::resumes_at;
use super::journal::{JournalModel, TxnRecordModel};
use super::ledger::{
    accounts, admissible, backed, chained, committed, numbered, project, record_of, replays_back,
    rows_given, stands_behind, standing, table_redo, undo_backed, writes_key, Ledger,
};
use super::open::{blank_redo, recovered, resumed_rows, settled_txns, tells_alone};
use super::recover::{
    has_kind, has_seen, is_cancelled, is_row, max_row, max_serial, payload_ok, shows_txn, Recovery,
};
use super::redo::{change_key, numbers, redone, replays, Redone};
use super::storage::DiskStorage;
use super::table_model::{data_of, legible, HeapTableModel};
use super::told::{
    marks_told, orderly, rebuildable, row_of, running, standing_told, told, writer_told,
};
use super::wal::{RecordModel, WalRecordKind};
use super::wal_payload::change_of;
use crate::ids::{TableId, TxnId};
use crate::snapshot::{status_of, Snapshot, TxnStatus};

verus! {

/// The numbers of the records a redo replays.
pub open spec fn kept_by(log: Seq<RecordModel>, winners: Set<u64>, cancelled: Set<u64>) -> Set<u64> {
    Set::new(
        |l: u64| 1 <= l <= log.len() && replays(record_of(log, l), winners, cancelled),
    )
}

/// The records of committed transactions that stand behind a version.
pub open spec fn committed_records(t: HeapTableModel, j: JournalModel, g: Ledger) -> Set<u64> {
    Set::new(|l: u64| stands_behind(t, g, l) && committed(j, record_of(j.log, l).txn))
}

/// A replay of one table depends on its own records alone.
proof fn lemma_own_rows(
    log: Seq<RecordModel>,
    n: int,
    table: TableId,
    ka: Set<u64>,
    kb: Set<u64>,
)
    requires
        0 <= n <= log.len(),
        numbered(log),
        log.len() <= u64::MAX,
        forall|l: u64|
            1 <= l <= log.len() && row_of(record_of(log, l), table) ==> (#[trigger] ka.contains(l)
                <==> kb.contains(l)),
    ensures
        table_redo(log, n, table, ka) == table_redo(log, n, table, kb),
    decreases n,
{
    if n > 0 {
        lemma_own_rows(log, n - 1, table, ka, kb);
        let l = n as u64;
        assert(record_of(log, l) == log[n - 1]);
        assert(log[n - 1].lsn.0 == l);
        if row_of(record_of(log, l), table) {
            assert(ka.contains(l) <==> kb.contains(l));
        }
    }
}

/// The redo of an instance is, in each table, the replay of its records.
pub proof fn lemma_redo_by_table(
    c: CatalogueModel,
    log: Seq<RecordModel>,
    n: int,
    winners: Set<u64>,
    cancelled: Set<u64>,
    table: TableId,
)
    requires
        0 <= n <= log.len(),
        numbered(log),
        log.len() <= u64::MAX,
        c.tables.contains_key(table.0 as u64),
        redone(blank_redo(c), log, n, winners, cancelled) is Some,
    ensures
        ({
            let s = redone(blank_redo(c), log, n, winners, cancelled)->0;
            &&& s.tables.dom() == c.tables.dom()
            &&& table_redo(log, n, table, kept_by(log, winners, cancelled)) == Some(
                s.tables[table.0 as u64],
            )
        }),
    decreases n,
{
    let start = blank_redo(c);
    assert(start.tables.dom() =~= c.tables.dom());
    if n > 0 {
        lemma_redo_by_table(c, log, n - 1, winners, cancelled, table);
        let before = redone(start, log, n - 1, winners, cancelled)->0;
        let s = redone(start, log, n, winners, cancelled)->0;
        let r = log[n - 1];
        let l = n as u64;
        let kept = kept_by(log, winners, cancelled);
        assert(r.lsn.0 == l);
        assert(record_of(log, l) == r);
        assert(kept.contains(l) <==> replays(r, winners, cancelled));
        assert(s.tables.dom() =~= c.tables.dom());
        assert(before.tables.contains_key(table.0 as u64)) by {
            assert(before.tables.dom().contains(table.0 as u64));
        }
    }
}

/// If the records of each table can be replayed, so can the journal.
proof fn lemma_redo_goes_through(
    c: CatalogueModel,
    log: Seq<RecordModel>,
    n: int,
    winners: Set<u64>,
    cancelled: Set<u64>,
)
    requires
        0 <= n <= log.len(),
        numbered(log),
        log.len() <= u64::MAX,
        forall|i: int| 0 <= i < log.len() ==> payload_ok(#[trigger] log[i]),
        forall|table: TableId|
            c.tables.contains_key(table.0 as u64) ==> #[trigger] table_redo(
                log,
                log.len() as int,
                table,
                kept_by(log, winners, cancelled),
            ) is Some,
    ensures
        redone(blank_redo(c), log, n, winners, cancelled) is Some,
    decreases n,
{
    if n > 0 {
        lemma_redo_goes_through(c, log, n - 1, winners, cancelled);
        let start = blank_redo(c);
        let before = redone(start, log, n - 1, winners, cancelled)->0;
        let r = log[n - 1];
        let l = n as u64;
        let table = change_of(r.payload).table;
        let kept = kept_by(log, winners, cancelled);
        assert(r.lsn.0 == l);
        assert(record_of(log, l) == r);
        assert(payload_ok(r));
        if replays(r, winners, cancelled) && c.tables.contains_key(table.0 as u64) {
            lemma_redo_by_table(c, log, n - 1, winners, cancelled, table);
            lemma_shorter_replay(log, n, table, kept);
        } else if replays(r, winners, cancelled) {
            lemma_redo_dom(c, log, n - 1, winners, cancelled);
            assert(!before.tables.dom().contains(table.0 as u64));
        }
    }
}

/// A replay that goes through goes through up to any of its records.
proof fn lemma_shorter_replay(log: Seq<RecordModel>, n: int, table: TableId, kept: Set<u64>)
    requires
        0 <= n <= log.len(),
        table_redo(log, log.len() as int, table, kept) is Some,
    ensures
        table_redo(log, n, table, kept) is Some,
    decreases log.len() - n,
{
    if n < log.len() {
        lemma_shorter_replay(log, n + 1, table, kept);
    }
}

/// A redo adds no table and drops none.
pub proof fn lemma_redo_dom(
    c: CatalogueModel,
    log: Seq<RecordModel>,
    n: int,
    winners: Set<u64>,
    cancelled: Set<u64>,
)
    requires
        redone(blank_redo(c), log, n, winners, cancelled) is Some,
    ensures
        redone(blank_redo(c), log, n, winners, cancelled)->0.tables.dom() == c.tables.dom(),
    decreases n,
{
    assert(blank_redo(c).tables.dom() =~= c.tables.dom());
    if n > 0 {
        lemma_redo_dom(c, log, n - 1, winners, cancelled);
        assert(redone(blank_redo(c), log, n, winners, cancelled)->0.tables.dom() =~= c.tables.dom());
    }
}

/// The records a recovery replays in a table are those of committed transactions that stand.
pub proof fn lemma_kept(t: HeapTableModel, j: JournalModel, g: Ledger, control: Control, r: Recovery)
    requires
        accounts(t, j, g),
        told(t, j, g),
        recovered(j.log, control, r),
    ensures
        admissible(t, j, g, committed_records(t, j, g)),
        table_redo(
            j.log,
            j.log.len() as int,
            t.table,
            kept_by(j.log, numbers(r.winners@), r.cancelled@),
        ) == Some(project(t.contents, g, committed_records(t, j, g))),
        forall|l: u64| #[trigger]
            committed_records(t, j, g).contains(l) ==> 1 <= l <= j.log.len() && row_of(
                record_of(j.log, l),
                t.table,
            ) && numbers(r.winners@).contains(record_of(j.log, l).txn.0),
{
    let log = j.log;
    let won = numbers(r.winners@);
    let kept = kept_by(log, won, r.cancelled@);
    let ours = committed_records(t, j, g);
    assert forall|l: u64| #[trigger] stands_behind(t, g, l) implies 1 <= l <= log.len() && row_of(
        record_of(log, l),
        t.table,
    ) by {
        if exists|k: (u64, u64)| #[trigger] t.contents.contains_key(k) && g.born[k] == l {
            let k = choose|k: (u64, u64)| #[trigger] t.contents.contains_key(k) && g.born[k] == l;
            assert(t.contents.contains_key(k));
        } else {
            let k = choose|k: (u64, u64)| #[trigger] g.hid.contains_key(k) && g.hid[k] == l;
            assert(g.hid.contains_key(k));
        }
    }
    assert forall|l: u64| 1 <= l <= log.len() && row_of(record_of(log, l), t.table) implies (
    #[trigger] kept.contains(l) <==> ours.contains(l)) by {
        let rec = record_of(log, l);
        let x = rec.txn;
        assert(rec == log[l - 1]);
        assert(rec.lsn.0 == l);
        assert(writer_told(j, x.0));
        assert(r.winners@.contains(x) <==> has_kind(log, WalRecordKind::Commit, x.0));
        assert(won.contains(x.0) <==> r.winners@.contains(x));
        if won.contains(x.0) {
            let i = choose|i: int|
                0 <= i < log.len() && (#[trigger] log[i]).kind == WalRecordKind::Commit
                    && log[i].txn.0 == x.0;
            assert(log[i].kind == WalRecordKind::Commit);
            assert(committed(j, x));
        }
        if committed(j, x) {
            assert(won.contains(x.0));
            assert(standing(j, x));
        }
        assert(r.cancelled@.contains(l) <==> is_cancelled(log, log.len() as int, l));
        if standing(j, x) {
            assert(stands_behind(t, g, l) <==> !is_cancelled(log, log.len() as int, l));
        }
    }
    lemma_own_rows(log, log.len() as int, t.table, kept, ours);
    assert(admissible(t, j, g, ours)) by {
        assert forall|k: (u64, u64)| #[trigger]
            t.contents.contains_key(k) && committed(
                j,
                t.contents[k].header.xmin,
            ) implies ours.contains(g.born[k]) by {
            assert(stands_behind(t, g, g.born[k]));
        }
        assert forall|k: (u64, u64)|
            #![trigger g.hid.contains_key(k)]
            g.hid.contains_key(k) && committed(
                j,
                t.contents[k].header.xmax->0,
            ) implies ours.contains(g.hid[k]) by {
            assert(stands_behind(t, g, g.hid[k]));
            assert(t.contents[k].header.xmax == Some(record_of(log, g.hid[k]).txn));
        }
        assert forall|x: TxnId, a: int, b: int|
            #![trigger g.alive_of(x)[a], g.alive_of(x)[b]]
            0 <= a < b < g.alive_of(x).len() && ours.contains(g.alive_of(x)[b]) implies ours.contains(
            g.alive_of(x)[a],
        ) by {
            assert(record_of(log, g.alive_of(x)[b]).txn == x);
            assert(!committed(j, x));
        }
    }
    assert forall|l: u64| #[trigger] ours.contains(l) implies 1 <= l <= log.len() && row_of(
        record_of(log, l),
        t.table,
    ) && won.contains(record_of(log, l).txn.0) by {
        assert(stands_behind(t, g, l));
        assert(kept.contains(l) <==> ours.contains(l));
    }
}

/// A list of transactions registered with a status.
pub proof fn lemma_settled(j: JournalModel, txns: Seq<TxnId>, status: TxnStatus)
    ensures
        forall|x: u64|
            #![trigger j.settled(txns, status).txns.contains_key(x)]
            j.settled(txns, status).txns.contains_key(x) <==> j.txns.contains_key(x)
                || txns.contains(TxnId(x)),
        forall|x: u64|
            #![trigger j.settled(txns, status).txns[x]]
            j.settled(txns, status).txns.contains_key(x) ==> j.settled(txns, status).txns[x] == (
            TxnRecordModel {
                status: if txns.contains(TxnId(x)) {
                    status
                } else {
                    j.record(TxnId(x)).status
                },
                ..j.record(TxnId(x))
            }),
    decreases txns.len(),
{
    let after = j.settled(txns, status);
    if txns.len() > 0 {
        let less = txns.drop_last();
        lemma_settled(j, less, status);
        assert forall|x: u64| #[trigger] txns.contains(TxnId(x)) <==> less.contains(TxnId(x))
            || txns.last() == TxnId(x) by {
            if txns.contains(TxnId(x)) {
                let i = choose|i: int| 0 <= i < txns.len() && txns[i] == TxnId(x);
                if i < less.len() {
                    assert(less[i] == TxnId(x));
                }
            }
            if less.contains(TxnId(x)) {
                let i = choose|i: int| 0 <= i < less.len() && less[i] == TxnId(x);
                assert(txns[i] == TxnId(x));
            }
        }
        let before = j.settled(less, status);
        let last = txns.last();
        assert forall|x: u64| #[trigger] after.txns.contains_key(x) <==> j.txns.contains_key(x)
            || txns.contains(TxnId(x)) by {
            assert(before.txns.contains_key(x) <==> j.txns.contains_key(x) || less.contains(
                TxnId(x),
            ));
            assert(TxnId(last.0) == last);
        }
        assert forall|x: u64| after.txns.contains_key(x) implies #[trigger] after.txns[x] == (
        TxnRecordModel {
            status: if txns.contains(TxnId(x)) {
                status
            } else {
                j.record(TxnId(x)).status
            },
            ..j.record(TxnId(x))
        }) by {
            assert(before.txns.contains_key(x) <==> j.txns.contains_key(x) || less.contains(
                TxnId(x),
            ));
            if before.txns.contains_key(x) {
                assert(before.txns[x].tables == j.record(TxnId(x)).tables);
            }
            if x == last.0 {
                assert(after.txns[x].status == status);
                assert(after.txns[x] == (TxnRecordModel { status, ..before.record(last) }));
            } else {
                assert(after.txns[x] == before.txns[x]);
            }
        }
    }
}

/// The register of a reopened instance: winners committed, losers aborted, no savepoint.
pub proof fn lemma_register(winners: Seq<TxnId>, losers: Seq<TxnId>)
    requires
        forall|x: TxnId| #[trigger] losers.contains(x) ==> !winners.contains(x),
    ensures
        forall|x: u64| #[trigger]
            settled_txns(winners, losers).contains_key(x) <==> winners.contains(TxnId(x))
                || losers.contains(TxnId(x)),
        forall|x: u64| #[trigger]
            settled_txns(winners, losers).contains_key(x) ==> settled_txns(winners, losers)[x] == (
            TxnRecordModel {
                status: if winners.contains(TxnId(x)) {
                    TxnStatus::Committed
                } else {
                    TxnStatus::Aborted
                },
                ..TxnRecordModel::blank()
            }),
{
    let none = JournalModel {
        log: Seq::empty(),
        durable: super::page::Lsn(0),
        txns: Map::empty(),
        next_savepoint_id: 0,
    };
    let half = none.settled(winners, TxnStatus::Committed);
    lemma_settled(none, winners, TxnStatus::Committed);
    lemma_settled(half, losers, TxnStatus::Aborted);
    let all = settled_txns(winners, losers);
    assert(all == half.settled(losers, TxnStatus::Aborted).txns);
    assert forall|x: u64| #[trigger] all.contains_key(x) implies all[x] == (TxnRecordModel {
        status: if winners.contains(TxnId(x)) {
            TxnStatus::Committed
        } else {
            TxnStatus::Aborted
        },
        ..TxnRecordModel::blank()
    }) by {
        assert(half.txns.contains_key(x) <==> winners.contains(TxnId(x)));
        let now = half.settled(losers, TxnStatus::Aborted).txns[x];
        if half.txns.contains_key(x) {
            assert(half.txns[x] == (TxnRecordModel {
                status: TxnStatus::Committed,
                ..TxnRecordModel::blank()
            }));
        }
    }
}

/// A reader whose own transaction was not rolled back.
pub open spec fn standing_reader(j: JournalModel, snap: Snapshot) -> bool {
    status_of(j.st(), snap.own) != TxnStatus::Aborted
}

/// Whether a reader at or past `horizon` who wrote nothing in the table sees in `u`, under the
/// register of `k`, exactly the versions it sees in `t` under that of `j`, with the same columns.
pub open spec fn reads_alike(
    t: HeapTableModel,
    j: JournalModel,
    u: HeapTableModel,
    k: JournalModel,
    horizon: TxnId,
) -> bool {
    forall|snap: Snapshot, key: (u64, u64)|
        #![trigger t.sees(snap, j.st(), key)]
        #![trigger u.sees(snap, k.st(), key)]
        t.writes_of(snap.own).len() == 0 && standing_reader(j, snap) && at_or_past(snap, horizon)
            ==> (t.sees(snap, j.st(), key) <==> u.sees(snap, k.st(), key)) && (u.sees(
            snap,
            k.st(),
            key,
        ) ==> data_of(u.contents[key]) == data_of(t.contents[key]))
}

/// A table of an instance.
pub open spec fn table_in(s: DiskStorage, table: TableId) -> HeapTableModel {
    s@.tables[table.0 as u64].store.model()
}

/// Whether `s` is what an open makes of the journal `j`, and holds `table`.
pub open spec fn reopens(j: JournalModel, control: Control, s: DiskStorage, table: TableId) -> bool {
    &&& s.wf()
    &&& tells_alone(j.log, control, s)
    &&& s@.tables.contains_key(table.0 as u64)
    &&& s@.journal.next_savepoint_id == 0
}

/// What the recovery leaves in a table: the versions of the committed records.
proof fn lemma_reopened(
    t: HeapTableModel,
    j: JournalModel,
    g: Ledger,
    control: Control,
    s: DiskStorage,
)
    requires
        accounts(t, j, g),
        told(t, j, g),
        reopens(j, control, s, t.table),
    ensures
        table_in(s, t.table).contents == project(t.contents, g, committed_records(t, j, g)),
        admissible(t, j, g, committed_records(t, j, g)),
        forall|l: u64| #[trigger]
            committed_records(t, j, g).contains(l) ==> 1 <= l <= j.log.len() && row_of(
                record_of(j.log, l),
                t.table,
            ) && s@.journal.txns.contains_key(record_of(j.log, l).txn.0)
                && s@.journal.txns[record_of(j.log, l).txn.0].status == TxnStatus::Committed,
{
    let r = s.recovery;
    let c = super::catalogue::catalogue_of(j.log, j.log.len() as int)->0;
    let won = numbers(r.winners@);
    lemma_kept(t, j, g, control, r);
    assert(s@.tables.dom().contains(t.table.0 as u64));
    assert(c.tables.contains_key(t.table.0 as u64));
    lemma_redo_by_table(c, j.log, j.log.len() as int, won, r.cancelled@, t.table);
    lemma_register(r.winners@, r.losers@);
    let ours = committed_records(t, j, g);
    assert forall|l: u64| #[trigger] ours.contains(l) implies s@.journal.txns.contains_key(
        record_of(j.log, l).txn.0,
    ) && s@.journal.txns[record_of(j.log, l).txn.0].status == TxnStatus::Committed by {
        let x = record_of(j.log, l).txn;
        assert(won.contains(x.0));
        assert(r.winners@.contains(TxnId(x.0)));
        assert(settled_txns(r.winners@, r.losers@).contains_key(x.0));
    }
}

/// A reader who wrote nothing in a table that was never vacuumed sees after a reopen what it saw
/// before.
proof fn lemma_reads_survive(
    t: HeapTableModel,
    j: JournalModel,
    control: Control,
    s: DiskStorage,
)
    requires
        rebuildable(t, j),
        reopens(j, control, s, t.table),
    ensures
        forall|snap: Snapshot, key: (u64, u64)|
            #![trigger t.sees(snap, j.st(), key)]
            #![trigger table_in(s, t.table).sees(snap, s@.journal.st(), key)]
            t.writes_of(snap.own).len() == 0 && standing_reader(j, snap) ==> (t.sees(
                snap,
                j.st(),
                key,
            ) <==> table_in(s, t.table).sees(snap, s@.journal.st(), key)) && (table_in(
                s,
                t.table,
            ).sees(snap, s@.journal.st(), key) ==> data_of(table_in(s, t.table).contents[key])
                == data_of(t.contents[key])),
{
    let g = choose|g: Ledger| #[trigger] accounts(t, j, g) && told(t, j, g);
    lemma_reopened(t, j, g, control, s);
    let u = table_in(s, t.table);
    let k = s@.journal;
    let ours = committed_records(t, j, g);
    assert forall|snap: Snapshot, key: (u64, u64)|
        #![trigger t.sees(snap, j.st(), key)]
        #![trigger u.sees(snap, k.st(), key)]
        t.writes_of(snap.own).len() == 0 && standing_reader(j, snap) implies (t.sees(
        snap,
        j.st(),
        key,
    ) <==> u.sees(snap, k.st(), key)) && (u.sees(snap, k.st(), key) ==> data_of(u.contents[key])
        == data_of(t.contents[key])) by {
        if t.contents.contains_key(key) {
            let xmin = t.contents[key].header.xmin;
            assert(record_of(j.log, g.born[key]).txn == xmin);
            assert(stands_behind(t, g, g.born[key]));
            assert(standing(j, xmin));
            assert(g.alive_of(snap.own).len() == 0) by {
                assert(g.alive_of(snap.own).len() == t.writes_of(snap.own).len());
            }
            if xmin == snap.own && !committed(j, xmin) {
                assert(g.alive_of(xmin).contains(g.born[key]));
            }
            if committed(j, xmin) {
                assert(ours.contains(g.born[key]));
                assert(status_of(k.st(), xmin) == TxnStatus::Committed);
            }
            if g.hid.contains_key(key) {
                let xmax = t.contents[key].header.xmax->0;
                assert(record_of(j.log, g.hid[key]).txn == xmax);
                assert(stands_behind(t, g, g.hid[key]));
                assert(standing(j, xmax));
                if xmax == snap.own && !committed(j, xmax) {
                    assert(g.alive_of(xmax).contains(g.hid[key]));
                }
                if committed(j, xmax) {
                    assert(ours.contains(g.hid[key]));
                    assert(status_of(k.st(), xmax) == TxnStatus::Committed);
                }
            }
        }
    }
}

/// Whatever was committed survives a crash, and nothing else does: in the instance that an open
/// makes of the journal, every reader at or past the horizon of the last vacuum who wrote nothing in
/// the table sees exactly the versions it saw before, column for column.
pub proof fn law_committed_rows_survive(
    t: HeapTableModel,
    j: JournalModel,
    horizon: TxnId,
    control: Control,
    s: DiskStorage,
)
    requires
        recoverable(t, j, horizon),
        reopens(j, control, s, t.table),
    ensures
        reads_alike(t, j, table_in(s, t.table), s@.journal, horizon),
{
    let full = choose|full: HeapTableModel| #[trigger]
        rebuildable(full, j) && pruned(full, t, j, horizon);
    lemma_reads_survive(full, j, control, s);
    let u = table_in(s, t.table);
    let k = s@.journal;
    assert forall|snap: Snapshot, key: (u64, u64)|
        #![trigger t.sees(snap, j.st(), key)]
        #![trigger u.sees(snap, k.st(), key)]
        t.writes_of(snap.own).len() == 0 && standing_reader(j, snap) && at_or_past(
            snap,
            horizon,
        ) implies (t.sees(snap, j.st(), key) <==> u.sees(snap, k.st(), key)) && (u.sees(
        snap,
        k.st(),
        key,
    ) ==> data_of(u.contents[key]) == data_of(t.contents[key])) by {
        lemma_reads_full(full, t, j, horizon, snap, key);
        assert(full.writes_of(snap.own) == t.writes_of(snap.own));
        assert(full.sees(snap, j.st(), key) <==> u.sees(snap, k.st(), key));
    }
}

/// The ledger once the records that do not stand for a committed transaction are forgotten.
spec fn settled_ledger(g: Ledger, ours: Set<u64>) -> Ledger {
    Ledger {
        born: g.born,
        hid: Map::new(
            |k: (u64, u64)| g.hid.contains_key(k) && ours.contains(g.hid[k]),
            |k: (u64, u64)| g.hid[k],
        ),
        replaced: g.replaced,
        alive: Map::empty(),
    }
}

/// A row named by a record is at most the largest one.
proof fn lemma_max_row(log: Seq<RecordModel>, n: int, i: int)
    requires
        0 <= i < n <= log.len(),
        is_row(log[i].kind),
    ensures
        change_of(log[i].payload).header.row.0 <= max_row(log, n),
    decreases n,
{
    if i < n - 1 {
        lemma_max_row(log, n - 1, i);
    }
}

/// The register of a reopened instance is what the records of its journal tell.
pub proof fn lemma_reopened_orderly(j: JournalModel, control: Control, s: DiskStorage)
    requires
        orderly(j),
        tells_alone(j.log, control, s),
    ensures
        orderly(s@.journal),
        forall|x: TxnId| !running(s@.journal, x),
        forall|x: TxnId|
            (#[trigger] s@.journal.record(x)).savepoints.len() == 0 && s@.journal.record(x).tables
                == Set::<u64>::empty(),
        forall|x: TxnId| #[trigger]
            standing(s@.journal, x) ==> standing(j, x) && committed(j, x) && committed(
                s@.journal,
                x,
            ),
{
    let k = s@.journal;
    let r = s.recovery;
    lemma_register(r.winners@, r.losers@);
    assert forall|i: int| 0 <= i < k.log.len() && (#[trigger] k.log[i]).kind
        == WalRecordKind::Commit implies k.txns.contains_key(k.log[i].txn.0)
        && k.txns[k.log[i].txn.0].status == TxnStatus::Committed by {
        let x = k.log[i].txn;
        assert(has_kind(k.log, WalRecordKind::Commit, x.0));
        assert(r.winners@.contains(x));
        assert(TxnId(x.0) == x);
    }
    assert forall|i: int| 0 <= i < k.log.len() && is_row((#[trigger] k.log[i]).kind) implies
        writer_told(k, k.log[i].txn.0) by {
        let x = k.log[i].txn;
        assert(shows_txn(k.log[i].kind));
        assert(has_seen(k.log, x.0));
        assert(r.winners@.contains(x) || r.losers@.contains(x));
        assert(TxnId(x.0) == x);
    }
    assert forall|x: u64| #[trigger] k.txns.contains_key(x) implies marks_told(
        k.log,
        k.next_savepoint_id,
        x,
        k.txns[x].savepoints,
    ) by {
        assert(settled_txns(r.winners@, r.losers@).contains_key(x));
    }
    assert forall|x: TxnId| !running(k, x) by {
        if k.txns.contains_key(x.0) {
            assert(settled_txns(r.winners@, r.losers@).contains_key(x.0));
        }
    }
    assert forall|x: TxnId| (#[trigger] k.record(x)).savepoints.len() == 0 && k.record(x).tables
        == Set::<u64>::empty() by {
        if k.txns.contains_key(x.0) {
            assert(settled_txns(r.winners@, r.losers@).contains_key(x.0));
        }
    }
    assert forall|x: TxnId| #[trigger] standing(k, x) implies standing(j, x) && committed(j, x)
        && committed(k, x) by {
        assert(settled_txns(r.winners@, r.losers@).contains_key(x.0));
        assert(TxnId(x.0) == x);
        assert(r.winners@.contains(x));
        let i = choose|i: int|
            0 <= i < j.log.len() && (#[trigger] j.log[i]).kind == WalRecordKind::Commit
                && j.log[i].txn.0 == x.0;
        assert(j.log[i].kind == WalRecordKind::Commit);
    }
}

/// A reopened table is recoverable in its turn: work goes on, and the next crash keeps what is
/// committed until then.
pub proof fn law_reopened_table_is_recoverable(
    t: HeapTableModel,
    j: JournalModel,
    horizon: TxnId,
    control: Control,
    s: DiskStorage,
)
    requires
        recoverable(t, j, horizon),
        reopens(j, control, s, t.table),
        table_in(s, t.table).arity == t.arity,
    ensures
        recoverable(table_in(s, t.table), s@.journal, TxnId(0)),
{
    let full = choose|full: HeapTableModel| #[trigger]
        rebuildable(full, j) && pruned(full, t, j, horizon);
    lemma_reopened_rebuildable(full, j, control, s);
    let u = table_in(s, t.table);
    assert(pruned(u, u, s@.journal, TxnId(0)));
}

/// A reopened table can be rebuilt again.
proof fn lemma_reopened_rebuildable(
    t: HeapTableModel,
    j: JournalModel,
    control: Control,
    s: DiskStorage,
)
    requires
        rebuildable(t, j),
        reopens(j, control, s, t.table),
        table_in(s, t.table).arity == t.arity,
    ensures
        rebuildable(table_in(s, t.table), s@.journal),
        table_in(s, t.table).whole(),
{
    let g = choose|g: Ledger| #[trigger] accounts(t, j, g) && told(t, j, g);
    lemma_reopened(t, j, g, control, s);
    lemma_reopened_orderly(j, control, s);
    let u = table_in(s, t.table);
    let k = s@.journal;
    let ours = committed_records(t, j, g);
    let h = settled_ledger(g, ours);
    assert(u.table == t.table);
    assert(u.contents == project(t.contents, g, ours));
    assert forall|q: (u64, u64)| #[trigger] u.contents.contains_key(q) implies
        t.contents.contains_key(q) && ours.contains(g.born[q]) && u.contents[q].header.xmin
        == t.contents[q].header.xmin && record_of(j.log, g.born[q]).txn
        == t.contents[q].header.xmin && standing(k, t.contents[q].header.xmin) && committed(
        j,
        t.contents[q].header.xmin,
    ) && (u.contents[q].header.xmax is Some <==> h.hid.contains_key(q)) by {
        assert(t.contents.contains_key(q));
        assert(standing(k, t.contents[q].header.xmin));
    }
    assert forall|q: (u64, u64)| #[trigger] h.hid.contains_key(q) implies u.contents.contains_key(
        q,
    ) && u.contents[q] == t.contents[q] && standing(k, t.contents[q].header.xmax->0) by {
        assert(g.hid.contains_key(q));
        let x = record_of(j.log, g.hid[q]).txn;
        let xmin = t.contents[q].header.xmin;
        assert(xmin == x || committed(j, xmin));
        assert(committed(j, xmin));
        assert(stands_behind(t, g, g.born[q]));
        assert(ours.contains(g.born[q]));
    }
    assert forall|q: (u64, u64)| #[trigger] u.contents.contains_key(q) implies
        u.current.contains_key(q.0) && q.1 <= u.current[q.0] by {
        lemma_last_version(u, k.st(), q);
    }
    lemma_reopened_backed(t, j, g, u, k, h, ours);
    lemma_reopened_chained(t, j, g, u, k, h, ours);
    assert forall|txn: TxnId| #[trigger] h.alive_of(txn).len() == u.writes_of(txn).len() by {}
    assert(undo_backed(u, k, h));
    lemma_reopened_replays(t, j, g, u, k, h, ours);
    assert(rows_given(u)) by {
        assert forall|q: (u64, u64)| #[trigger] u.contents.contains_key(q) implies q.0
            < u.next_row_id by {
            assert(t.contents.contains_key(q));
            let l = g.born[q];
            assert(record_of(j.log, l) == j.log[l - 1]);
            lemma_max_row(j.log, j.log.len() as int, l - 1);
            assert(change_of(record_of(j.log, l).payload).header.row.0 == q.0);
            assert(q.0 < t.next_row_id);
        }
    }
    assert(u.whole()) by {
        assert forall|q: (u64, u64)| #[trigger] u.contents.contains_key(q) implies legible(
            u.contents[q],
        ) && data_of(u.contents[q]).len() == u.arity by {
            assert(t.contents.contains_key(q));
            assert(u.contents[q].columns == t.contents[q].columns);
        }
    }
    assert(accounts(u, k, h));
    assert(standing_told(u, k, h)) by {
        assert forall|l: u64|
            #![trigger stands_behind(u, h, l)]
            #![trigger record_of(k.log, l)]
            1 <= l <= k.log.len() && row_of(record_of(k.log, l), u.table) && standing(
                k,
                record_of(k.log, l).txn,
            ) implies (stands_behind(u, h, l) <==> !is_cancelled(k.log, k.log.len() as int, l)) by {
            lemma_reopened_stands(t, j, g, u, h, ours, l);
            assert(stands_behind(t, g, l) <==> !is_cancelled(j.log, j.log.len() as int, l));
        }
    }
    assert(told(u, k, h));
}

/// Every version of a reopened table is at or below the most recent one of its row.
proof fn lemma_last_version(u: HeapTableModel, st: Map<u64, TxnStatus>, q: (u64, u64))
    requires
        u.wf(),
        resumed_rows(u, st),
        u.contents.contains_key(q),
        forall|k: (u64, u64)| #[trigger]
            u.contents.contains_key(k) ==> status_of(st, u.contents[k].header.xmin)
                != TxnStatus::Aborted,
    ensures
        u.current.contains_key(q.0),
        q.1 <= u.current[q.0],
    decreases u.next_seq - q.1,
{
    if exists|s: u64| q.1 < s && #[trigger] u.contents.contains_key((q.0, s)) {
        let s = choose|s: u64| q.1 < s && #[trigger] u.contents.contains_key((q.0, s));
        lemma_last_version(u, st, (q.0, s));
    } else {
        assert(u.contents.contains_key((q.0, q.1)));
        assert(resumes_at(u, st, q.0, q.1));
    }
}

/// Whether `u`, `k` and `h` are what a reopen leaves of `t`, `j` and `g`.
spec fn settles(
    t: HeapTableModel,
    j: JournalModel,
    g: Ledger,
    u: HeapTableModel,
    k: JournalModel,
    h: Ledger,
    ours: Set<u64>,
) -> bool {
    &&& accounts(t, j, g)
    &&& k.log == j.log
    &&& u.table == t.table
    &&& u.wf()
    &&& ours == committed_records(t, j, g)
    &&& h == settled_ledger(g, ours)
    &&& u.contents == project(t.contents, g, ours)
    &&& forall|x: TxnId| #[trigger] standing(k, x) ==> committed(j, x) && committed(k, x)
    &&& forall|q: (u64, u64)| #[trigger]
        u.contents.contains_key(q) ==> t.contents.contains_key(q) && ours.contains(g.born[q])
            && u.contents[q].header.xmin == t.contents[q].header.xmin && record_of(
            j.log,
            g.born[q],
        ).txn == t.contents[q].header.xmin && standing(k, t.contents[q].header.xmin) && committed(
            j,
            t.contents[q].header.xmin,
        ) && (u.contents[q].header.xmax is Some <==> h.hid.contains_key(q))
    &&& forall|q: (u64, u64)| #[trigger]
        h.hid.contains_key(q) ==> u.contents.contains_key(q) && u.contents[q] == t.contents[q]
            && standing(k, t.contents[q].header.xmax->0)
    &&& forall|q: (u64, u64)| #[trigger]
        u.contents.contains_key(q) ==> u.current.contains_key(q.0) && q.1 <= u.current[q.0]
}

proof fn lemma_reopened_backed(
    t: HeapTableModel,
    j: JournalModel,
    g: Ledger,
    u: HeapTableModel,
    k: JournalModel,
    h: Ledger,
    ours: Set<u64>,
)
    requires
        settles(t, j, g, u, k, h, ours),
    ensures
        backed(u, k, h),
{
    assert forall|q: (u64, u64)| #[trigger] h.hid.contains_key(q) implies {
        let r = record_of(k.log, h.hid[q]);
        let xmin = u.contents[q].header.xmin;
        &&& u.contents.contains_key(q)
        &&& u.contents[q].header.xmax == Some(r.txn)
        &&& standing(k, r.txn)
        &&& h.born[q] < h.hid[q]
        &&& xmin == r.txn || committed(k, xmin)
        &&& !committed(k, r.txn) ==> h.alive_of(r.txn).contains(h.hid[q])
        &&& ({
            ||| writes_key(k.log, u.table, h.hid[q], WalRecordKind::Delete, q) && u.current[q.0]
                == q.1
            ||| {
                let next = change_key(change_of(r.payload));
                &&& writes_key(k.log, u.table, h.hid[q], WalRecordKind::Update, next)
                &&& next.0 == q.0 && q.1 < next.1
                &&& u.contents.contains_key(next) && h.born[next] == h.hid[q]
                &&& h.replaced.contains_key(h.hid[q]) && h.replaced[h.hid[q]] == q
            }
        })
    } by {
        assert(g.hid.contains_key(q));
        assert(u.contents.contains_key(q));
        assert(standing(k, u.contents[q].header.xmin));
        let r = record_of(j.log, g.hid[q]);
        if writes_key(j.log, t.table, g.hid[q], WalRecordKind::Delete, q) && t.current[q.0]
            == q.1 {
            let top = (q.0, u.current[q.0]);
            assert(u.contents.contains_key(top));
            assert(t.contents.contains_key(top));
            assert(top.1 <= t.current[q.0]);
        } else {
            let next = change_key(change_of(r.payload));
            assert(t.contents.contains_key(next) && g.born[next] == g.hid[q]);
            assert(u.contents.contains_key(next));
        }
    }
    assert forall|q: (u64, u64)| #[trigger] u.contents.contains_key(q) implies {
        let r = record_of(k.log, h.born[q]);
        &&& writes_key(k.log, u.table, h.born[q], WalRecordKind::Insert, q) || writes_key(
            k.log,
            u.table,
            h.born[q],
            WalRecordKind::Update,
            q,
        )
        &&& r.txn == u.contents[q].header.xmin
        &&& standing(k, r.txn)
        &&& (u.contents[q].header.xmax is Some <==> h.hid.contains_key(q))
        &&& !committed(k, r.txn) ==> h.alive_of(r.txn).contains(h.born[q])
    } by {
        assert(t.contents.contains_key(q));
    }
}

proof fn lemma_reopened_chained(
    t: HeapTableModel,
    j: JournalModel,
    g: Ledger,
    u: HeapTableModel,
    k: JournalModel,
    h: Ledger,
    ours: Set<u64>,
)
    requires
        settles(t, j, g, u, k, h, ours),
    ensures
        chained(u, k, h),
{
    assert forall|a: (u64, u64), b: (u64, u64)|
        #![trigger u.contents.contains_key(a), u.contents.contains_key(b)]
        u.contents.contains_key(a) && u.contents.contains_key(b) && a.0 == b.0 && a.1
            < b.1 implies {
        &&& h.born[a] < h.born[b]
        &&& h.hid.contains_key(a)
        &&& h.hid[a] <= h.born[b]
        &&& record_of(k.log, h.born[b]).kind == WalRecordKind::Update
        &&& u.contents[a].header.xmin == u.contents[b].header.xmin || committed(
            k,
            u.contents[a].header.xmin,
        )
    } by {
        assert(t.contents.contains_key(a) && t.contents.contains_key(b));
        assert(g.hid.contains_key(a));
        let l = g.hid[a];
        let r = record_of(j.log, l);
        assert(stands_behind(t, g, l));
        // What replaced a committed version under a committed one is committed.
        assert(committed(j, r.txn)) by {
            if writes_key(j.log, t.table, l, WalRecordKind::Delete, a) && t.current[a.0] == a.1 {
                assert(b.1 <= t.current[b.0]);
            } else {
                let next = change_key(change_of(r.payload));
                assert(t.contents.contains_key(next) && g.born[next] == l);
                assert(record_of(j.log, g.born[next]).txn == t.contents[next].header.xmin);
                if next.1 < b.1 {
                    assert(t.contents.contains_key(next) && t.contents.contains_key(b));
                } else if next.1 > b.1 {
                    assert(t.contents.contains_key(b) && t.contents.contains_key(next));
                    assert(g.born[b] < g.born[next]);
                }
            }
        }
        assert(ours.contains(l));
        assert(h.hid.contains_key(a));
    }
}

proof fn lemma_reopened_replays(
    t: HeapTableModel,
    j: JournalModel,
    g: Ledger,
    u: HeapTableModel,
    k: JournalModel,
    h: Ledger,
    ours: Set<u64>,
)
    requires
        settles(t, j, g, u, k, h, ours),
        admissible(t, j, g, ours),
    ensures
        replays_back(u, k, h),
{
    assert forall|kept: Set<u64>| #[trigger] admissible(u, k, h, kept) implies table_redo(
        k.log,
        k.log.len() as int,
        u.table,
        kept,
    ) == Some(project(u.contents, h, kept)) by {
        assert(kept =~= ours) by {
            assert forall|l: u64| kept.contains(l) implies #[trigger] ours.contains(l) by {
                assert(stands_behind(u, h, l));
                if exists|q: (u64, u64)| #[trigger] u.contents.contains_key(q) && h.born[q] == l {
                    let q = choose|q: (u64, u64)| #[trigger]
                        u.contents.contains_key(q) && h.born[q] == l;
                    assert(ours.contains(g.born[q]));
                } else {
                    let q = choose|q: (u64, u64)| #[trigger]
                        h.hid.contains_key(q) && h.hid[q] == l;
                    assert(h.hid.contains_key(q));
                }
            }
            assert forall|l: u64| #[trigger] ours.contains(l) implies kept.contains(l) by {
                lemma_reopened_stands(t, j, g, u, h, ours, l);
                assert(stands_behind(u, h, l));
                if exists|q: (u64, u64)| #[trigger] u.contents.contains_key(q) && h.born[q] == l {
                    let q = choose|q: (u64, u64)| #[trigger]
                        u.contents.contains_key(q) && h.born[q] == l;
                    assert(committed(k, u.contents[q].header.xmin));
                } else {
                    let q = choose|q: (u64, u64)| #[trigger]
                        h.hid.contains_key(q) && h.hid[q] == l;
                    assert(u.contents[q] == t.contents[q]);
                    assert(committed(k, u.contents[q].header.xmax->0));
                }
            }
        }
        assert(project(u.contents, h, kept) =~= u.contents) by {
            assert forall|q: (u64, u64)| #[trigger] u.contents.contains_key(q) implies project(
                u.contents,
                h,
                kept,
            )[q] == u.contents[q] by {
                if u.contents[q].header.xmax is Some {
                    assert(h.hid.contains_key(q));
                } else {
                    assert(u.contents[q].with_xmax(None) == u.contents[q]);
                }
            }
        }
    }
}

/// A record that stood for a committed transaction still does.
proof fn lemma_reopened_stands(
    t: HeapTableModel,
    j: JournalModel,
    g: Ledger,
    u: HeapTableModel,
    h: Ledger,
    ours: Set<u64>,
    l: u64,
)
    requires
        accounts(t, j, g),
        ours == committed_records(t, j, g),
        h == settled_ledger(g, ours),
        u.contents == project(t.contents, g, ours),
        committed(j, record_of(j.log, l).txn),
    ensures
        stands_behind(u, h, l) <==> stands_behind(t, g, l),
{
    if stands_behind(t, g, l) {
        assert(ours.contains(l));
        if exists|q: (u64, u64)| #[trigger] t.contents.contains_key(q) && g.born[q] == l {
            let q = choose|q: (u64, u64)| #[trigger] t.contents.contains_key(q) && g.born[q] == l;
            assert(u.contents.contains_key(q));
        } else {
            let q = choose|q: (u64, u64)| #[trigger] g.hid.contains_key(q) && g.hid[q] == l;
            assert(h.hid.contains_key(q));
        }
    }
    if stands_behind(u, h, l) {
        if exists|q: (u64, u64)| #[trigger] u.contents.contains_key(q) && h.born[q] == l {
            let q = choose|q: (u64, u64)| #[trigger] u.contents.contains_key(q) && h.born[q] == l;
            assert(t.contents.contains_key(q));
        } else {
            let q = choose|q: (u64, u64)| #[trigger] h.hid.contains_key(q) && h.hid[q] == l;
            assert(g.hid.contains_key(q));
        }
    }
}

/// The replay of a journal that accounts for every table of its catalogue never fails.
pub proof fn law_replay_never_fails(
    tables: Map<u64, HeapTableModel>,
    j: JournalModel,
    horizon: TxnId,
    control: Control,
    c: CatalogueModel,
    r: Recovery,
)
    requires
        orderly(j),
        recovered(j.log, control, r),
        forall|table: TableId|
            c.tables.contains_key(#[trigger] (table.0 as u64)) ==> tables[table.0 as u64].table
                == table && recoverable(tables[table.0 as u64], j, horizon),
    ensures
        redone(blank_redo(c), j.log, j.log.len() as int, numbers(r.winners@), r.cancelled@) is Some,
{
    let won = numbers(r.winners@);
    assert forall|table: TableId| c.tables.contains_key(table.0 as u64) implies #[trigger] table_redo(
        j.log,
        j.log.len() as int,
        table,
        kept_by(j.log, won, r.cancelled@),
    ) is Some by {
        let t = tables[table.0 as u64];
        let full = choose|full: HeapTableModel| #[trigger]
            rebuildable(full, j) && pruned(full, t, j, horizon);
        let g = choose|g: Ledger| #[trigger] accounts(full, j, g) && told(full, j, g);
        lemma_kept(full, j, g, control, r);
    }
    lemma_redo_goes_through(c, j.log, j.log.len() as int, won, r.cancelled@);
}

/// A serial named by a record is at most the largest one.
proof fn lemma_max_serial(log: Seq<RecordModel>, n: int, i: int)
    requires
        0 <= i < n <= log.len(),
        is_row(log[i].kind),
    ensures
        change_of(log[i].payload).header.seq <= max_serial(log, n),
    decreases n,
{
    if i < n - 1 {
        lemma_max_serial(log, n - 1, i);
    }
}

/// What the redo leaves in a table reads back as rows of it, under serials the recovery covers.
pub proof fn lemma_redone_fits(
    t: HeapTableModel,
    j: JournalModel,
    horizon: TxnId,
    control: Control,
    r: Recovery,
    c: CatalogueModel,
    s: Redone,
    k: (u64, u64),
)
    requires
        recoverable(t, j, horizon),
        recovered(j.log, control, r),
        c.tables.contains_key(t.table.0 as u64),
        redone(blank_redo(c), j.log, j.log.len() as int, numbers(r.winners@), r.cancelled@) == Some(s),
        s.tables[t.table.0 as u64].contains_key(k),
    ensures
        legible(s.tables[t.table.0 as u64][k]),
        data_of(s.tables[t.table.0 as u64][k]).len() == t.arity,
        s.tables[t.table.0 as u64][k].header.seq < r.next_seq,
{
    let full = choose|full: HeapTableModel| #[trigger]
        rebuildable(full, j) && pruned(full, t, j, horizon);
    let g = choose|g: Ledger| #[trigger] accounts(full, j, g) && told(full, j, g);
    let won = numbers(r.winners@);
    lemma_kept(full, j, g, control, r);
    lemma_redo_by_table(c, j.log, j.log.len() as int, won, r.cancelled@, t.table);
    assert(full.contents.contains_key(k));
    let l = g.born[k];
    assert(record_of(j.log, l) == j.log[l - 1]);
    lemma_max_serial(j.log, j.log.len() as int, l - 1);
    assert(change_of(record_of(j.log, l).payload).header.seq == k.1);
    assert(full.contents[k].key() == k);
}

/// A redo that goes through goes through up to any of its records.
pub proof fn lemma_shorter_redo(
    s: Redone,
    log: Seq<RecordModel>,
    n: int,
    winners: Set<u64>,
    cancelled: Set<u64>,
)
    requires
        0 <= n <= log.len(),
        redone(s, log, log.len() as int, winners, cancelled) is Some,
    ensures
        redone(s, log, n, winners, cancelled) is Some,
    decreases log.len() - n,
{
    if n < log.len() {
        lemma_shorter_redo(s, log, n + 1, winners, cancelled);
    }
}

} // verus!
