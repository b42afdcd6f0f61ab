//! What a recovery takes from a journal: who won, what is replayed, and from where the counters go on.

use vstd::prelude::*;

use super::contents::{contents, StoredModel};
use super::control::Control;
use super::data::DataModel;
use super::journal::JournalModel;
use super::open::{recovered, tells};
use super::recover::{is_cancelled, is_row, max_row, max_serial, savepoint_before, Recovery};
use super::redo::{numbers, previous, redone, replayed, with_hidden, Redone};
use super::reopening::lemma_settled;
use super::storage::DiskStorage;
use super::wal::{RecordModel, WalRecordKind};
use super::wal_payload::change_of;
use crate::ids::TxnId;
use crate::snapshot::TxnStatus;

verus! {

/// Whether a record inserts, updates or deletes a row.
pub open spec fn writes_a_row(r: RecordModel) -> bool {
    r.kind == WalRecordKind::Insert || r.kind == WalRecordKind::Update || r.kind
        == WalRecordKind::Delete
}

/// A transaction wins exactly when the journal holds its `Commit`; it loses when the journal holds a
/// `Begin`, an `Abort` or a write of it but no `Commit`. None is both.
pub proof fn law_committed_transactions_win(
    log: Seq<RecordModel>,
    control: Control,
    r: Recovery,
    i: int,
    x: TxnId,
)
    requires
        recovered(log, control, r),
    ensures
        0 <= i < log.len() && log[i].kind == WalRecordKind::Commit ==> r.winners@.contains(
            log[i].txn,
        ),
        r.winners@.contains(x) ==> exists|k: int|
            0 <= k < log.len() && (#[trigger] log[k]).kind == WalRecordKind::Commit && log[k].txn
                == x,
        0 <= i < log.len() && (writes_a_row(log[i]) || log[i].kind == WalRecordKind::Begin
            || log[i].kind == WalRecordKind::Abort) ==> r.winners@.contains(log[i].txn)
            || r.losers@.contains(log[i].txn),
        r.losers@.contains(x) ==> !r.winners@.contains(x) && exists|k: int|
            0 <= k < log.len() && (#[trigger] log[k]).txn == x && (writes_a_row(log[k])
                || log[k].kind == WalRecordKind::Begin || log[k].kind == WalRecordKind::Abort),
{
    if 0 <= i < log.len() {
        assert(log[i].txn == TxnId(log[i].txn.0));
    }
    if r.winners@.contains(x) {
        let k = choose|k: int|
            0 <= k < log.len() && (#[trigger] log[k]).kind == WalRecordKind::Commit
                && log[k].txn.0 == x.0;
        assert(log[k].txn == x);
    }
    if r.losers@.contains(x) {
        let k = choose|k: int|
            0 <= k < log.len() && super::recover::shows_txn((#[trigger] log[k]).kind)
                && log[k].txn.0 == x.0;
        assert(log[k].txn == x);
    }
}

/// The largest numbers of the records are at least those of each record.
proof fn lemma_largest(log: Seq<RecordModel>, n: int, i: int)
    requires
        0 <= i < n <= log.len(),
        is_row(log[i].kind),
    ensures
        max_row(log, n) >= change_of(log[i].payload).header.row.0,
        max_serial(log, n) >= change_of(log[i].payload).header.seq,
    decreases n,
{
    if i < n - 1 {
        lemma_largest(log, n - 1, i);
    }
}

/// The largest numbers of the records are numbers of the records.
proof fn lemma_largest_fits(log: Seq<RecordModel>, n: int)
    requires
        0 <= n <= log.len(),
    ensures
        max_row(log, n) <= u64::MAX,
        max_serial(log, n) <= u64::MAX,
    decreases n,
{
    if n > 0 {
        lemma_largest_fits(log, n - 1);
    }
}

/// After a recovery no row identifier and no serial that a record names, whether of a winner or a loser,
/// is handed out again.
pub proof fn law_recovered_numbers_are_fresh(
    log: Seq<RecordModel>,
    control: Control,
    r: Recovery,
    i: int,
)
    requires
        recovered(log, control, r),
    ensures
        r.next_row_id >= control.next_row_id,
        0 <= i < log.len() && writes_a_row(log[i]) && change_of(log[i].payload).header.row.0
            < u64::MAX ==> r.next_row_id > change_of(log[i].payload).header.row.0,
        0 <= i < log.len() && writes_a_row(log[i]) && change_of(log[i].payload).header.seq
            < u64::MAX ==> r.next_seq > change_of(log[i].payload).header.seq,
{
    if 0 <= i < log.len() && writes_a_row(log[i]) {
        lemma_largest(log, log.len() as int, i);
    }
    lemma_largest_fits(log, log.len() as int);
}

/// How many of the first `n` records write a row for a winner, and were not taken back.
pub open spec fn records_to_replay(
    log: Seq<RecordModel>,
    n: int,
    winners: Set<u64>,
    cancelled: Set<u64>,
) -> nat
    decreases n,
{
    if n <= 0 {
        0
    } else {
        let before = records_to_replay(log, n - 1, winners, cancelled);
        let r = log[n - 1];
        if writes_a_row(r) && winners.contains(r.txn.0) && !cancelled.contains(r.lsn.0) {
            before + 1
        } else {
            before
        }
    }
}

/// Every record of a winner that was not taken back is counted once: as applied, as skipped, or as
/// unplaced.
pub proof fn law_redo_counts_every_record(
    s: Redone,
    log: Seq<RecordModel>,
    n: int,
    winners: Set<u64>,
    cancelled: Set<u64>,
)
    requires
        0 <= n <= log.len(),
        redone(s, log, n, winners, cancelled) is Some,
    ensures
        ({
            let z = redone(s, log, n, winners, cancelled)->0;
            &&& z.applied + z.skipped + z.unplaced == s.applied + s.skipped + s.unplaced
                + records_to_replay(log, n, winners, cancelled)
            &&& z.applied >= s.applied && z.skipped >= s.skipped && z.unplaced >= s.unplaced
        }),
    decreases n,
{
    if n > 0 {
        law_redo_counts_every_record(s, log, n - 1, winners, cancelled);
    }
}

/// A record is counted as unplaced exactly where its table is not there; one that changes nothing is
/// counted as skipped, one that changes a version as applied.
pub proof fn law_redo_step_is_counted_for_what_it_does(
    s: Redone,
    r: RecordModel,
    winners: Set<u64>,
    cancelled: Set<u64>,
)
    requires
        super::redo::redo_step(s, r, winners, cancelled) is Some,
    ensures
        ({
            let z = super::redo::redo_step(s, r, winners, cancelled)->0;
            let t = change_of(r.payload).table.0 as u64;
            let k = (change_of(r.payload).header.row.0, change_of(r.payload).header.seq);
            &&& z.unplaced > s.unplaced ==> !s.tables.contains_key(t) && z.tables == s.tables
            &&& z.applied > s.applied && r.kind != WalRecordKind::Delete ==> !s.tables[t].contains_key(
                k,
            ) && z.tables[t].contains_key(k)
            &&& z.applied > s.applied && r.kind == WalRecordKind::Delete ==> s.tables[t].contains_key(
                k,
            ) && s.tables[t][k].header.xmax is None && (r.txn.0 != super::version::NO_XMAX
                ==> z.tables[t][k].header.xmax == Some(r.txn))
            &&& z.skipped > s.skipped ==> s.tables[t].contains_key(k)
            &&& z.skipped > s.skipped && r.kind == WalRecordKind::Delete
                ==> s.tables[t][k].header.xmax is Some && z.tables[t] =~= s.tables[t]
        }),
{
}

/// What a redo leaves in a table was there before, or a record of a winner that was not taken back wrote
/// it; nothing a loser wrote comes back.
pub proof fn law_redo_brings_back_winners_alone(
    s: Redone,
    log: Seq<RecordModel>,
    n: int,
    winners: Set<u64>,
    cancelled: Set<u64>,
    t: u64,
    k: (u64, u64),
)
    requires
        0 <= n <= log.len(),
        redone(s, log, n, winners, cancelled) is Some,
        s.tables.contains_key(t),
        (redone(s, log, n, winners, cancelled)->0).tables[t].contains_key(k),
        !s.tables[t].contains_key(k),
    ensures
        exists|i: int|
            {
                &&& 0 <= i < n
                &&& writes_a_row(#[trigger] log[i])
                &&& log[i].kind != WalRecordKind::Delete
                &&& winners.contains(log[i].txn.0)
                &&& !cancelled.contains(log[i].lsn.0)
                &&& change_of(log[i].payload).table.0 as u64 == t
                &&& change_of(log[i].payload).header.row.0 == k.0
                &&& change_of(log[i].payload).header.seq == k.1
            },
    decreases n,
{
    if n > 0 {
        let b = redone(s, log, n - 1, winners, cancelled)->0;
        lemma_tables_stay(s, log, n - 1, winners, cancelled, t);
        if b.tables[t].contains_key(k) {
            law_redo_brings_back_winners_alone(s, log, n - 1, winners, cancelled, t, k);
        } else {
            let r = log[n - 1];
            let change = change_of(r.payload);
            assert(change.table.0 as u64 == t);
            lemma_replayed_adds(b.tables[t], r, k);
            assert(writes_a_row(log[n - 1]));
        }
    }
}

/// A redo keeps the tables it started with.
proof fn lemma_tables_stay(
    s: Redone,
    log: Seq<RecordModel>,
    n: int,
    winners: Set<u64>,
    cancelled: Set<u64>,
    t: u64,
)
    requires
        0 <= n <= log.len(),
        redone(s, log, n, winners, cancelled) is Some,
        s.tables.contains_key(t),
    ensures
        (redone(s, log, n, winners, cancelled)->0).tables.contains_key(t),
    decreases n,
{
    if n > 0 {
        lemma_tables_stay(s, log, n - 1, winners, cancelled, t);
    }
}

/// One record adds no version but its own.
proof fn lemma_replayed_adds(c: Map<(u64, u64), StoredModel>, r: RecordModel, k: (u64, u64))
    requires
        replayed(c, r.kind, change_of(r.payload), r.txn) matches Some(p) && p.0.contains_key(k),
        !c.contains_key(k),
    ensures
        r.kind == WalRecordKind::Insert || r.kind == WalRecordKind::Update,
        k == (change_of(r.payload).header.row.0, change_of(r.payload).header.seq),
{
    let change = change_of(r.payload);
    match previous(c, change.header.row.0, change.header.seq) {
        Some(p) => {
            assert(super::redo::is_previous(c, change.header.row.0, change.header.seq, p));
            assert(with_hidden(c, (change.header.row.0, p), r.txn).dom() =~= c.dom());
        },
        None => {},
    }
}

/// An opened instance registers the winners of its journal as committed and the losers as rolled back,
/// and knows of no other transaction.
pub proof fn law_opened_instance_knows_who_won(
    data: DataModel,
    log: Seq<RecordModel>,
    control: Control,
    s: DiskStorage,
    x: TxnId,
)
    requires
        tells(data, log, control, s),
    ensures
        s.recovery.winners@.contains(x) ==> s@.journal.txns.contains_key(x.0)
            && s@.journal.txns[x.0].status == TxnStatus::Committed,
        s.recovery.losers@.contains(x) ==> s@.journal.txns.contains_key(x.0)
            && s@.journal.txns[x.0].status == TxnStatus::Aborted,
        !s.recovery.winners@.contains(x) && !s.recovery.losers@.contains(x)
            ==> !s@.journal.txns.contains_key(x.0),
{
    let none = JournalModel {
        log: Seq::empty(),
        durable: super::page::Lsn(0),
        txns: Map::empty(),
        next_savepoint_id: 0,
    };
    let r = s.recovery;
    let won = none.settled(r.winners@, TxnStatus::Committed);
    lemma_settled(none, r.winners@, TxnStatus::Committed);
    lemma_settled(won, r.losers@, TxnStatus::Aborted);
    assert(TxnId(x.0) == x);
    let all = won.settled(r.losers@, TxnStatus::Aborted);
    assert(all.txns == s@.journal.txns);
    assert(all.txns.contains_key(x.0) <==> won.txns.contains_key(x.0) || r.losers@.contains(x));
    assert(won.txns.contains_key(x.0) <==> r.winners@.contains(x));
    if r.winners@.contains(x) {
        assert(!r.losers@.contains(x));
        assert(won.txns[x.0].status == TxnStatus::Committed);
        assert(all.txns[x.0].status == TxnStatus::Committed);
    }
    if r.losers@.contains(x) {
        assert(all.txns[x.0].status == TxnStatus::Aborted);
    }
}

/// An opened instance hands out identifiers past those of the databases, tables and indexes it holds,
/// and past those its control block names.
pub proof fn law_opened_instance_hands_out_new_identifiers(
    data: DataModel,
    log: Seq<RecordModel>,
    control: Control,
    s: DiskStorage,
    id: u64,
)
    requires
        tells(data, log, control, s),
    ensures
        s@.databases.contains_key(id) ==> id < s@.control.next_db_id,
        s@.tables.contains_key(id) ==> id < s@.control.next_table_id,
        s@.indexes.contains_key(id) ==> id < s@.control.next_index_id,
        s@.control.next_db_id >= control.next_db_id,
        s@.control.next_table_id >= control.next_table_id,
        s@.control.next_index_id >= control.next_index_id,
        s@.control.next_row_id >= control.next_row_id,
{
    let c = data.defines(log, log.len() as int)->0;
    assert(s@.tables.contains_key(id) ==> s@.tables.dom().contains(id));
    assert(c.databases.dom().contains(id) <==> c.databases.contains_key(id));
    assert(c.indexes.dom().contains(id) <==> c.indexes.contains_key(id));
}

/// A write between a savepoint and a rollback to it is taken back.
pub proof fn law_rolled_back_write_is_taken_back(
    log: Seq<RecordModel>,
    i: int,
    j: int,
    k: int,
)
    requires
        super::ledger::numbered(log),
        0 <= i < j < k < log.len(),
        log[i].kind == WalRecordKind::Savepoint,
        log[k].kind == WalRecordKind::RollbackTo,
        writes_a_row(log[j]),
        log[i].txn == log[k].txn,
        log[j].txn == log[k].txn,
        log[i].payload.take(8) == log[k].payload.take(8),
        forall|x: int|
            i < x < k && (#[trigger] log[x]).kind == WalRecordKind::Savepoint && log[x].txn
                == log[k].txn ==> super::recover::savepoint_of(log[x])
                != super::recover::savepoint_of(log[k]),
    ensures
        is_cancelled(log, log.len() as int, log[j].lsn.0),
{
    assert(savepoint_before(log, k, i));
    assert(log[i].lsn.0 == i + 1 && log[j].lsn.0 == j + 1 && log[k].lsn.0 == k + 1);
    assert(super::recover::takes_back(log, k, j));
}

/// Only a write that its own transaction made, after a savepoint and before a rollback to it, is taken
/// back.
pub proof fn law_only_a_rolled_back_write_is_taken_back(log: Seq<RecordModel>, lsn: u64)
    requires
        super::ledger::numbered(log),
        is_cancelled(log, log.len() as int, lsn),
    ensures
        exists|i: int, j: int, k: int|
            {
                &&& 0 <= i < j < k < log.len()
                &&& (#[trigger] log[i]).kind == WalRecordKind::Savepoint
                &&& writes_a_row(#[trigger] log[j])
                &&& (#[trigger] log[k]).kind == WalRecordKind::RollbackTo
                &&& log[i].txn == log[k].txn
                &&& log[j].txn == log[k].txn
                &&& log[j].lsn.0 == lsn
            },
{
    let (k, j) = choose|k: int, j: int|
        0 <= k < log.len() && #[trigger] super::recover::takes_back(log, k, j) && log[j].lsn.0
            == lsn;
    let i = choose|i: int| #[trigger] savepoint_before(log, k, i) && log[i].lsn.0 < log[j].lsn.0;
    assert(log[i].lsn.0 == i + 1 && log[j].lsn.0 == j + 1 && log[k].lsn.0 == k + 1);
    assert(writes_a_row(log[j]));
}

/// The tables of an opened instance hand out row identifiers and serials past those that any record of the
/// journal names, and hold no write of a running transaction.
pub proof fn law_opened_table_hands_out_new_rows(
    data: DataModel,
    log: Seq<RecordModel>,
    control: Control,
    s: DiskStorage,
    t: u64,
    i: int,
    x: TxnId,
)
    requires
        tells(data, log, control, s),
        s@.tables.contains_key(t),
    ensures
        ({
            let table = s@.tables[t].store.model();
            let named = change_of(log[i].payload).header;
            &&& table.next_row_id >= control.next_row_id
            &&& 0 <= i < log.len() && writes_a_row(log[i]) && named.row.0 < u64::MAX
                ==> table.next_row_id > named.row.0
            &&& 0 <= i < log.len() && writes_a_row(log[i]) && named.seq < u64::MAX ==> table.next_seq
                > named.seq
            &&& table.writes_of(x).len() == 0
        }),
{
    law_recovered_numbers_are_fresh(log, control, s.recovery, i);
}

/// With an empty journal an open gives what the data file holds: its definitions, and in each table the
/// versions of its records.
pub proof fn law_data_file_is_read_without_a_journal(
    data: DataModel,
    control: Control,
    s: DiskStorage,
    t: u64,
)
    requires
        tells(data, Seq::empty(), control, s),
    ensures
        s@.databases == data.catalogue.databases,
        s@.indexes == data.catalogue.indexes,
        s@.tables.contains_key(t) <==> data.catalogue.tables.contains_key(t),
        s@.tables.contains_key(t) ==> {
            &&& s@.tables[t].db == data.catalogue.tables[t].db
            &&& s@.tables[t].store.shape == data.catalogue.tables[t].shape
            &&& data.heaps.contains_key(t) ==> s@.rows_of(t).contents == contents(
                data.heaps[t].records,
            )
            &&& !data.heaps.contains_key(t) ==> s@.rows_of(t).contents == Map::<
                (u64, u64),
                StoredModel,
            >::empty()
        },
        s.recovery.applied == 0,
        s.recovery.skipped == 0,
        s.recovery.unplaced == 0,
{
    let c = data.catalogue;
    assert(data.defines(Seq::empty(), 0) == Some(c));
    assert(s@.tables.dom().contains(t) <==> c.tables.dom().contains(t));
    let z = data.redo_start(c);
    assert(redone(z, Seq::empty(), 0, numbers(s.recovery.winners@), s.recovery.cancelled@) == Some(
        z,
    ));
    if s@.tables.contains_key(t) {
        assert(z.tables[t] == s@.tables[t].store.model().contents);
    }
}

} // verus!
