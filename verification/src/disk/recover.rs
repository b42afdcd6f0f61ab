//! Recovery: the journal is read, the transactions that hold a [`WalRecordKind::Commit`] are
//! replayed on the heaps, and the others are left out.
//!
//! # Two passes
//!
//! 1. **Scan.** The records are read from the first one. A `Commit` makes its transaction a
//!    winner, an `Abort` a loser, and a transaction that holds neither is a loser too. The row
//!    records give the largest row and the largest version serial the journal names, winners and
//!    losers together, so that an identifier a rolled-back insert took is not handed out again.
//! 2. **Redo.** The row records of the winners are applied to the heaps, in journal order.
//!
//! The second pass starts at the first record of the journal: a transaction that began before a
//! checkpoint and committed after it has its row records behind the checkpoint. The redo may
//! repeat what a heap already holds because it is idempotent: a version the heap already holds
//! under its `(row, seq)` is skipped.

use vstd::prelude::*;

use super::bytes::{le_value, read_u64};
use super::page::PageId;
use super::wal::{RecordModel, WalRecord, WalRecordKind};
use super::wal_payload::{change_of, RowChange, PREFIX_LEN};
use crate::error::{Corruption, InternalError};
use crate::ids::{TableId, TxnId};
use crate::ordmap::{increasing, IdSet, OrdMap};

verus! {

/// Whether a record describes a row.
pub open spec fn is_row(kind: WalRecordKind) -> bool {
    kind == WalRecordKind::Insert || kind == WalRecordKind::Update || kind == WalRecordKind::Delete
}

/// Whether a record names a savepoint.
pub open spec fn names_savepoint(kind: WalRecordKind) -> bool {
    kind == WalRecordKind::Savepoint || kind == WalRecordKind::RollbackTo
}

/// The savepoint identifier the payload of a record carries.
pub open spec fn savepoint_of(r: RecordModel) -> u64 {
    le_value(r.payload.take(8)) as u64
}

/// Whether the payload of a record holds what its kind asks for.
pub open spec fn payload_ok(r: RecordModel) -> bool {
    &&& is_row(r.kind) ==> r.payload.len() >= PREFIX_LEN
    &&& names_savepoint(r.kind) ==> r.payload.len() >= 8
}

/// The error of a record whose payload is too short.
pub open spec fn payload_error(r: RecordModel, e: InternalError) -> bool {
    if is_row(r.kind) {
        e == InternalError::Corruption(Corruption::ShortChange { bytes: r.payload.len() as usize })
    } else {
        e == InternalError::Corruption(
            Corruption::ShortSavepoint {
                kind: r.kind.byte(),
                lsn: r.lsn,
                bytes: r.payload.len() as usize,
            },
        )
    }
}

/// Whether the journal holds a record of kind `kind` of `txn`.
pub open spec fn has_kind(records: Seq<RecordModel>, kind: WalRecordKind, txn: u64) -> bool {
    exists|i: int|
        0 <= i < records.len() && (#[trigger] records[i]).kind == kind && records[i].txn.0 == txn
}

/// Whether a record makes its transaction one the journal has seen.
pub open spec fn shows_txn(kind: WalRecordKind) -> bool {
    is_row(kind) || kind == WalRecordKind::Begin || kind == WalRecordKind::Commit || kind
        == WalRecordKind::Abort
}

/// Whether the journal has seen `txn` in a `Begin`, an end or a row record.
pub open spec fn has_seen(records: Seq<RecordModel>, txn: u64) -> bool {
    exists|i: int|
        0 <= i < records.len() && shows_txn((#[trigger] records[i]).kind) && records[i].txn.0 == txn
}

/// Whether the record `i` is the savepoint the rollback at `k` names: the last one before it of
/// the same transaction and the same identifier.
pub open spec fn savepoint_before(records: Seq<RecordModel>, k: int, i: int) -> bool {
    &&& 0 <= i < k < records.len()
    &&& takes_savepoint(records[i], records[k])
    &&& forall|x: int| i < x < k ==> !takes_savepoint(#[trigger] records[x], records[k])
}

/// Whether `a` takes the savepoint `b` names.
pub open spec fn takes_savepoint(a: RecordModel, b: RecordModel) -> bool {
    a.kind == WalRecordKind::Savepoint && a.txn == b.txn && savepoint_of(a) == savepoint_of(b)
}

/// Whether the rollback to a savepoint at `k` takes back the row record `j`: a row record of its
/// transaction, between the savepoint it names and itself.
pub open spec fn takes_back(records: Seq<RecordModel>, k: int, j: int) -> bool {
    &&& 0 <= k < records.len()
    &&& 0 <= j < records.len()
    &&& records[k].kind == WalRecordKind::RollbackTo
    &&& is_row(records[j].kind)
    &&& records[j].txn == records[k].txn
    &&& records[j].lsn.0 < records[k].lsn.0
    &&& exists|i: int| #[trigger]
        savepoint_before(records, k, i) && records[i].lsn.0 < records[j].lsn.0
}

/// Whether a rollback among the first `n` records takes back a record numbered `lsn`.
pub open spec fn is_cancelled(records: Seq<RecordModel>, n: int, lsn: u64) -> bool {
    exists|k: int, j: int|
        0 <= k < n && #[trigger] takes_back(records, k, j) && records[j].lsn.0 == lsn
}

/// The largest row the first `n` records name, 0 when none names one.
pub open spec fn max_row(records: Seq<RecordModel>, n: int) -> nat
    decreases n,
{
    if n <= 0 {
        0
    } else {
        let before = max_row(records, n - 1);
        let r = records[n - 1];
        if is_row(r.kind) && change_of(r.payload).header.row.0 > before {
            change_of(r.payload).header.row.0 as nat
        } else {
            before
        }
    }
}

/// The largest version serial the first `n` records name, 0 when none names one.
pub open spec fn max_serial(records: Seq<RecordModel>, n: int) -> nat
    decreases n,
{
    if n <= 0 {
        0
    } else {
        let before = max_serial(records, n - 1);
        let r = records[n - 1];
        if is_row(r.kind) && change_of(r.payload).header.seq > before {
            change_of(r.payload).header.seq as nat
        } else {
            before
        }
    }
}

/// What the first pass reads: the outcome of each transaction and the largest identifiers.
#[derive(Debug)]
pub struct Scan {
    /// Transactions with a `Commit`.
    pub winners: IdSet,
    /// Transactions with an `Abort`.
    pub aborted: IdSet,
    /// Transactions the journal names in a `Begin`, an end or a row record.
    pub seen: IdSet,
    /// Largest row a row record names, winners and losers together.
    pub max_row_id: u64,
    /// Largest version serial a row record names.
    pub max_seq: u64,
    /// Numbers of the row records the redo must leave out: a `RollbackTo` record cancels the row
    /// records of its transaction between the `Savepoint` its payload names and itself.
    pub cancelled: IdSet,
}

impl Scan {
    /// Whether this is what the first `n` records say.
    pub open spec fn reads(&self, records: Seq<RecordModel>, n: int) -> bool {
        let first = records.take(n);
        &&& forall|t: u64| #[trigger]
            self.winners@.contains(t) <==> has_kind(first, WalRecordKind::Commit, t)
        &&& forall|t: u64| #[trigger]
            self.aborted@.contains(t) <==> has_kind(first, WalRecordKind::Abort, t)
        &&& forall|t: u64| #[trigger] self.seen@.contains(t) <==> has_seen(first, t)
        &&& self.max_row_id as nat == max_row(records, n)
        &&& self.max_seq as nat == max_serial(records, n)
        &&& forall|lsn: u64| #[trigger]
            self.cancelled@.contains(lsn) <==> is_cancelled(records, n, lsn)
    }

    /// Reads the records once, from the first one.
    ///
    /// # Errors
    ///
    /// A corruption for the first record whose payload is too short for its kind.
    pub fn of(records: &Vec<WalRecord>) -> (r: Result<Self, InternalError>)
        ensures
            match r {
                Ok(scan) => {
                    &&& forall|i: int|
                        0 <= i < records@.len() ==> payload_ok(#[trigger] records.deep_view()[i])
                    &&& scan.reads(records.deep_view(), records@.len() as int)
                },
                Err(e) => exists|i: int|
                    0 <= i < records@.len() && !payload_ok(#[trigger] records.deep_view()[i])
                        && payload_error(records.deep_view()[i], e) && forall|j: int|
                        0 <= j < i ==> payload_ok(#[trigger] records.deep_view()[j]),
            },
    {
        let ghost log = records.deep_view();
        let mut scan = Scan {
            winners: IdSet::new(),
            aborted: IdSet::new(),
            seen: IdSet::new(),
            max_row_id: 0,
            max_seq: 0,
            cancelled: IdSet::new(),
        };
        assert(scan.reads(log, 0));
        for n in 0..records.len()
            invariant
                log == records.deep_view(),
                scan.reads(log, n as int),
                forall|i: int| 0 <= i < n ==> payload_ok(#[trigger] log[i]),
        {
            let record: &WalRecord = &records[n];
            let ghost before = scan;
            assert(log[n as int] == record@);
            assert(log.take(n + 1) =~= log.take(n as int).push(record@));
            match record.kind {
                WalRecordKind::Commit => {
                    scan.seen.insert(record.txn.0);
                    scan.winners.insert(record.txn.0);
                },
                WalRecordKind::Abort => {
                    scan.seen.insert(record.txn.0);
                    scan.aborted.insert(record.txn.0);
                },
                WalRecordKind::Begin => {
                    scan.seen.insert(record.txn.0);
                },
                WalRecordKind::Savepoint => {
                    match savepoint_id(record) {
                        Ok(_) => {},
                        Err(e) => {
                            return Err(e);
                        },
                    }
                },
                WalRecordKind::RollbackTo => {
                    match savepoint_id(record) {
                        Ok(_) => {},
                        Err(e) => {
                            return Err(e);
                        },
                    }
                    cancel(&mut scan.cancelled, records, n);
                },
                WalRecordKind::Insert | WalRecordKind::Update | WalRecordKind::Delete => {
                    scan.seen.insert(record.txn.0);
                    let change: RowChange = match RowChange::decode(record.payload.as_slice()) {
                        Ok(change) => change,
                        Err(e) => {
                            return Err(e);
                        },
                    };
                    if change.header.row.0 > scan.max_row_id {
                        scan.max_row_id = change.header.row.0;
                    }
                    if change.header.seq > scan.max_seq {
                        scan.max_seq = change.header.seq;
                    }
                },
                _ => {},
            }
            proof {
                lemma_kinds_one_more(log, n as int);
                if record.kind != WalRecordKind::RollbackTo {
                    assert forall|lsn: u64|
                        is_cancelled(log, n + 1, lsn) <==> #[trigger] is_cancelled(
                            log,
                            n as int,
                            lsn,
                        ) by {
                        if is_cancelled(log, n + 1, lsn) {
                            let (k, j) = choose|k: int, j: int|
                                0 <= k < n + 1 && #[trigger] takes_back(log, k, j) && log[j].lsn.0
                                    == lsn;
                            assert(k != n);
                            assert(takes_back(log, k, j));
                        }
                        if is_cancelled(log, n as int, lsn) {
                            let (k, j) = choose|k: int, j: int|
                                0 <= k < n && #[trigger] takes_back(log, k, j) && log[j].lsn.0
                                    == lsn;
                            assert(takes_back(log, k, j));
                        }
                    }
                }
            }
        }
        Ok(scan)
    }
}

/// What one more record adds to the transactions a journal names.
proof fn lemma_kinds_one_more(log: Seq<RecordModel>, n: int)
    requires
        0 <= n < log.len(),
    ensures
        forall|kind: WalRecordKind, t: u64| #[trigger]
            has_kind(log.take(n + 1), kind, t) <==> has_kind(log.take(n), kind, t) || (log[n].kind
                == kind && log[n].txn.0 == t),
        forall|t: u64| #[trigger]
            has_seen(log.take(n + 1), t) <==> has_seen(log.take(n), t) || (shows_txn(log[n].kind)
                && log[n].txn.0 == t),
{
    let a = log.take(n);
    let b = log.take(n + 1);
    assert(b =~= a.push(log[n]));
    assert forall|kind: WalRecordKind, t: u64| #[trigger]
        has_kind(b, kind, t) <==> has_kind(a, kind, t) || (log[n].kind == kind && log[n].txn.0
            == t) by {
        if has_kind(a, kind, t) {
            let i = choose|i: int|
                0 <= i < a.len() && (#[trigger] a[i]).kind == kind && a[i].txn.0 == t;
            assert(b[i] == a[i]);
        }
        if has_kind(b, kind, t) {
            let i = choose|i: int|
                0 <= i < b.len() && (#[trigger] b[i]).kind == kind && b[i].txn.0 == t;
            if i < n {
                assert(a[i] == b[i]);
            }
        }
        assert(b[n] == log[n]);
    }
    assert forall|t: u64| #[trigger]
        has_seen(b, t) <==> has_seen(a, t) || (shows_txn(log[n].kind) && log[n].txn.0 == t) by {
        if has_seen(a, t) {
            let i = choose|i: int|
                0 <= i < a.len() && shows_txn((#[trigger] a[i]).kind) && a[i].txn.0 == t;
            assert(b[i] == a[i]);
        }
        if has_seen(b, t) {
            let i = choose|i: int|
                0 <= i < b.len() && shows_txn((#[trigger] b[i]).kind) && b[i].txn.0 == t;
            if i < n {
                assert(a[i] == b[i]);
            }
        }
        assert(b[n] == log[n]);
    }
}

/// The savepoint identifier the payload of a `Savepoint` or a `RollbackTo` record carries.
///
/// # Errors
///
/// A corruption for a payload of fewer than 8 bytes.
fn savepoint_id(record: &WalRecord) -> (r: Result<u64, InternalError>)
    requires
        names_savepoint(record@.kind),
    ensures
        match r {
            Ok(id) => payload_ok(record@) && id == savepoint_of(record@),
            Err(e) => !payload_ok(record@) && payload_error(record@, e),
        },
{
    if record.payload.len() < 8 {
        return Err(
            InternalError::Corruption(
                Corruption::ShortSavepoint {
                    kind: record.kind.as_byte(),
                    lsn: record.lsn,
                    bytes: record.payload.len(),
                },
            ),
        );
    }
    assert(record.payload@.take(8) =~= record.payload@.subrange(0, 8));
    Ok(read_u64(record.payload.as_slice(), 0))
}

/// Adds the row records the rollback at `n` takes back to the cancelled ones.
fn cancel(cancelled: &mut IdSet, records: &Vec<WalRecord>, n: usize)
    requires
        n < records@.len(),
        records.deep_view()[n as int].kind == WalRecordKind::RollbackTo,
        forall|i: int| 0 <= i <= n ==> payload_ok(#[trigger] records.deep_view()[i]),
        forall|lsn: u64| #[trigger]
            old(cancelled)@.contains(lsn) <==> is_cancelled(records.deep_view(), n as int, lsn),
    ensures
        forall|lsn: u64| #[trigger]
            final(cancelled)@.contains(lsn) <==> is_cancelled(records.deep_view(), n + 1, lsn),
{
    let ghost log = records.deep_view();
    let ghost before = cancelled@;
    let rollback: &WalRecord = &records[n];
    assert(log[n as int] == rollback@);
    assert(payload_ok(log[n as int]));
    let id: u64 = match savepoint_id(rollback) {
        Ok(id) => id,
        Err(_) => {
            return;
        },
    };
    // The savepoint the record names: the last one before it.
    let mut at: usize = n;
    let mut found: bool = false;
    while at > 0 && !found
        invariant
            at <= n,
            n < records@.len(),
            log == records.deep_view(),
            log[n as int] == rollback@,
            id == savepoint_of(rollback@),
            forall|i: int| 0 <= i <= n ==> payload_ok(#[trigger] log[i]),
            found ==> savepoint_before(log, n as int, at as int),
            !found ==> forall|x: int|
                at <= x < n ==> !takes_savepoint(#[trigger] log[x], log[n as int]),
        decreases at, (if found { 0int } else { 1int }),
    {
        let candidate: &WalRecord = &records[at - 1];
        assert(log[at - 1] == candidate@);
        assert(payload_ok(log[at - 1]));
        let hit: bool = if candidate.kind == WalRecordKind::Savepoint && candidate.txn
            == rollback.txn {
            match savepoint_id(candidate) {
                Ok(named) => named == id,
                Err(_) => false,
            }
        } else {
            false
        };
        at = at - 1;
        if hit {
            found = true;
        }
    }
    if !found {
        proof {
            assert forall|lsn: u64| #[trigger] before.contains(lsn) <==> is_cancelled(
                log,
                n + 1,
                lsn,
            ) by {
                lemma_cancelled_one_more(log, n as int, lsn);
                if exists|j: int| #[trigger] takes_back(log, n as int, j) {
                    let j = choose|j: int| #[trigger] takes_back(log, n as int, j);
                    let i = choose|i: int| #[trigger]
                        savepoint_before(log, n as int, i) && log[i].lsn.0 < log[j].lsn.0;
                    assert(takes_savepoint(log[i], log[n as int]));
                }
            }
        }
        return;
    }
    let low: u64 = records[at].lsn.0;
    assert(log[at as int] == records@[at as int]@);
    proof {
        assert forall|i: int| savepoint_before(log, n as int, i) implies i == at by {
            if i < at {
                assert(takes_savepoint(log[at as int], log[n as int]));
            }
            if at < i {
                assert(takes_savepoint(log[i], log[n as int]));
            }
        }
    }
    for j in 0..records.len()
        invariant
            n < records@.len(),
            log == records.deep_view(),
            log[n as int] == rollback@,
            rollback@.kind == WalRecordKind::RollbackTo,
            low == log[at as int].lsn.0,
            savepoint_before(log, n as int, at as int),
            forall|i: int| #[trigger] savepoint_before(log, n as int, i) ==> i == at,
            forall|lsn: u64| #[trigger]
                cancelled@.contains(lsn) <==> before.contains(lsn) || exists|x: int|
                    0 <= x < j && #[trigger] takes_back(log, n as int, x) && log[x].lsn.0 == lsn,
    {
        let r: &WalRecord = &records[j];
        assert(log[j as int] == r@);
        let row: bool = match r.kind {
            WalRecordKind::Insert | WalRecordKind::Update | WalRecordKind::Delete => true,
            _ => false,
        };
        let ghost so_far = cancelled@;
        let hit: bool = row && r.txn == rollback.txn && r.lsn.0 > low && r.lsn.0 < rollback.lsn.0;
        if hit {
            assert(takes_back(log, n as int, j as int));
            cancelled.insert(r.lsn.0);
        }
        proof {
            assert(hit == takes_back(log, n as int, j as int));
            assert forall|lsn: u64| #[trigger] cancelled@.contains(lsn) <==> before.contains(lsn)
                || exists|x: int|
                0 <= x < j + 1 && #[trigger] takes_back(log, n as int, x) && log[x].lsn.0 == lsn by {
                if so_far.contains(lsn) && !before.contains(lsn) {
                    let x = choose|x: int|
                        0 <= x < j && #[trigger] takes_back(log, n as int, x) && log[x].lsn.0
                            == lsn;
                    assert(takes_back(log, n as int, x));
                }
                if exists|x: int|
                    0 <= x < j + 1 && #[trigger] takes_back(log, n as int, x) && log[x].lsn.0
                        == lsn {
                    let x = choose|x: int|
                        0 <= x < j + 1 && #[trigger] takes_back(log, n as int, x) && log[x].lsn.0
                            == lsn;
                    if x < j {
                        assert(takes_back(log, n as int, x));
                        assert(so_far.contains(lsn));
                    }
                }
            }
        }
    }
    proof {
        assert forall|lsn: u64| #[trigger] cancelled@.contains(lsn) <==> is_cancelled(
            log,
            n + 1,
            lsn,
        ) by {
            lemma_cancelled_one_more(log, n as int, lsn);
            if exists|j: int| #[trigger] takes_back(log, n as int, j) && log[j].lsn.0 == lsn {
                let j = choose|j: int| #[trigger]
                    takes_back(log, n as int, j) && log[j].lsn.0 == lsn;
                assert(0 <= j < log.len());
            }
        }
    }
}

/// What the rollback at `n` adds to the cancelled records.
proof fn lemma_cancelled_one_more(log: Seq<RecordModel>, n: int, lsn: u64)
    requires
        0 <= n,
    ensures
        is_cancelled(log, n + 1, lsn) <==> is_cancelled(log, n, lsn) || exists|j: int| #[trigger]
            takes_back(log, n, j) && log[j].lsn.0 == lsn,
{
    if is_cancelled(log, n + 1, lsn) {
        let (k, j) = choose|k: int, j: int|
            0 <= k < n + 1 && #[trigger] takes_back(log, k, j) && log[j].lsn.0 == lsn;
        if k < n {
            assert(takes_back(log, k, j));
        }
    }
    if is_cancelled(log, n, lsn) {
        let (k, j) = choose|k: int, j: int|
            0 <= k < n && #[trigger] takes_back(log, k, j) && log[j].lsn.0 == lsn;
        assert(takes_back(log, k, j));
    }
    if exists|j: int| #[trigger] takes_back(log, n, j) && log[j].lsn.0 == lsn {
        let j = choose|j: int| #[trigger] takes_back(log, n, j) && log[j].lsn.0 == lsn;
        assert(takes_back(log, n, j));
    }
}

/// What the recovery found and did.
#[derive(Debug)]
pub struct Recovery {
    /// The transactions the journal holds a `Commit` for, sorted.
    pub winners: Vec<TxnId>,
    /// The transactions the journal holds an `Abort` for, and the ones whose `Begin` is followed
    /// by neither end, sorted.
    pub losers: Vec<TxnId>,
    /// The identifier the next insert takes: one past the largest the journal names, and at
    /// least the one of the control block.
    pub next_row_id: u64,
    /// The serial the next version takes, one past the largest the journal names.
    pub next_seq: u64,
    /// Head page of the heap of each table the catalogue holds once the definitions of the
    /// journal have been replayed. A table the journal drops is not there.
    pub tables: OrdMap<PageId>,
    /// Row records of winners the redo wrote to a heap.
    pub applied: usize,
    /// Row records of winners the heap already held.
    pub skipped: usize,
    /// Row records of winners naming a table the catalogue does not hold.
    pub unplaced: usize,
    /// Row records of a committed transaction that an undone savepoint took back before the
    /// commit. The redo leaves them out.
    pub cancelled: IdSet,
}

/// Whether the transactions come in increasing order, none twice.
pub open spec fn sorted(txns: Seq<TxnId>) -> bool {
    forall|i: int, j: int|
        0 <= i < j < txns.len() ==> (#[trigger] txns[i]).0 < (#[trigger] txns[j]).0
}

/// One past `n`, `u64::MAX` when there is none.
pub open spec fn one_past(n: nat) -> nat {
    if n >= u64::MAX {
        u64::MAX as nat
    } else {
        n + 1
    }
}

impl Default for Recovery {
    /// What an empty journal answers: no transaction, the two counters at 1.
    fn default() -> (r: Self)
        ensures
            r.winners@.len() == 0,
            r.losers@.len() == 0,
            r.next_row_id == 1,
            r.next_seq == 1,
            r.tables@ == Map::<u64, PageId>::empty(),
            r.applied == 0,
            r.skipped == 0,
            r.unplaced == 0,
            r.cancelled@ == Set::<u64>::empty(),
    {
        Recovery {
            winners: Vec::new(),
            losers: Vec::new(),
            next_row_id: 1,
            next_seq: 1,
            tables: OrdMap::new(),
            applied: 0,
            skipped: 0,
            unplaced: 0,
            cancelled: IdSet::new(),
        }
    }
}

impl Recovery {
    /// Head page of the heap of `table`, if the catalogue holds that table.
    pub fn heap_of(&self, table: TableId) -> (r: Option<PageId>)
        ensures
            r == if self.tables@.contains_key(table.0 as u64) {
                Some(self.tables@[table.0 as u64])
            } else {
                None
            },
    {
        match self.tables.get(table.0 as u64) {
            Some(page) => Some(*page),
            None => None,
        }
    }
}

impl Scan {
    /// The outcome of the scan. The next row identifier is one past the largest the journal
    /// names, and at least `next_row_id`, the one of the control block.
    pub fn into_recovery(self, next_row_id: u64, tables: OrdMap<PageId>) -> (r: Recovery)
        ensures
            sorted(r.winners@),
            forall|t: TxnId| #[trigger] r.winners@.contains(t) <==> self.winners@.contains(t.0),
            sorted(r.losers@),
            forall|t: TxnId| #[trigger]
                r.losers@.contains(t) <==> self.seen@.contains(t.0) && !self.winners@.contains(t.0),
            r.next_row_id as nat == if one_past(self.max_row_id as nat) > next_row_id {
                one_past(self.max_row_id as nat)
            } else {
                next_row_id as nat
            },
            r.next_seq as nat == one_past(self.max_seq as nat),
            r.tables@ == tables@,
            r.applied == 0,
            r.skipped == 0,
            r.unplaced == 0,
            r.cancelled@ == self.cancelled@,
    {
        let won: Vec<u64> = self.winners.to_vec();
        let seen: Vec<u64> = self.seen.to_vec();
        let mut winners: Vec<TxnId> = Vec::new();
        for i in 0..won.len()
            invariant
                increasing(won@),
                winners@.len() == i,
                forall|k: int| 0 <= k < i ==> (#[trigger] winners@[k]).0 == won@[k],
        {
            winners.push(TxnId(won[i]));
        }
        let mut losers: Vec<TxnId> = Vec::new();
        for i in 0..seen.len()
            invariant
                increasing(seen@),
                sorted(losers@),
                losers@.len() > 0 ==> i > 0 && losers@.last().0 <= seen@[i - 1],
                forall|t: TxnId| #[trigger]
                    losers@.contains(t) <==> !self.winners@.contains(t.0) && exists|k: int|
                        0 <= k < i && #[trigger] seen@[k] == t.0,
        {
            let ghost before = losers@;
            let txn: u64 = seen[i];
            assert(i > 0 ==> seen@[i - 1] < seen@[i as int]);
            if !self.winners.contains(txn) {
                losers.push(TxnId(txn));
                assert(losers@[before.len() as int] == TxnId(txn));
            }
            proof {
                assert forall|t: TxnId| #[trigger] losers@.contains(t) <==> !self.winners@.contains(
                    t.0,
                ) && exists|k: int| 0 <= k < i + 1 && #[trigger] seen@[k] == t.0 by {
                    if losers@.contains(t) && t.0 != txn {
                        let x = choose|x: int| 0 <= x < losers@.len() && losers@[x] == t;
                        assert(before[x] == t);
                        assert(before.contains(t));
                    }
                    if losers@.contains(t) && t.0 == txn {
                        assert(seen@[i as int] == t.0);
                        if self.winners@.contains(txn) {
                            assert(before.contains(t));
                        }
                    }
                    if before.contains(t) {
                        let x = choose|x: int| 0 <= x < before.len() && before[x] == t;
                        assert(losers@[x] == t);
                    }
                }
            }
        }
        proof {
            assert forall|t: TxnId| #[trigger] winners@.contains(t) <==> self.winners@.contains(
                t.0,
            ) by {
                assert(won@.contains(t.0) <==> self.winners@.contains(t.0));
                if winners@.contains(t) {
                    let x = choose|x: int| 0 <= x < winners@.len() && winners@[x] == t;
                    assert(won@[x] == t.0);
                }
                if won@.contains(t.0) {
                    let x = choose|x: int| 0 <= x < won@.len() && won@[x] == t.0;
                    assert(winners@[x] == t);
                }
            }
            assert forall|t: TxnId| #[trigger] losers@.contains(t) <==> self.seen@.contains(t.0)
                && !self.winners@.contains(t.0) by {
                assert(seen@.contains(t.0) <==> self.seen@.contains(t.0));
            }
        }
        let past: u64 = self.max_row_id.saturating_add(1);
        let next: u64 = if past > next_row_id {
            past
        } else {
            next_row_id
        };
        Recovery {
            winners,
            losers,
            next_row_id: next,
            next_seq: self.max_seq.saturating_add(1),
            tables,
            applied: 0,
            skipped: 0,
            unplaced: 0,
            cancelled: self.cancelled,
        }
    }
}

} // verus!
