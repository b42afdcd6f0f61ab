//! The journal of one instance and its register of transactions.
//!
//! The register is per instance: one `Begin` and one `Commit` or `Abort` record per transaction,
//! whichever tables it writes in. A transaction is discovered at its first write; one that reads
//! and commits leaves nothing in the journal.

use vstd::prelude::*;

use super::bytes::{le_bytes, lemma_le_len, put_u64};
use super::page::Lsn;
use super::wal::{RecordModel, Wal, WalRecordKind, MAX_PAYLOAD_LEN};
use crate::error::{Bug, IdSpace, InternalError};
use crate::ids::{SavepointId, TableId, TxnId};
use crate::ordmap::{increasing, IdSet, OrdMap};
use crate::snapshot::{status_of, TxnStatus};

verus! {

/// What one instance knows about one transaction.
#[derive(Debug)]
pub struct TxnRecord {
    /// `InProgress` from the first write until `commit` or `rollback`.
    pub status: TxnStatus,
    /// Whether the journal holds the `Begin` of this transaction.
    pub began: bool,
    /// The tables the transaction wrote in, which its end walks.
    pub tables: IdSet,
    /// The savepoints of this transaction, in the order they were taken: each with its
    /// identifier and the number of writes per table at the moment it was taken.
    pub savepoints: Vec<Mark>,
}

/// A savepoint: its identifier and the number of writes per table when it was taken.
#[derive(Debug)]
pub struct Mark {
    /// The identifier.
    pub id: SavepointId,
    /// The number of writes of the transaction in each table it had written in.
    pub writes: OrdMap<usize>,
}

/// What a [`Mark`] stands for.
#[verifier::ext_equal]
pub struct MarkModel {
    /// The identifier.
    pub id: SavepointId,
    /// The number of writes of the transaction in each table it had written in.
    pub writes: Map<u64, usize>,
}

impl DeepView for Mark {
    type V = MarkModel;

    open spec fn deep_view(&self) -> MarkModel {
        MarkModel { id: self.id, writes: self.writes@ }
    }
}

/// What a [`TxnRecord`] stands for.
#[verifier::ext_equal]
pub struct TxnRecordModel {
    /// How far the transaction has come.
    pub status: TxnStatus,
    /// Whether the journal holds its `Begin`.
    pub began: bool,
    /// The tables it wrote in.
    pub tables: Set<u64>,
    /// Its savepoints.
    pub savepoints: Seq<MarkModel>,
}

impl DeepView for TxnRecord {
    type V = TxnRecordModel;

    open spec fn deep_view(&self) -> TxnRecordModel {
        TxnRecordModel {
            status: self.status,
            began: self.began,
            tables: self.tables@,
            savepoints: self.savepoints.deep_view(),
        }
    }
}

impl TxnRecordModel {
    /// A transaction discovered just now: in progress, no record yet, no table.
    pub open spec fn blank() -> TxnRecordModel {
        TxnRecordModel {
            status: TxnStatus::InProgress,
            began: false,
            tables: Set::empty(),
            savepoints: Seq::empty(),
        }
    }
}

impl Default for TxnRecord {
    /// A transaction discovered at its first write: in progress, no record yet, no table.
    fn default() -> (r: Self)
        ensures
            r.deep_view() == TxnRecordModel::blank(),
    {
        let r = TxnRecord {
            status: TxnStatus::InProgress,
            began: false,
            tables: IdSet::new(),
            savepoints: Vec::new(),
        };
        assert(r.savepoints.deep_view() =~= Seq::<MarkModel>::empty());
        r
    }
}

/// The transactions of one instance.
#[derive(Debug)]
pub struct TxnRegistry {
    /// What the instance knows about each transaction it has seen.
    pub txns: OrdMap<TxnRecord>,
    /// The next savepoint identifier to hand out.
    pub next_savepoint_id: u64,
}

impl Default for TxnRegistry {
    /// No transaction, the first savepoint identifier 0.
    fn default() -> (r: Self)
        ensures
            r.txns@ == Map::<u64, TxnRecordModel>::empty(),
            r.next_savepoint_id == 0,
    {
        TxnRegistry { txns: OrdMap::new(), next_savepoint_id: 0 }
    }
}

/// The journal of one instance and its register of transactions.
#[derive(Debug)]
pub struct Journal {
    /// The records.
    pub wal: Wal,
    /// The transactions.
    pub registry: TxnRegistry,
}

/// What a [`Journal`] stands for.
#[verifier::ext_equal]
pub struct JournalModel {
    /// The records, oldest first.
    pub log: Seq<RecordModel>,
    /// The number of the last durable record.
    pub durable: Lsn,
    /// What is known about each transaction.
    pub txns: Map<u64, TxnRecordModel>,
    /// The next savepoint identifier.
    pub next_savepoint_id: u64,
}

impl View for Journal {
    type V = JournalModel;

    open spec fn view(&self) -> JournalModel {
        JournalModel {
            log: self.wal.log(),
            durable: self.wal.durable_lsn,
            txns: self.registry.txns@,
            next_savepoint_id: self.registry.next_savepoint_id,
        }
    }
}

/// The bytes a savepoint record carries: its identifier.
pub open spec fn savepoint_payload(sp: SavepointId) -> Seq<u8> {
    le_bytes(sp.0 as nat, 8)
}

impl JournalModel {
    /// The registered statuses.
    pub open spec fn st(self) -> Map<u64, TxnStatus> {
        Map::new(|t: u64| self.txns.contains_key(t), |t: u64| self.txns[t].status)
    }

    /// What is known about `txn`: nothing is a transaction in progress that wrote nowhere.
    pub open spec fn record(self, txn: TxnId) -> TxnRecordModel {
        if self.txns.contains_key(txn.0) {
            self.txns[txn.0]
        } else {
            TxnRecordModel::blank()
        }
    }

    /// Whether `txn` already committed or rolled back.
    pub open spec fn finished(self, txn: TxnId) -> bool {
        self.record(txn).status != TxnStatus::InProgress
    }

    /// The error of a transaction that already committed or rolled back.
    pub open spec fn finished_error(self, txn: TxnId) -> InternalError {
        InternalError::Bug(Bug::FinishedTxn { txn, status: self.record(txn).status })
    }

    /// The journal with another record of a transaction.
    pub open spec fn with_record(self, txn: TxnId, record: TxnRecordModel) -> JournalModel {
        JournalModel { txns: self.txns.insert(txn.0, record), ..self }
    }

    /// Whether the journal refuses a payload of `len` bytes.
    pub open spec fn refuses(self, len: nat) -> bool {
        len > MAX_PAYLOAD_LEN || self.log.len() == u64::MAX
    }

    /// The error of a payload the journal refuses.
    pub open spec fn refusal(self, kind: WalRecordKind, len: nat) -> InternalError {
        if len > MAX_PAYLOAD_LEN {
            InternalError::Bug(Bug::PayloadTooLong { kind, bytes: len as usize })
        } else {
            InternalError::Bug(Bug::LsnsExhausted)
        }
    }

    /// The record the next append writes.
    pub open spec fn next(self, kind: WalRecordKind, txn: TxnId, payload: Seq<u8>) -> RecordModel {
        RecordModel {
            kind,
            lsn: Lsn((self.log.len() + 1) as u64),
            prev_lsn: Lsn(self.log.len() as u64),
            txn,
            payload,
        }
    }

    /// The journal with one more record.
    pub open spec fn logged(self, kind: WalRecordKind, txn: TxnId, payload: Seq<u8>) -> JournalModel {
        JournalModel { log: self.log.push(self.next(kind, txn, payload)), ..self }
    }

    /// The journal with all its records durable.
    pub open spec fn flushed(self) -> JournalModel {
        JournalModel { durable: Lsn(self.log.len() as u64), ..self }
    }

    /// The journal once `txn` writes in `table`, before any record of it.
    pub open spec fn noted(self, txn: TxnId, table: TableId) -> JournalModel {
        let record = self.record(txn);
        self.with_record(
            txn,
            TxnRecordModel { tables: record.tables.insert(table.0 as u64), ..record },
        )
    }

    /// Whether the first write of `txn` cannot be recorded.
    pub open spec fn begin_refused(self, txn: TxnId) -> bool {
        !self.record(txn).began && self.refuses(0)
    }

    /// The journal once `txn` has begun to write in `table`: one `Begin` per transaction.
    pub open spec fn begun(self, txn: TxnId, table: TableId) -> JournalModel {
        let record = self.record(txn);
        if record.began {
            self.noted(txn, table)
        } else {
            self.logged(WalRecordKind::Begin, txn, Seq::empty()).with_record(
                txn,
                TxnRecordModel {
                    began: true,
                    tables: record.tables.insert(table.0 as u64),
                    ..record
                },
            )
        }
    }

    /// The journal once `txn` has ended with a record of kind `kind`: no record for one that
    /// wrote nothing.
    pub open spec fn ended(self, txn: TxnId, kind: WalRecordKind) -> JournalModel {
        let record = self.record(txn);
        let after = TxnRecordModel { status: end_status(kind), ..record };
        if record.began {
            self.logged(kind, txn, Seq::empty()).flushed().with_record(txn, after)
        } else {
            self.with_record(txn, after)
        }
    }

    /// The journal with a transaction registered, its record unchanged if it had one.
    pub open spec fn registered(self, txn: TxnId) -> JournalModel {
        self.with_record(txn, self.record(txn))
    }

    /// The journal once the transactions of `txns` are registered with `status`.
    pub open spec fn settled(self, txns: Seq<TxnId>, status: TxnStatus) -> JournalModel
        decreases txns.len(),
    {
        if txns.len() == 0 {
            self
        } else {
            let before = self.settled(txns.drop_last(), status);
            before.with_record(
                txns.last(),
                TxnRecordModel { status, ..before.record(txns.last()) },
            )
        }
    }
}

impl JournalModel {
    /// Whether no savepoint identifier is left.
    pub open spec fn savepoints_exhausted(self) -> bool {
        self.next_savepoint_id == u64::MAX
    }

    /// The journal once `txn` took the next savepoint identifier.
    pub open spec fn savepoint_taken(self, txn: TxnId) -> JournalModel {
        JournalModel {
            next_savepoint_id: (self.next_savepoint_id + 1) as u64,
            ..self.registered(txn)
        }
    }

    /// The journal once the record of the savepoint was appended.
    pub open spec fn savepoint_logged(self, txn: TxnId) -> JournalModel {
        self.savepoint_taken(txn).logged(
            WalRecordKind::Savepoint,
            txn,
            savepoint_payload(SavepointId(self.next_savepoint_id)),
        )
    }

    /// The journal with one more savepoint of `txn`.
    pub open spec fn with_mark(self, txn: TxnId, mark: MarkModel) -> JournalModel {
        let record = self.record(txn);
        self.with_record(
            txn,
            TxnRecordModel { savepoints: record.savepoints.push(mark), ..record },
        )
    }

    /// Whether the savepoint `sp` of `txn` is the `i`-th of it, and none before has that name.
    pub open spec fn savepoint_at(self, txn: TxnId, sp: SavepointId, i: int) -> bool {
        let marks = self.record(txn).savepoints;
        &&& 0 <= i < marks.len()
        &&& marks[i].id == sp
        &&& forall|k: int| 0 <= k < i ==> (#[trigger] marks[k]).id != sp
    }

    /// The journal once the record of a rollback to `sp` was appended.
    pub open spec fn rollback_logged(self, txn: TxnId, sp: SavepointId) -> JournalModel {
        self.logged(WalRecordKind::RollbackTo, txn, savepoint_payload(sp)).flushed()
    }

    /// The journal with the savepoints of `txn` after the `i`-th forgotten.
    pub open spec fn marks_cut(self, txn: TxnId, i: int) -> JournalModel {
        let record = self.record(txn);
        self.with_record(
            txn,
            TxnRecordModel { savepoints: record.savepoints.take(i + 1), ..record },
        )
    }
}

/// The status an end record gives: `Aborted` for an `Abort`, `Committed` otherwise.
pub open spec fn end_status(kind: WalRecordKind) -> TxnStatus {
    match kind {
        WalRecordKind::Abort => TxnStatus::Aborted,
        _ => TxnStatus::Committed,
    }
}

impl Journal {
    /// Whether the records are consistent.
    pub open spec fn wf(&self) -> bool {
        self.wal.wf()
    }

    /// A journal over its records, no transaction registered.
    pub fn over(wal: Wal) -> (r: Self)
        requires
            wal.wf(),
        ensures
            r.wf(),
            r.wal == wal,
            r@.txns == Map::<u64, TxnRecordModel>::empty(),
            r@.next_savepoint_id == 0,
    {
        Journal { wal, registry: TxnRegistry::default() }
    }

    /// The status of `txn` as visibility must see it: the registered status, or `Committed` for
    /// a transaction this instance has not seen.
    pub fn txn_status(&self, txn: TxnId) -> (r: TxnStatus)
        ensures
            r == status_of(self@.st(), txn),
    {
        match self.registry.txns.get(txn.0) {
            Some(record) => record.status,
            None => TxnStatus::Committed,
        }
    }

    /// Refuses a transaction that already committed or rolled back, registering nothing.
    ///
    /// # Errors
    ///
    /// A bug naming the status the register holds.
    pub fn check_writable(&self, txn: TxnId) -> (r: Result<(), InternalError>)
        ensures
            match r {
                Ok(_) => !self@.finished(txn),
                Err(e) => self@.finished(txn) && e == self@.finished_error(txn),
            },
    {
        match self.registry.txns.get(txn.0) {
            Some(record) => {
                if record.status != TxnStatus::InProgress {
                    Err(InternalError::Bug(Bug::FinishedTxn { txn, status: record.status }))
                } else {
                    Ok(())
                }
            },
            None => Ok(()),
        }
    }

    /// Takes the record of `txn` out of the register, a blank one if there is none.
    fn take_record(&mut self, txn: TxnId) -> (r: TxnRecord)
        ensures
            r.deep_view() == old(self)@.record(txn),
            final(self).wal == old(self).wal,
            final(self)@.txns == old(self)@.txns.remove(txn.0),
            final(self)@.next_savepoint_id == old(self)@.next_savepoint_id,
    {
        match self.registry.txns.remove(txn.0) {
            Some(record) => record,
            None => TxnRecord::default(),
        }
    }

    /// Registers the first write of `txn` in `table`, appending one `Begin` record per
    /// transaction.
    ///
    /// # Errors
    ///
    /// A bug when the journal has no number left for the record; the table is noted all the
    /// same.
    pub fn begin_txn(&mut self, txn: TxnId, table: TableId) -> (r: Result<(), InternalError>)
        requires
            old(self).wf(),
        ensures
            final(self).wf(),
            match r {
                Ok(_) => !old(self)@.begin_refused(txn) && final(self)@ == old(self)@.begun(
                    txn,
                    table,
                ),
                Err(e) => {
                    &&& old(self)@.begin_refused(txn)
                    &&& e == old(self)@.refusal(WalRecordKind::Begin, 0)
                    &&& final(self)@ == old(self)@.noted(txn, table)
                },
            },
    {
        let ghost before = self@;
        let mut record: TxnRecord = self.take_record(txn);
        record.tables.insert(table.0 as u64);
        let mut outcome: Result<(), InternalError> = Ok(());
        if !record.began {
            let nothing: Vec<u8> = Vec::new();
            match self.wal.append(WalRecordKind::Begin, txn, nothing.as_slice()) {
                Ok(_) => {
                    assert(nothing@ =~= Seq::<u8>::empty());
                    record.began = true;
                },
                Err(e) => {
                    outcome = Err(e);
                },
            }
        }
        let ghost last = record.deep_view();
        self.registry.txns.insert(txn.0, record);
        proof {
            assert(self@.txns =~= before.txns.insert(txn.0, last));
            match outcome {
                Ok(_) => {
                    assert(self@ =~= before.begun(txn, table));
                },
                Err(_) => {
                    assert(self@ =~= before.noted(txn, table));
                },
            }
        }
        outcome
    }

    /// Ends `txn` with `kind`, appending one record per transaction, and answers the number of
    /// that record when one was appended. A transaction that wrote nothing has no `Begin` in the
    /// journal, so it gets no end either; its status is registered all the same.
    ///
    /// # Errors
    ///
    /// A bug for a transaction that already committed or rolled back, and when the journal has
    /// no number left.
    pub fn end_txn(&mut self, txn: TxnId, kind: WalRecordKind) -> (r: Result<
        Option<Lsn>,
        InternalError,
    >)
        requires
            old(self).wf(),
        ensures
            final(self).wf(),
            match r {
                Ok(lsn) => {
                    &&& !old(self)@.finished(txn)
                    &&& old(self)@.record(txn).began ==> !old(self)@.refuses(0)
                    &&& final(self)@ == old(self)@.ended(txn, kind)
                    &&& lsn == if old(self)@.record(txn).began {
                        Some(Lsn(final(self)@.log.len() as u64))
                    } else {
                        None
                    }
                },
                Err(e) => {
                    &&& final(self)@ == old(self)@.registered(txn)
                    &&& if old(self)@.finished(txn) {
                        e == old(self)@.finished_error(txn)
                    } else {
                        &&& old(self)@.record(txn).began && old(self)@.refuses(0)
                        &&& e == old(self)@.refusal(kind, 0)
                    }
                },
            },
    {
        let ghost before = self@;
        let mut record: TxnRecord = self.take_record(txn);
        let mut outcome: Result<Option<Lsn>, InternalError> = Ok(None);
        if record.status != TxnStatus::InProgress {
            outcome = Err(InternalError::Bug(Bug::FinishedTxn { txn, status: record.status }));
        } else {
            if record.began {
                let nothing: Vec<u8> = Vec::new();
                match self.wal.append_durable(kind, txn, nothing.as_slice()) {
                    Ok(lsn) => {
                        assert(nothing@ =~= Seq::<u8>::empty());
                        outcome = Ok(Some(lsn));
                    },
                    Err(e) => {
                        outcome = Err(e);
                    },
                }
            }
            if outcome.is_ok() {
                record.status = match kind {
                    WalRecordKind::Abort => TxnStatus::Aborted,
                    _ => TxnStatus::Committed,
                };
            }
        }
        let ghost last = record.deep_view();
        self.registry.txns.insert(txn.0, record);
        proof {
            assert(self@.txns =~= before.txns.insert(txn.0, last));
            match outcome {
                Ok(_) => {
                    assert(self@ =~= before.ended(txn, kind));
                },
                Err(_) => {
                    assert(self@ =~= before.registered(txn));
                },
            }
        }
        outcome
    }

    /// The tables `txn` wrote in, by increasing identifier.
    pub fn txn_tables(&self, txn: TxnId) -> (r: Vec<u64>)
        ensures
            increasing(r@),
            forall|t: u64| #[trigger] r@.contains(t) <==> self@.record(txn).tables.contains(t),
    {
        match self.registry.txns.get(txn.0) {
            Some(record) => record.tables.to_vec(),
            None => Vec::new(),
        }
    }

    /// Registers a list of transactions with `status`.
    fn settle(&mut self, txns: &Vec<TxnId>, status: TxnStatus)
        ensures
            final(self).wal == old(self).wal,
            final(self)@ == old(self)@.settled(txns@, status),
    {
        let ghost before = self@;
        assert(txns@.take(0) =~= Seq::<TxnId>::empty());
        for i in 0..txns.len()
            invariant
                self.wal == old(self).wal,
                self@ == before.settled(txns@.take(i as int), status),
        {
            let ghost now = self@;
            let txn: TxnId = txns[i];
            let mut record: TxnRecord = self.take_record(txn);
            record.status = status;
            let ghost last = record.deep_view();
            self.registry.txns.insert(txn.0, record);
            proof {
                let longer = txns@.take(i + 1);
                assert(longer.drop_last() =~= txns@.take(i as int));
                assert(self@.txns =~= now.txns.insert(txn.0, last));
                assert(self@ =~= before.settled(longer, status));
            }
        }
        assert(txns@.take(txns@.len() as int) =~= txns@);
    }

    /// Registers the outcome the recovery read in the journal: `winners` committed, `losers`
    /// aborted.
    pub fn register_recovered(&mut self, winners: &Vec<TxnId>, losers: &Vec<TxnId>)
        requires
            old(self).wf(),
        ensures
            final(self).wf(),
            final(self).wal == old(self).wal,
            final(self)@ == old(self)@.settled(winners@, TxnStatus::Committed).settled(
                losers@,
                TxnStatus::Aborted,
            ),
    {
        self.settle(winners, TxnStatus::Committed);
        self.settle(losers, TxnStatus::Aborted);
    }
}

/// The bytes a savepoint record carries.
fn savepoint_bytes(sp: SavepointId) -> (r: Vec<u8>)
    ensures
        r@ == savepoint_payload(sp),
{
    let mut out: Vec<u8> = Vec::new();
    put_u64(&mut out, sp.0);
    assert(out@ =~= savepoint_payload(sp));
    out
}

impl Journal {
    /// Takes the next savepoint identifier for `txn` and appends its record.
    ///
    /// # Errors
    ///
    /// A bug for a finished transaction, when the identifiers are exhausted, and when the journal
    /// has no number left, which takes the identifier all the same.
    pub fn take_savepoint(&mut self, txn: TxnId) -> (r: Result<SavepointId, InternalError>)
        requires
            old(self).wf(),
        ensures
            final(self).wf(),
            ({
                let j = old(self)@;
                if j.finished(txn) {
                    final(self)@ == j && r == Err::<SavepointId, InternalError>(
                        j.finished_error(txn),
                    )
                } else if j.savepoints_exhausted() {
                    final(self)@ == j && r == Err::<SavepointId, InternalError>(
                        InternalError::Bug(Bug::IdsExhausted(IdSpace::Savepoint)),
                    )
                } else if j.refuses(8) {
                    final(self)@ == j.savepoint_taken(txn) && r == Err::<
                        SavepointId,
                        InternalError,
                    >(j.refusal(WalRecordKind::Savepoint, 8))
                } else {
                    final(self)@ == j.savepoint_logged(txn) && r == Ok::<
                        SavepointId,
                        InternalError,
                    >(SavepointId(j.next_savepoint_id))
                }
            }),
    {
        let ghost j = self@;
        match self.check_writable(txn) {
            Ok(_) => {},
            Err(e) => {
                return Err(e);
            },
        }
        let id: SavepointId = SavepointId(self.registry.next_savepoint_id);
        let next: u64 = match id.0.checked_add(1) {
            Some(next) => next,
            None => {
                return Err(InternalError::Bug(Bug::IdsExhausted(IdSpace::Savepoint)));
            },
        };
        self.registry.next_savepoint_id = next;
        let record: TxnRecord = self.take_record(txn);
        let ghost last = record.deep_view();
        self.registry.txns.insert(txn.0, record);
        proof {
            assert(self@.txns =~= j.txns.insert(txn.0, last));
            assert(self@ =~= j.savepoint_taken(txn));
            lemma_le_len(id.0 as nat, 8);
        }
        let payload: Vec<u8> = savepoint_bytes(id);
        let ghost taken = self@;
        match self.wal.append(WalRecordKind::Savepoint, txn, payload.as_slice()) {
            Ok(_) => {
                assert(self@ =~= j.savepoint_logged(txn));
                Ok(id)
            },
            Err(e) => {
                assert(self@ =~= taken);
                Err(e)
            },
        }
    }

    /// Keeps a savepoint of `txn`.
    pub fn push_mark(&mut self, txn: TxnId, mark: Mark)
        requires
            old(self).wf(),
        ensures
            final(self).wf(),
            final(self)@ == old(self)@.with_mark(txn, mark.deep_view()),
    {
        let ghost j = self@;
        let mut record: TxnRecord = self.take_record(txn);
        let ghost marks = record.savepoints.deep_view();
        let ghost added = mark.deep_view();
        record.savepoints.push(mark);
        assert(record.savepoints.deep_view() =~= marks.push(added));
        let ghost last = record.deep_view();
        self.registry.txns.insert(txn.0, record);
        proof {
            assert(self@.txns =~= j.txns.insert(txn.0, last));
            assert(self@ =~= j.with_mark(txn, added));
        }
    }

    /// The position of the savepoint `sp` among those of `txn`.
    ///
    /// # Errors
    ///
    /// A bug for a transaction the register does not know, one that ended, and a savepoint that is
    /// unknown, invalidated or not its own.
    pub fn find_savepoint(&self, txn: TxnId, sp: SavepointId) -> (r: Result<usize, InternalError>)
        ensures
            match r {
                Ok(i) => {
                    &&& self@.txns.contains_key(txn.0)
                    &&& !self@.finished(txn)
                    &&& self@.savepoint_at(txn, sp, i as int)
                },
                Err(e) => self@.savepoint_error(txn, sp, e),
            },
    {
        let record: &TxnRecord = match self.registry.txns.get(txn.0) {
            Some(record) => record,
            None => {
                return Err(
                    InternalError::Bug(Bug::SavepointOfUnknownTxn { txn, savepoint: sp }),
                );
            },
        };
        if record.status != TxnStatus::InProgress {
            return Err(InternalError::Bug(Bug::FinishedTxn { txn, status: record.status }));
        }
        for i in 0..record.savepoints.len()
            invariant
                record.deep_view() == self@.record(txn),
                self@.txns.contains_key(txn.0),
                !self@.finished(txn),
                forall|k: int| 0 <= k < i ==> (#[trigger] self@.record(txn).savepoints[k]).id != sp,
        {
            assert(self@.record(txn).savepoints[i as int]
                == record.savepoints@[i as int].deep_view());
            if record.savepoints[i].id == sp {
                return Ok(i);
            }
        }
        Err(InternalError::Bug(Bug::UnknownSavepoint { txn, savepoint: sp }))
    }

    /// The number of writes the `i`-th savepoint of `txn` noted in a table, 0 in one it did not
    /// name.
    pub fn mark_of(&self, txn: TxnId, i: usize, table: u64) -> (r: usize)
        requires
            self@.txns.contains_key(txn.0),
            i < self@.record(txn).savepoints.len(),
        ensures
            r as nat == mark_in(self@.record(txn).savepoints[i as int], table),
    {
        match self.registry.txns.get(txn.0) {
            Some(record) => {
                assert(record.savepoints.deep_view()[i as int]
                    == record.savepoints@[i as int].deep_view());
                match record.savepoints[i].writes.get(table) {
                    Some(n) => *n,
                    None => 0,
                }
            },
            None => 0,
        }
    }

    /// Appends the record of a rollback to `sp`, durable when this returns.
    ///
    /// # Errors
    ///
    /// A bug when the journal has no number left.
    pub fn log_rollback_to(&mut self, txn: TxnId, sp: SavepointId) -> (r: Result<(), InternalError>)
        requires
            old(self).wf(),
        ensures
            final(self).wf(),
            match r {
                Ok(_) => !old(self)@.refuses(8) && final(self)@ == old(self)@.rollback_logged(
                    txn,
                    sp,
                ),
                Err(e) => {
                    &&& old(self)@.refuses(8)
                    &&& final(self)@ == old(self)@
                    &&& e == old(self)@.refusal(WalRecordKind::RollbackTo, 8)
                },
            },
    {
        let ghost j = self@;
        let payload: Vec<u8> = savepoint_bytes(sp);
        proof {
            lemma_le_len(sp.0 as nat, 8);
        }
        match self.wal.append_durable(WalRecordKind::RollbackTo, txn, payload.as_slice()) {
            Ok(_) => {
                assert(self@ =~= j.rollback_logged(txn, sp));
                Ok(())
            },
            Err(e) => Err(e),
        }
    }

    /// Forgets the savepoints of `txn` after the `i`-th.
    pub fn cut_marks(&mut self, txn: TxnId, i: usize)
        requires
            old(self).wf(),
            i < old(self)@.record(txn).savepoints.len(),
        ensures
            final(self).wf(),
            final(self)@ == old(self)@.marks_cut(txn, i as int),
    {
        let ghost j = self@;
        let mut record: TxnRecord = self.take_record(txn);
        let ghost marks = record.savepoints.deep_view();
        let held: usize = record.savepoints.len();
        assert(marks.len() == held);
        record.savepoints.truncate(i + 1);
        assert(record.savepoints.deep_view() =~= marks.take(i + 1));
        let ghost last = record.deep_view();
        self.registry.txns.insert(txn.0, record);
        proof {
            assert(self@.txns =~= j.txns.insert(txn.0, last));
            assert(self@ =~= j.marks_cut(txn, i as int));
        }
    }
}

impl JournalModel {
    /// The error of a savepoint that cannot be rolled back to.
    pub open spec fn savepoint_error(self, txn: TxnId, sp: SavepointId, e: InternalError) -> bool {
        if !self.txns.contains_key(txn.0) {
            e == InternalError::Bug(Bug::SavepointOfUnknownTxn { txn, savepoint: sp })
        } else if self.finished(txn) {
            e == self.finished_error(txn)
        } else {
            &&& e == InternalError::Bug(Bug::UnknownSavepoint { txn, savepoint: sp })
            &&& forall|k: int|
                0 <= k < self.record(txn).savepoints.len() ==> (#[trigger] self.record(
                    txn,
                ).savepoints[k]).id != sp
        }
    }
}

/// The number of writes a savepoint noted in a table: none in a table it did not name.
pub open spec fn mark_in(mark: MarkModel, table: u64) -> nat {
    if mark.writes.contains_key(table) {
        mark.writes[table] as nat
    } else {
        0
    }
}

} // verus!
