//! The life of a transaction on an instance: its end, its savepoints, and the checkpoint.
//!
//! One record ends a transaction, whatever the number of tables it wrote in; then each of those
//! tables drops its undo log or replays it backwards.

use vstd::prelude::*;

use super::heap_table::lemma_parts;
use super::journal::{end_status, mark_in, Mark, MarkModel};
use super::page::Lsn;
use super::shapes::{index_shape_ok, shape_ok};
use super::control::Control;
use super::storage::{DiskModel, DiskStorage, DiskTable};
use super::table_model::{lemma_undo_keeps, HeapTableModel, IndexChange};
use super::wal::{CheckpointPayload, WalRecordKind};
use crate::error::{bug, Bug, IdSpace, InternalError, SqlError, SqlResult};
use crate::ids::{SavepointId, TxnId};
use crate::ordmap::{increasing, OrdMap};
use crate::snapshot::TxnStatus;

verus! {

impl HeapTableModel {
    /// The table once the end of `txn` was applied to it.
    pub open spec fn finished(self, txn: TxnId, status: TxnStatus) -> HeapTableModel {
        let cut = self.cut(txn, 0);
        if status == TxnStatus::Aborted {
            cut.all_undone(txn, self.writes_of(txn)).drained()
        } else {
            cut.drained()
        }
    }

    /// Why the end of `txn` cannot be applied, if it cannot.
    pub open spec fn finish_fault(self, txn: TxnId, status: TxnStatus) -> Option<InternalError> {
        if status == TxnStatus::Aborted {
            self.cut(txn, 0).stuck(txn, self.writes_of(txn))
        } else {
            None
        }
    }

    /// The table once the writes of `txn` from `mark` on were undone.
    pub open spec fn rolled_to(self, txn: TxnId, mark: nat) -> HeapTableModel {
        self.cut(txn, mark).all_undone(txn, self.writes_after(txn, mark)).drained()
    }

    /// Why the writes of `txn` from `mark` on cannot be undone, if they cannot.
    pub open spec fn roll_fault(self, txn: TxnId, mark: nat) -> Option<InternalError> {
        self.cut(txn, mark).stuck(txn, self.writes_after(txn, mark))
    }
}

impl DiskModel {
    /// Whether `after` has the same catalogue and counters, whatever the rows and the journal.
    pub open spec fn same_catalogue(self, after: DiskModel) -> bool {
        &&& after.control == self.control
        &&& after.first_row == self.first_row
        &&& after.first_seq == self.first_seq
        &&& after.databases == self.databases
        &&& after.indexes == self.indexes
        &&& after.tables.dom() == self.tables.dom()
        &&& forall|t: u64| #[trigger]
            self.tables.contains_key(t) ==> {
                &&& after.tables[t].db == self.tables[t].db
                &&& after.tables[t].first_page == self.tables[t].first_page
                &&& after.tables[t].store.shape == self.tables[t].store.shape
                &&& after.tables[t].store.table == self.tables[t].store.table
            }
    }

    /// Whether `list` names the tables `txn` wrote in, by increasing identifier.
    pub open spec fn wrote_in(self, txn: TxnId, list: Seq<u64>) -> bool {
        increasing(list) && forall|t: u64| #[trigger]
            list.contains(t) <==> self.journal.record(txn).tables.contains(t)
    }

    /// Whether `after` is this instance with `step` applied to the first `n` tables of `list`, none
    /// of which is missing or at fault.
    pub open spec fn walks(self, after: DiskModel, list: Seq<u64>, n: int, step: Step) -> bool {
        &&& self.same_catalogue(after)
        &&& self.stepped(after, list.take(n), step)
        &&& forall|i: int|
            0 <= i < n ==> self.tables.contains_key(#[trigger] list[i]) && step.fault(
                list[i],
                self.tables[list[i]].store.model(),
            ) is None
    }

    /// Whether `after` has the rows of this instance, with `step` applied to the tables of
    /// `done`.
    pub open spec fn stepped(self, after: DiskModel, done: Seq<u64>, step: Step) -> bool {
        forall|t: u64| #[trigger]
            self.tables.contains_key(t) ==> after.tables[t].store.model() == if done.contains(t) {
                step.apply(t, self.tables[t].store.model())
            } else {
                self.tables[t].store.model()
            }
    }

    /// Whether a walk of `list` stops at its `n`-th table: it was dropped, or `step` fails in it.
    pub open spec fn stops(
        self,
        after: DiskModel,
        list: Seq<u64>,
        n: int,
        step: Step,
        e: SqlError,
    ) -> bool {
        &&& 0 <= n < list.len()
        &&& self.same_catalogue(after)
        &&& self.stepped(after, list.take(n + 1), step)
        &&& forall|i: int|
            0 <= i < n ==> self.tables.contains_key(#[trigger] list[i]) && step.fault(
                list[i],
                self.tables[list[i]].store.model(),
            ) is None
        &&& self.step_error(list[n], step, e)
    }

    /// The error of a table a walk stops at.
    pub open spec fn step_error(self, table: u64, step: Step, e: SqlError) -> bool {
        if !self.tables.contains_key(table) {
            e.is_bug(Bug::NotInInstance(IdSpace::Table, table as u32))
        } else {
            step.fault(table, self.tables[table].store.model()) matches Some(fault) && e
                == SqlError::Internal(fault)
        }
    }
}

/// What is done to each table a transaction wrote in.
pub enum Step {
    /// Its end.
    End(TxnId, TxnStatus),
    /// The rollback to a savepoint.
    RollTo(TxnId, MarkModel),
}

impl Step {
    /// What the step leaves of a table.
    pub open spec fn apply(self, table: u64, t: HeapTableModel) -> HeapTableModel {
        match self {
            Step::End(txn, status) => t.finished(txn, status),
            Step::RollTo(txn, mark) => t.rolled_to(txn, mark_in(mark, table)),
        }
    }

    /// Why the step fails in a table, if it does.
    pub open spec fn fault(self, table: u64, t: HeapTableModel) -> Option<InternalError> {
        match self {
            Step::End(txn, status) => t.finish_fault(txn, status),
            Step::RollTo(txn, mark) => t.roll_fault(txn, mark_in(mark, table)),
        }
    }
}

/// An instance with other rows and the same catalogue is consistent.
pub proof fn lemma_same_catalogue_wf(m: DiskModel, n: DiskModel)
    requires
        m.wf(),
        m.same_catalogue(n),
        forall|t: u64| #[trigger] n.tables.contains_key(t) ==> n.tables[t].store.wf(),
    ensures
        n.wf(),
{
    assert forall|t: u64| #[trigger] n.tables.contains_key(t) implies {
        &&& n.tables[t].store.wf()
        &&& n.tables[t].store.table.0 as u64 == t
        &&& t < n.control.next_table_id
        &&& shape_ok(n.tables[t].store.shape)
    } by {
        assert(m.tables.dom().contains(t));
        assert(m.tables.contains_key(t));
    }
    assert forall|x: u64| #[trigger] n.indexes.contains_key(x) implies {
        let e = n.indexes[x];
        &&& e.index.0 as u64 == x
        &&& n.has_table(e.table)
        &&& index_shape_ok(e.shape, n.shape_of(e.table).columns.len())
        &&& x < n.control.next_index_id
    } by {
        assert(m.indexes.contains_key(x));
        assert(m.tables.contains_key(m.indexes[x].table.0 as u64));
        assert(n.tables.dom().contains(m.indexes[x].table.0 as u64));
    }
}

/// What one more table of an increasing list adds.
pub proof fn lemma_take_more(list: Seq<u64>, n: int)
    requires
        0 <= n < list.len(),
        increasing(list),
    ensures
        forall|t: u64| #[trigger]
            list.take(n + 1).contains(t) <==> list.take(n).contains(t) || t == list[n],
        !list.take(n).contains(list[n]),
{
    let a = list.take(n);
    let b = list.take(n + 1);
    assert forall|t: u64| #[trigger] b.contains(t) <==> a.contains(t) || t == list[n] by {
        if a.contains(t) {
            let i = choose|i: int| 0 <= i < a.len() && a[i] == t;
            assert(b[i] == t);
        }
        if b.contains(t) {
            let i = choose|i: int| 0 <= i < b.len() && b[i] == t;
            if i < n {
                assert(a[i] == t);
            }
        }
        assert(b[n] == list[n]);
    }
    if a.contains(list[n]) {
        let i = choose|i: int| 0 <= i < a.len() && a[i] == list[n];
        assert(list[i] < list[n]);
    }
}

/// Whether `after` is `before` with `step` applied to one table.
spec fn takes_step(before: DiskModel, after: DiskModel, table: u64, step: Step) -> bool {
    &&& before.same_catalogue(after)
    &&& after.journal == before.journal
    &&& forall|t: u64|
        t != table && #[trigger] before.tables.contains_key(t) ==> after.tables[t]
            == before.tables[t]
    &&& before.tables.contains_key(table) ==> after.tables[table].store.model() == step.apply(
        table,
        before.tables[table].store.model(),
    )
}

/// A walk goes one table further, or stops there.
proof fn lemma_walks_on(
    m: DiskModel,
    before: DiskModel,
    after: DiskModel,
    list: Seq<u64>,
    n: int,
    step: Step,
)
    requires
        0 <= n < list.len(),
        increasing(list),
        m.walks(before, list, n, step),
        takes_step(before, after, list[n], step),
    ensures
        m.same_catalogue(after),
        m.stepped(after, list.take(n + 1), step),
        m.tables.contains_key(list[n]) == before.tables.contains_key(list[n]),
        m.tables.contains_key(list[n]) ==> before.tables[list[n]].store.model()
            == m.tables[list[n]].store.model(),
{
    lemma_take_more(list, n);
    assert(m.tables.dom().contains(list[n]) <==> before.tables.dom().contains(list[n]));
    assert forall|t: u64| #[trigger] m.tables.contains_key(t) implies before.tables.contains_key(
        t,
    ) by {
        assert(before.tables.dom().contains(t));
    }
    assert(m.same_catalogue(after));
    assert(m.stepped(after, list.take(n + 1), step)) by {
        assert forall|t: u64| #[trigger] m.tables.contains_key(t) implies
            after.tables[t].store.model() == if list.take(n + 1).contains(t) {
            step.apply(t, m.tables[t].store.model())
        } else {
            m.tables[t].store.model()
        } by {
            assert(before.tables.contains_key(t));
        }
    }
}

impl DiskStorage {
    /// Applies the end of `txn` to one table.
    fn finish_table(&mut self, table: u64, txn: TxnId, status: TxnStatus) -> (r: SqlResult<()>)
        requires
            forall|t: u64| #[trigger]
                old(self)@.tables.contains_key(t) ==> old(self)@.tables[t].store.wf(),
        ensures
            final(self).options == old(self).options,
            final(self).recovery == old(self).recovery,
            final(self).journal == old(self).journal,
            forall|t: u64| #[trigger]
                final(self)@.tables.contains_key(t) ==> final(self)@.tables[t].store.wf(),
            takes_step(old(self)@, final(self)@, table, Step::End(txn, status)),
            match r {
                Ok(_) => old(self)@.tables.contains_key(table) && Step::End(txn, status).fault(
                    table,
                    old(self)@.tables[table].store.model(),
                ) is None,
                Err(e) => old(self)@.step_error(table, Step::End(txn, status), e),
            },
    {
        let ghost before = self@;
        let mut held: DiskTable = match self.tables.remove(table) {
            Some(held) => held,
            None => {
                assert(self@ =~= before);
                return bug(Bug::NotInInstance(IdSpace::Table, table as u32));
            },
        };
        proof {
            lemma_parts(held.store);
        }
        let ghost first = held.store@;
        let done = held.store.finish(txn, status);
        // An index reads the versions themselves: no entry is to be maintained.
        let _changes: Vec<IndexChange> = held.store.take_index_changes();
        proof {
            lemma_parts(held.store);
            lemma_undo_keeps(first.cut(txn, 0), txn, first.writes_of(txn));
        }
        let ghost parts = held.deep_view();
        self.tables.insert(table, held);
        proof {
            assert(self@.tables =~= before.tables.insert(table, parts));
            assert(self@.tables.dom() =~= before.tables.dom());
            assert forall|t: u64| #[trigger] self@.tables.contains_key(t) implies
                self@.tables[t].store.wf() by {
                if t != table {
                    assert(before.tables.contains_key(t));
                }
            }
        }
        match done {
            Ok(_) => Ok(()),
            Err(e) => Err(SqlError::Internal(e)),
        }
    }
}

impl DiskStorage {
    /// Ends `txn` with `kind` and applies that end to each table it wrote in, by increasing
    /// identifier.
    ///
    /// # Errors
    ///
    /// A bug for a transaction that already ended and when the journal has no number left; a bug
    /// for a table that was dropped since, a corruption for a write that cannot be undone: the
    /// tables that come before it are done.
    fn end_transaction(&mut self, txn: TxnId, kind: WalRecordKind) -> (r: SqlResult<()>)
        requires
            old(self).wf(),
        ensures
            final(self).options == old(self).options,
            final(self).recovery == old(self).recovery,
            final(self).wf(),
            old(self)@.end_result(final(self)@, txn, kind, r),
    {
        let ghost m = self@;
        let status: TxnStatus = match kind {
            WalRecordKind::Abort => TxnStatus::Aborted,
            _ => TxnStatus::Committed,
        };
        match self.journal.end_txn(txn, kind) {
            Ok(_) => {},
            Err(e) => {
                assert(self@ =~= (DiskModel { journal: m.journal.registered(txn), ..m }));
                return Err(SqlError::Internal(e));
            },
        }
        let list: Vec<u64> = self.journal.txn_tables(txn);
        let ghost ended = m.journal.ended(txn, kind);
        assert(ended.record(txn).tables == m.journal.record(txn).tables);
        assert(m.wrote_in(txn, list@));
        for n in 0..list.len()
            invariant
                self.options == old(self).options,
                self.recovery == old(self).recovery,
                self.journal.wf(),
                m.wf(),
                self@.journal == ended,
                ended == m.journal.ended(txn, kind),
                increasing(list@),
                m.wrote_in(txn, list@),
                status == end_status(kind),
                m == old(self)@,
                !m.journal.finished(txn),
                m.journal.record(txn).began ==> !m.journal.refuses(0),
                m.walks(self@, list@, n as int, Step::End(txn, status)),
                forall|t: u64| #[trigger]
                    self@.tables.contains_key(t) ==> self@.tables[t].store.wf(),
        {
            let table: u64 = list[n];
            let ghost before = self@;
            proof {
                lemma_take_more(list@, n as int);
                assert(m.tables.dom().contains(table) <==> before.tables.dom().contains(table));
            }
            let done = self.finish_table(table, txn, status);
            proof {
                lemma_walks_on(m, before, self@, list@, n as int, Step::End(txn, status));
            }
            match done {
                Ok(_) => {},
                Err(e) => {
                    proof {
                        assert(m.stops(self@, list@, n as int, Step::End(txn, status), e));
                        lemma_same_catalogue_wf(m, self@);
                    }
                    return Err(e);
                },
            }
        }
        proof {
            lemma_same_catalogue_wf(m, self@);
        }
        Ok(())
    }

    /// Ends `txn`: its writes stay, and its records are durable when this returns. A transaction
    /// that wrote nothing is committed without a record.
    ///
    /// # Errors
    ///
    /// Those of the end of a transaction.
    pub fn commit(&mut self, txn: TxnId) -> (r: SqlResult<()>)
        requires
            old(self).wf(),
        ensures
            final(self).wf(),
            final(self).options == old(self).options,
            final(self).recovery == old(self).recovery,
            old(self)@.end_result(final(self)@, txn, WalRecordKind::Commit, r),
    {
        self.end_transaction(txn, WalRecordKind::Commit)
    }

    /// Ends `txn`: its writes are taken back, the last one first, in each table it wrote in.
    ///
    /// # Errors
    ///
    /// Those of the end of a transaction.
    pub fn rollback(&mut self, txn: TxnId) -> (r: SqlResult<()>)
        requires
            old(self).wf(),
        ensures
            final(self).wf(),
            final(self).options == old(self).options,
            final(self).recovery == old(self).recovery,
            old(self)@.end_result(final(self)@, txn, WalRecordKind::Abort, r),
    {
        self.end_transaction(txn, WalRecordKind::Abort)
    }
}

impl DiskModel {
    /// Whether `after` and `r` are what ending `txn` with `kind` leaves and answers.
    pub open spec fn end_result(
        self,
        after: DiskModel,
        txn: TxnId,
        kind: WalRecordKind,
        r: SqlResult<()>,
    ) -> bool {
        let j = self.journal;
        let status = end_status(kind);
        if j.finished(txn) {
            &&& after == (DiskModel { journal: j.registered(txn), ..self })
            &&& r == Err::<(), SqlError>(SqlError::Internal(j.finished_error(txn)))
        } else if j.record(txn).began && j.refuses(0) {
            &&& after == (DiskModel { journal: j.registered(txn), ..self })
            &&& r == Err::<(), SqlError>(SqlError::Internal(j.refusal(kind, 0)))
        } else {
            &&& after.journal == j.ended(txn, kind)
            &&& exists|list: Seq<u64>| #[trigger]
                self.wrote_in(txn, list) && match r {
                    Ok(_) => self.walks(
                        after,
                        list,
                        list.len() as int,
                        Step::End(txn, status),
                    ),
                    Err(e) => exists|n: int| #[trigger]
                        self.stops(after, list, n, Step::End(txn, status), e),
                }
        }
    }
}

impl DiskModel {
    /// Whether `marks` holds, for each table of `list`, the number of writes of `txn` in it.
    pub open spec fn marks_now(self, txn: TxnId, list: Seq<u64>, marks: Map<u64, usize>) -> bool {
        &&& forall|t: u64| #[trigger] marks.contains_key(t) <==> list.contains(t)
        &&& forall|t: u64| #[trigger]
            marks.contains_key(t) ==> self.tables.contains_key(t) && marks[t]
                == self.tables[t].store.model().writes_of(txn).len()
    }
}

impl DiskStorage {
    /// Takes a savepoint of `txn`: notes the number of its writes in each table it wrote in, and
    /// answers the fresh identifier.
    ///
    /// # Errors
    ///
    /// A bug for a finished transaction, when the identifiers are exhausted, when the journal has
    /// no number left, and for a table that was dropped since; the identifier is taken by the two
    /// last ones.
    pub fn savepoint(&mut self, txn: TxnId) -> (r: SqlResult<SavepointId>)
        requires
            old(self).wf(),
        ensures
            final(self).wf(),
            final(self).options == old(self).options,
            final(self).recovery == old(self).recovery,
            ({
                let m = old(self)@;
                let n = final(self)@;
                let j = m.journal;
                let id = SavepointId(j.next_savepoint_id);
                if j.finished(txn) {
                    n == m && r == Err::<SavepointId, SqlError>(
                        SqlError::Internal(j.finished_error(txn)),
                    )
                } else if j.savepoints_exhausted() {
                    n == m && (r matches Err(e) && e.is_bug(
                        Bug::IdsExhausted(IdSpace::Savepoint),
                    ))
                } else if j.refuses(8) {
                    &&& n == (DiskModel { journal: j.savepoint_taken(txn), ..m })
                    &&& r == Err::<SavepointId, SqlError>(
                        SqlError::Internal(j.refusal(WalRecordKind::Savepoint, 8)),
                    )
                } else {
                    exists|list: Seq<u64>| #[trigger]
                        m.wrote_in(txn, list) && match r {
                            Ok(sp) => sp == id && exists|marks: Map<u64, usize>| #[trigger]
                                m.marks_now(txn, list, marks) && n == (DiskModel {
                                    journal: j.savepoint_logged(txn).with_mark(
                                        txn,
                                        MarkModel { id, writes: marks },
                                    ),
                                    ..m
                                }),
                            Err(e) => {
                                &&& n == (DiskModel { journal: j.savepoint_logged(txn), ..m })
                                &&& exists|i: int|
                                    {
                                        &&& 0 <= i < list.len()
                                        &&& !m.tables.contains_key(#[trigger] list[i])
                                        &&& e.is_bug(Bug::NotInInstance(IdSpace::Table, list[i] as u32))
                                        &&& forall|k: int|
                                            0 <= k < i ==> m.tables.contains_key(#[trigger] list[k])
                                    }
                            },
                        }
                }
            }),
    {
        let ghost m = self@;
        let ghost j = m.journal;
        let id: SavepointId = match self.journal.take_savepoint(txn) {
            Ok(id) => id,
            Err(e) => {
                assert(self@ =~= (DiskModel { journal: self@.journal, ..m }));
                return Err(SqlError::Internal(e));
            },
        };
        let list: Vec<u64> = self.journal.txn_tables(txn);
        assert(j.savepoint_logged(txn).record(txn).tables == j.record(txn).tables);
        assert(m.wrote_in(txn, list@));
        assert(self@ =~= (DiskModel { journal: j.savepoint_logged(txn), ..m }));
        let mut marks: OrdMap<usize> = OrdMap::new();
        for i in 0..list.len()
            invariant
                self.options == old(self).options,
                self.recovery == old(self).recovery,
                m == old(self)@,
                j == m.journal,
                !j.finished(txn),
                !j.savepoints_exhausted(),
                !j.refuses(8),
                self.wf(),
                m.wrote_in(txn, list@),
                self@ == (DiskModel { journal: j.savepoint_logged(txn), ..m }),
                m.marks_now(txn, list@.take(i as int), marks@),
                forall|k: int| 0 <= k < i ==> m.tables.contains_key(#[trigger] list@[k]),
        {
            let table: u64 = list[i];
            proof {
                lemma_take_more(list@, i as int);
            }
            match self.tables.get(table) {
                Some(held) => {
                    proof {
                        lemma_parts(held.store);
                    }
                    let ghost before = marks@;
                    marks.insert(table, held.store.writes_len(txn));
                    assert(marks@ == before.insert(table, marks@[table]));
                },
                None => {
                    assert(!m.tables.contains_key(list@[i as int]));
                    return bug(Bug::NotInInstance(IdSpace::Table, table as u32));
                },
            }
        }
        assert(list@.take(list@.len() as int) =~= list@);
        let mark = Mark { id, writes: marks };
        let ghost noted = mark.deep_view();
        self.journal.push_mark(txn, mark);
        proof {
            assert(m.marks_now(txn, list@, noted.writes));
            assert(self@ =~= (DiskModel {
                journal: j.savepoint_logged(txn).with_mark(txn, noted),
                ..m
            }));
        }
        Ok(id)
    }

    /// Undoes the writes of `txn` after a savepoint in one table.
    fn roll_table(&mut self, table: u64, txn: TxnId, at: usize, mark: Ghost<MarkModel>) -> (r:
        SqlResult<()>)
        requires
            forall|t: u64| #[trigger]
                old(self)@.tables.contains_key(t) ==> old(self)@.tables[t].store.wf(),
            at as nat == mark_in(mark@, table),
        ensures
            final(self).options == old(self).options,
            final(self).recovery == old(self).recovery,
            final(self).journal == old(self).journal,
            forall|t: u64| #[trigger]
                final(self)@.tables.contains_key(t) ==> final(self)@.tables[t].store.wf(),
            takes_step(old(self)@, final(self)@, table, Step::RollTo(txn, mark@)),
            match r {
                Ok(_) => old(self)@.tables.contains_key(table) && Step::RollTo(txn, mark@).fault(
                    table,
                    old(self)@.tables[table].store.model(),
                ) is None,
                Err(e) => old(self)@.step_error(table, Step::RollTo(txn, mark@), e),
            },
    {
        let ghost before = self@;
        let mut held: DiskTable = match self.tables.remove(table) {
            Some(held) => held,
            None => {
                assert(self@ =~= before);
                return bug(Bug::NotInInstance(IdSpace::Table, table as u32));
            },
        };
        proof {
            lemma_parts(held.store);
        }
        let ghost first = held.store@;
        let done = held.store.rollback_to_savepoint(txn, at);
        // An index reads the versions themselves: no entry is to be maintained.
        let _changes: Vec<IndexChange> = held.store.take_index_changes();
        proof {
            lemma_parts(held.store);
            lemma_undo_keeps(
                first.cut(txn, at as nat),
                txn,
                first.writes_after(txn, at as nat),
            );
        }
        let ghost parts = held.deep_view();
        self.tables.insert(table, held);
        proof {
            assert(self@.tables =~= before.tables.insert(table, parts));
            assert(self@.tables.dom() =~= before.tables.dom());
            assert forall|t: u64| #[trigger] self@.tables.contains_key(t) implies
                self@.tables[t].store.wf() by {
                if t != table {
                    assert(before.tables.contains_key(t));
                }
            }
        }
        match done {
            Ok(_) => Ok(()),
            Err(e) => Err(SqlError::Internal(e)),
        }
    }

    /// Undoes the writes of `txn` after the savepoint `sp`, in each table it wrote in; a table the
    /// savepoint did not name has its whole undo log replayed. The savepoint stays, the later ones
    /// are forgotten. The record goes first: the recovery reads it to leave the undone writes out.
    ///
    /// # Errors
    ///
    /// A bug for an unknown savepoint, a finished or unknown transaction, when the journal has no
    /// number left; a bug for a table that was dropped since, a corruption for a write that cannot
    /// be undone.
    pub fn rollback_to(&mut self, txn: TxnId, sp: SavepointId) -> (r: SqlResult<()>)
        requires
            old(self).wf(),
        ensures
            final(self).wf(),
            final(self).options == old(self).options,
            final(self).recovery == old(self).recovery,
            old(self)@.rollback_result(final(self)@, txn, sp, r),
    {
        let ghost m = self@;
        let ghost j = m.journal;
        let pos: usize = match self.journal.find_savepoint(txn, sp) {
            Ok(pos) => pos,
            Err(e) => {
                return Err(SqlError::Internal(e));
            },
        };
        let ghost mark = j.record(txn).savepoints[pos as int];
        match self.journal.log_rollback_to(txn, sp) {
            Ok(_) => {},
            Err(e) => {
                assert(self@ =~= m);
                return Err(SqlError::Internal(e));
            },
        }
        let ghost logged = j.rollback_logged(txn, sp);
        let list: Vec<u64> = self.journal.txn_tables(txn);
        assert(logged.record(txn) == j.record(txn));
        assert(m.wrote_in(txn, list@));
        for n in 0..list.len()
            invariant
                self.options == old(self).options,
                self.recovery == old(self).recovery,
                m == old(self)@,
                j == m.journal,
                logged == j.rollback_logged(txn, sp),
                logged.record(txn) == j.record(txn),
                logged.txns == j.txns,
                j.txns.contains_key(txn.0),
                !j.finished(txn),
                j.savepoint_at(txn, sp, pos as int),
                !j.refuses(8),
                mark == j.record(txn).savepoints[pos as int],
                self.journal.wf(),
                m.wf(),
                self@.journal == logged,
                m.wrote_in(txn, list@),
                m.walks(self@, list@, n as int, Step::RollTo(txn, mark)),
                forall|t: u64| #[trigger]
                    self@.tables.contains_key(t) ==> self@.tables[t].store.wf(),
        {
            let table: u64 = list[n];
            let ghost before = self@;
            let at: usize = self.journal.mark_of(txn, pos, table);
            let done = self.roll_table(table, txn, at, Ghost(mark));
            proof {
                lemma_walks_on(m, before, self@, list@, n as int, Step::RollTo(txn, mark));
            }
            match done {
                Ok(_) => {},
                Err(e) => {
                    proof {
                        assert(m.stops(self@, list@, n as int, Step::RollTo(txn, mark), e));
                        lemma_same_catalogue_wf(m, self@);
                        assert(m.rolled_result(self@, txn, sp, pos as int, Err(e)));
                    }
                    return Err(e);
                },
            }
        }
        let ghost walked = self@;
        self.journal.cut_marks(txn, pos);
        proof {
            assert(m.same_catalogue(self@));
            assert(m.walks(self@, list@, list@.len() as int, Step::RollTo(txn, mark)));
            lemma_same_catalogue_wf(m, self@);
            assert(m.rolled_result(self@, txn, sp, pos as int, Ok(())));
        }
        Ok(())
    }

    /// Makes durable what is committed: a `Checkpoint` record reaches the journal, carrying its own
    /// number and the two counters of the control block, and its number reaches the control block.
    /// What the data file holds by then is what [`DiskStorage::flushed`] gave before the record.
    ///
    /// # Errors
    ///
    /// A bug when the journal has no number left.
    pub fn checkpoint(&mut self) -> (r: SqlResult<()>)
        requires
            old(self).wf(),
        ensures
            final(self).wf(),
            final(self).options == old(self).options,
            final(self).recovery == old(self).recovery,
            ({
                let m = old(self)@;
                let lsn = Lsn((m.journal.log.len() + 1) as u64);
                let payload = CheckpointPayload {
                    redo_lsn: lsn,
                    next_page_id: m.control.next_page_id,
                    next_row_id: m.control.next_row_id,
                };
                match r {
                    Ok(_) => {
                        &&& m.journal.log.len() < u64::MAX
                        &&& final(self)@ == (DiskModel {
                            control: Control {
                                latest_checkpoint_lsn: lsn,
                                durable_lsn: lsn,
                                ..m.control
                            },
                            ..m.recorded(WalRecordKind::Checkpoint, payload.encoded())
                        })
                    },
                    Err(e) => {
                        &&& m.journal.log.len() == u64::MAX
                        &&& final(self)@ == m
                        &&& e.is_bug(Bug::LsnsExhausted)
                    },
                }
            }),
    {
        let ghost m = self@;
        let lsn: Lsn = match self.journal.wal.append_checkpoint(
            self.control.next_page_id,
            self.control.next_row_id,
        ) {
            Ok(lsn) => lsn,
            Err(e) => {
                assert(self@ =~= m);
                return Err(SqlError::Internal(e));
            },
        };
        self.journal.wal.flush();
        self.control.latest_checkpoint_lsn = lsn;
        self.control.durable_lsn = lsn;
        proof {
            let payload = CheckpointPayload {
                redo_lsn: lsn,
                next_page_id: m.control.next_page_id,
                next_row_id: m.control.next_row_id,
            };
            assert(self@.journal =~= m.journal.logged(
                WalRecordKind::Checkpoint,
                TxnId(0),
                payload.encoded(),
            ).flushed());
            assert(self@ =~= (DiskModel {
                control: Control { latest_checkpoint_lsn: lsn, durable_lsn: lsn, ..m.control },
                ..m.recorded(WalRecordKind::Checkpoint, payload.encoded())
            }));
            lemma_counters_wf(m, self@);
        }
        Ok(())
    }
}

/// An instance whose other counters moved is consistent.
proof fn lemma_counters_wf(m: DiskModel, n: DiskModel)
    requires
        m.wf(),
        n.databases == m.databases,
        n.tables == m.tables,
        n.indexes == m.indexes,
        n.control.next_db_id == m.control.next_db_id,
        n.control.next_table_id == m.control.next_table_id,
        n.control.next_index_id == m.control.next_index_id,
    ensures
        n.wf(),
{
    assert forall|x: u64| #[trigger] n.indexes.contains_key(x) implies {
        let e = n.indexes[x];
        &&& e.index.0 as u64 == x
        &&& n.has_table(e.table)
        &&& index_shape_ok(e.shape, n.shape_of(e.table).columns.len())
        &&& x < n.control.next_index_id
    } by {
        assert(m.indexes.contains_key(x));
    }
    assert forall|t: u64| #[trigger] n.tables.contains_key(t) implies m.tables.contains_key(t) by {}
    assert forall|d: u64| #[trigger] n.databases.contains_key(d) implies m.databases.contains_key(
        d,
    ) by {}
}

impl DiskModel {
    /// Whether `after` and `r` are what the rollback of `txn` to its savepoint `sp` leaves and
    /// answers.
    pub open spec fn rollback_result(
        self,
        after: DiskModel,
        txn: TxnId,
        sp: SavepointId,
        r: SqlResult<()>,
    ) -> bool {
        let j = self.journal;
        ||| {
            &&& after == self
            &&& r matches Err(SqlError::Internal(e))
            &&& j.savepoint_error(txn, sp, e)
        }
        ||| exists|i: int|
            {
                &&& j.txns.contains_key(txn.0)
                &&& !j.finished(txn)
                &&& #[trigger] j.savepoint_at(txn, sp, i)
                &&& if j.refuses(8) {
                    after == self && r == Err::<(), SqlError>(
                        SqlError::Internal(j.refusal(WalRecordKind::RollbackTo, 8)),
                    )
                } else {
                    self.rolled_result(after, txn, sp, i, r)
                }
            }
    }

    /// Whether `after` and `r` are what the rollback to the `i`-th savepoint leaves and answers,
    /// once its record is in the journal.
    pub open spec fn rolled_result(
        self,
        after: DiskModel,
        txn: TxnId,
        sp: SavepointId,
        i: int,
        r: SqlResult<()>,
    ) -> bool {
        let logged = self.journal.rollback_logged(txn, sp);
        let step = Step::RollTo(txn, self.journal.record(txn).savepoints[i]);
        exists|list: Seq<u64>| #[trigger]
            self.wrote_in(txn, list) && match r {
                Ok(_) => {
                    &&& self.walks(after, list, list.len() as int, step)
                    &&& after.journal == logged.marks_cut(txn, i)
                },
                Err(e) => {
                    &&& after.journal == logged
                    &&& exists|n: int| #[trigger] self.stops(after, list, n, step, e)
                },
            }
    }
}

} // verus!
