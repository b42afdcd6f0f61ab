//! What a transaction reads after a rollback to a savepoint is what it read when the savepoint was
//! taken, whatever other transactions did meanwhile.

use vstd::prelude::*;

use super::keeps::{
    lemma_all_undone_wf, lemma_cut_wf, lemma_deleted_wf, lemma_ended_wf, lemma_inserted_wf,
    lemma_saved_wf, lemma_updated_wf,
};
use super::laws::{content_seen, lemma_same_view, same_data};
use super::model::{registered, StorageModel};
use super::read::first_seen;
use super::restore_laws::{
    lemma_step_undone, lemma_undo_parts, lemma_undo_same_data, lemma_undo_same_tables,
    lemma_writes_grow, Step,
};
use super::table::{set_last_xmax, update_undone, VersionModel};
use super::txn_log::UndoEntry;
use super::undo_laws::{
    law_commit_keeps_the_others_undoable, law_delete_is_undoable, law_insert_is_undoable,
    law_rollback_never_fails, law_rollback_to_never_fails, law_savepoint_keeps_undoable,
    law_update_is_undoable, lemma_one_writer, lemma_undo_all, lemma_undo_alike,
    lemma_writable_alone, on_row, tail_of,
};
use crate::ids::{RowId, SavepointId, TableId, TxnId};
use crate::snapshot::{status_of, Snapshot, TxnStatus};

verus! {

/// What happens after a transaction took a savepoint.
pub enum Event {
    /// It takes a step of its own.
    Own(Step),
    /// It rolls back to one of its savepoints, named by its position.
    Back(int),
    /// Another transaction takes a step.
    Other(TxnId, Step),
    /// Another transaction commits.
    Commit(TxnId),
    /// Another transaction rolls back.
    Rollback(TxnId),
    /// Another transaction rolls back to one of its savepoints, named by its position.
    RollbackTo(TxnId, int),
}

impl Event {
    /// Whether the event is the work of `txn`, or of one of `others`.
    pub open spec fn worked_by(self, txn: TxnId, others: Set<TxnId>) -> bool {
        match self {
            Event::Own(_) | Event::Back(_) => true,
            Event::Other(o, _) | Event::Commit(o) | Event::Rollback(o) | Event::RollbackTo(o, _) => {
                o != txn && others.contains(o)
            },
        }
    }
}

impl StorageModel {
    /// Whether the storage takes an event after `txn` took its savepoint at position `at`. `txn`
    /// rolls back to that savepoint at most, and an identifier of a transaction that is forgotten is
    /// not used again.
    pub open spec fn admits(self, txn: TxnId, at: int, e: Event) -> bool {
        match e {
            Event::Own(step) => self.takes(txn, step),
            Event::Back(i) => {
                &&& self.txns.contains_key(txn.0)
                &&& at <= i < self.txns[txn.0].savepoints.len()
            },
            Event::Other(o, step) => self.takes(o, step) && self.known_or_new(o),
            Event::Commit(o) | Event::Rollback(o) => !self.finished(o) && self.known_or_new(o),
            Event::RollbackTo(o, i) => {
                &&& self.txns.contains_key(o.0)
                &&& !self.finished(o)
                &&& 0 <= i < self.txns[o.0].savepoints.len()
            },
        }
    }

    /// The storage after an event.
    pub open spec fn moved(self, txn: TxnId, e: Event) -> StorageModel {
        match e {
            Event::Own(step) => self.stepped(txn, step),
            Event::Back(i) => self.cut_at(txn, i).all_undone(txn, self.writes_after(txn, i)),
            Event::Other(o, step) => self.stepped(o, step),
            Event::Commit(o) => self.ended(o, TxnStatus::Committed),
            Event::Rollback(o) => self.ended(o, TxnStatus::Aborted).all_undone(
                o,
                self.writes_of(o),
            ),
            Event::RollbackTo(o, i) => self.cut_at(o, i).all_undone(o, self.writes_after(o, i)),
        }
    }

    /// The storage after some events.
    pub open spec fn all_moved(self, txn: TxnId, events: Seq<Event>) -> StorageModel
        decreases events.len(),
    {
        if events.len() == 0 {
            self
        } else {
            self.all_moved(txn, events.drop_last()).moved(txn, events.last())
        }
    }

    /// Whether the storage takes each of the events in turn.
    pub open spec fn admits_all(self, txn: TxnId, at: int, events: Seq<Event>) -> bool
        decreases events.len(),
    {
        events.len() > 0 ==> self.admits_all(txn, at, events.drop_last()) && self.all_moved(
            txn,
            events.drop_last(),
        ).admits(txn, at, events.last())
    }

    /// The versions of a row, none if it has none.
    pub open spec fn versions(self, t: u64, r: u64) -> Seq<VersionModel> {
        chain_or_none(self.chain_of(t, r))
    }
}

/// A chain, empty if there is none.
pub open spec fn chain_or_none(chain: Option<Seq<VersionModel>>) -> Seq<VersionModel> {
    match chain {
        Some(c) => c,
        None => Seq::empty(),
    }
}

/// A version without the mark of one of `others`.
pub open spec fn cleared(v: VersionModel, others: Set<TxnId>) -> VersionModel {
    if v.xmax is Some && others.contains(v.xmax->0) {
        v.with_xmax(None)
    } else {
        v
    }
}

/// A chain without the versions `others` created and the marks they left.
pub open spec fn without(c: Seq<VersionModel>, others: Set<TxnId>) -> Seq<VersionModel>
    decreases c.len(),
{
    if c.len() == 0 {
        Seq::empty()
    } else {
        let rest = without(c.drop_last(), others);
        if others.contains(c.last().xmin) {
            rest
        } else {
            rest.push(cleared(c.last(), others))
        }
    }
}

/// Another mark of one of `others` on the last version, or none, changes nothing of a chain without
/// them.
proof fn lemma_mark_without(c: Seq<VersionModel>, xmax: Option<TxnId>, others: Set<TxnId>)
    requires
        c.len() > 0,
        c.last().xmax is Some ==> others.contains(c.last().xmax->0),
        xmax is Some ==> others.contains(xmax->0),
    ensures
        without(set_last_xmax(c, xmax), others) == without(c, others),
{
    let d = set_last_xmax(c, xmax);
    assert(d.drop_last() =~= c.drop_last());
    assert(cleared(d.last(), others) =~= cleared(c.last(), others));
}

/// One more version of one of `others` changes nothing of a chain without them.
proof fn lemma_push_without(c: Seq<VersionModel>, v: VersionModel, others: Set<TxnId>)
    requires
        others.contains(v.xmin),
    ensures
        without(c.push(v), others) == without(c, others),
{
    assert(c.push(v).drop_last() =~= c);
}

/// What undoing one write leaves of the chain of its row.
pub open spec fn entry_undone(chain: Option<Seq<VersionModel>>, e: UndoEntry) -> Option<
    Seq<VersionModel>,
> {
    match (chain, e) {
        (None, _) => None,
        (Some(_), UndoEntry::Insert { .. }) => None,
        (Some(c), UndoEntry::Update { .. }) => Some(update_undone(c)),
        (Some(c), UndoEntry::Delete { .. }) => Some(set_last_xmax(c, None)),
    }
}

/// What undoing writes on a row, the last one first, leaves of its chain.
pub open spec fn chain_undone(chain: Option<Seq<VersionModel>>, ks: Seq<UndoEntry>) -> Option<
    Seq<VersionModel>,
>
    decreases ks.len(),
{
    if ks.len() == 0 {
        chain
    } else {
        chain_undone(entry_undone(chain, ks.last()), ks.drop_last())
    }
}

/// Undoing goes row by row.
proof fn lemma_undone_by_row(n: StorageModel, txn: TxnId, ws: Seq<UndoEntry>, t: u64, r: u64)
    requires
        n.tables.contains_key(t),
        n.stuck_on(txn, ws) is None,
    ensures
        n.all_undone(txn, ws).chain_of(t, r) == chain_undone(n.chain_of(t, r), on_row(ws, t, r)),
    decreases ws.len(),
{
    if ws.len() > 0 {
        let e = ws.last();
        let k = n.undone(txn, e);
        let rest = on_row(ws.drop_last(), t, r);
        assert(!n.undo_fails(txn, e));
        lemma_undone_by_row(k, txn, ws.drop_last(), t, r);
        if e.on(t, r) {
            assert(on_row(ws, t, r) == rest.push(e));
            assert(rest.push(e).drop_last() =~= rest);
            assert(k.chain_of(t, r) == entry_undone(n.chain_of(t, r), e));
        } else {
            assert(k.chain_of(t, r) == n.chain_of(t, r));
        }
    }
}

/// Undoing the last writes of one of `others` on a row changes nothing of the chain without them.
proof fn lemma_undo_without(
    chain: Option<Seq<VersionModel>>,
    o: TxnId,
    st: Map<u64, TxnStatus>,
    base: Seq<UndoEntry>,
    ks: Seq<UndoEntry>,
    others: Set<TxnId>,
)
    requires
        tail_of(chain, o, st, base + ks),
        others.contains(o),
    ensures
        without(chain_or_none(chain_undone(chain, ks)), others) == without(
            chain_or_none(chain),
            others,
        ),
    decreases ks.len(),
{
    if ks.len() > 0 {
        let all = base + ks;
        let e = ks.last();
        assert(all.last() == e);
        assert(all.drop_last() =~= base + ks.drop_last());
        let c = chain->0;
        match e {
            UndoEntry::Insert { .. } => {
                assert(all.len() == 1);
                assert(ks.drop_last().len() == 0);
                assert(c =~= c.drop_last().push(c.last()));
                lemma_push_without(c.drop_last(), c.last(), others);
                assert(c.drop_last() =~= Seq::<VersionModel>::empty());
            },
            UndoEntry::Update { .. } => {
                let d = c.drop_last();
                assert(c =~= d.push(c.last()));
                lemma_push_without(d, c.last(), others);
                lemma_mark_without(d, None, others);
                assert(update_undone(c) =~= set_last_xmax(d, None));
                lemma_undo_without(
                    Some(update_undone(c)),
                    o,
                    st,
                    base,
                    ks.drop_last(),
                    others,
                );
            },
            UndoEntry::Delete { .. } => {
                lemma_mark_without(c, None, others);
                lemma_undo_without(
                    Some(set_last_xmax(c, None)),
                    o,
                    st,
                    base,
                    ks.drop_last(),
                    others,
                );
            },
        }
    }
}

/// The writes on a row of two lists, one after the other.
proof fn lemma_on_row_parts(a: Seq<UndoEntry>, b: Seq<UndoEntry>, t: u64, r: u64)
    ensures
        on_row(a + b, t, r) == on_row(a, t, r) + on_row(b, t, r),
    decreases b.len(),
{
    if b.len() == 0 {
        assert(a + b =~= a);
        assert(on_row(a, t, r) + on_row(b, t, r) =~= on_row(a, t, r));
    } else {
        assert((a + b).drop_last() =~= a + b.drop_last());
        assert((a + b).last() == b.last());
        lemma_on_row_parts(a, b.drop_last(), t, r);
        assert(on_row(a + b, t, r) =~= on_row(a, t, r) + on_row(b, t, r));
    }
}

/// A storage from which the writes of `txn` past `mark` are taken back.
pub open spec fn taken_back(n: StorageModel, txn: TxnId, mark: int) -> StorageModel {
    n.all_undone(txn, n.writes_of(txn).skip(mark))
}

/// What holds of a storage since `txn` took the savepoint at position `at` in `s`.
spec fn came_from(
    s: StorageModel,
    n: StorageModel,
    txn: TxnId,
    at: int,
    others: Set<TxnId>,
) -> bool {
    let mark = s.txns[txn.0].savepoints[at].1 as int;
    &&& n.wf()
    &&& n.undoable()
    &&& n.tables.dom() == s.tables.dom()
    &&& n.txns.contains_key(txn.0)
    &&& !n.finished(txn)
    &&& 0 <= at < n.txns[txn.0].savepoints.len()
    &&& n.txns[txn.0].savepoints.take(at + 1) == s.txns[txn.0].savepoints
    &&& mark <= n.writes_of(txn).len()
    &&& forall|t: u64, r: u64|
        #![trigger s.versions(t, r)]
        s.tables.contains_key(t) ==> without(taken_back(n, txn, mark).versions(t, r), others)
            == without(s.versions(t, r), others)
    &&& forall|y: TxnId|
        y != txn && !others.contains(y) ==> #[trigger] status_of(n.st(), y) == status_of(s.st(), y)
}

/// The writes of a transaction past any point can be undone.
proof fn lemma_suffix_undoes(n: StorageModel, txn: TxnId, mark: int)
    requires
        n.undoable(),
        0 <= mark <= n.writes_of(txn).len(),
    ensures
        n.stuck_on(txn, n.writes_of(txn).skip(mark)) is None,
{
    let w = n.writes_of(txn);
    assert(n.undoable_with(txn, w));
    assert(w.take(mark) + w.skip(mark) =~= w);
    lemma_undo_all(n, txn, w.take(mark), w.skip(mark));
}

/// Where a transaction wrote nothing on a row, it wrote nothing on it past any point.
proof fn lemma_suffix_of_none(w: Seq<UndoEntry>, mark: int, t: u64, r: u64)
    requires
        0 <= mark <= w.len(),
        on_row(w, t, r).len() == 0,
    ensures
        on_row(w.skip(mark), t, r).len() == 0,
{
    assert(w.take(mark) + w.skip(mark) =~= w);
    lemma_on_row_parts(w.take(mark), w.skip(mark), t, r);
}

/// An event of another transaction that changes only rows `txn` did not write, and nothing of their
/// chains without `others`, changes nothing of what the rollback of `txn` leaves without them.
proof fn lemma_elsewhere(
    s: StorageModel,
    n: StorageModel,
    k: StorageModel,
    txn: TxnId,
    at: int,
    others: Set<TxnId>,
)
    requires
        came_from(s, n, txn, at, others),
        k.undoable(),
        k.tables.dom() == n.tables.dom(),
        k.txns.contains_key(txn.0),
        k.txns[txn.0] == n.txns[txn.0],
        forall|t: u64, r: u64|
            #![trigger k.chain_of(t, r)]
            n.tables.contains_key(t) ==> k.chain_of(t, r) == n.chain_of(t, r) || on_row(
                n.writes_of(txn),
                t,
                r,
            ).len() == 0 && without(k.versions(t, r), others) == without(n.versions(t, r), others),
    ensures
        forall|t: u64, r: u64|
            #![trigger s.versions(t, r)]
            s.tables.contains_key(t) ==> without(
                taken_back(k, txn, s.txns[txn.0].savepoints[at].1 as int).versions(t, r),
                others,
            ) == without(s.versions(t, r), others),
{
    let mark = s.txns[txn.0].savepoints[at].1 as int;
    let w = n.writes_of(txn);
    lemma_suffix_undoes(n, txn, mark);
    lemma_suffix_undoes(k, txn, mark);
    assert forall|t: u64, r: u64|
        #![trigger s.versions(t, r)]
        s.tables.contains_key(t) implies without(taken_back(k, txn, mark).versions(t, r), others)
        == without(s.versions(t, r), others) by {
        assert(s.tables.dom().contains(t));
        assert(n.tables.dom().contains(t));
        assert(k.tables.dom().contains(t));
        let ks = on_row(w.skip(mark), t, r);
        lemma_undone_by_row(n, txn, w.skip(mark), t, r);
        lemma_undone_by_row(k, txn, w.skip(mark), t, r);
        if k.chain_of(t, r) != n.chain_of(t, r) {
            lemma_suffix_of_none(w, mark, t, r);
        }
    }
}

/// A step of another transaction changes one row at most, which `txn` did not write.
proof fn lemma_other_step(
    n: StorageModel,
    txn: TxnId,
    o: TxnId,
    step: Step,
    others: Set<TxnId>,
    t: u64,
    r: u64,
)
    requires
        n.wf(),
        n.undoable(),
        n.takes(o, step),
        o != txn,
        others.contains(o),
        n.tables.contains_key(t),
    ensures
        ({
            let k = n.stepped(o, step);
            k.chain_of(t, r) == n.chain_of(t, r) || on_row(n.writes_of(txn), t, r).len() == 0
                && without(k.versions(t, r), others) == without(n.versions(t, r), others)
        }),
{
    let k = n.stepped(o, step);
    if k.chain_of(t, r) != n.chain_of(t, r) {
        match step {
            Step::Insert { table, data } => {
                assert(n.undoable_with(txn, n.writes_of(txn)));
                assert(tail_of(
                    n.chain_of(t, r),
                    txn,
                    n.st(),
                    on_row(n.writes_with(txn, n.writes_of(txn), txn), t, r),
                ));
                assert(n.chain_of(t, r) is None) by {
                    assert(super::model::table_ok(n.tables[t]));
                }
                let c = k.versions(t, r);
                assert(c =~= Seq::<VersionModel>::empty().push(c[0]));
                lemma_push_without(Seq::empty(), c[0], others);
            },
            Step::Update { table, row, data } => {
                lemma_writable_alone(n, o, table, row, txn);
                let c = n.versions(t, r);
                let d = k.versions(t, r);
                let marked = set_last_xmax(c, Some(o));
                lemma_mark_without(c, Some(o), others);
                lemma_push_without(marked, d.last(), others);
                assert(d =~= marked.push(d.last()));
            },
            Step::Delete { table, row } => {
                lemma_writable_alone(n, o, table, row, txn);
                lemma_mark_without(n.versions(t, r), Some(o), others);
            },
            Step::Savepoint => {},
        }
    }
}

/// Undoing the last writes of another transaction changes only rows `txn` did not write.
proof fn lemma_other_undo(
    n: StorageModel,
    c: StorageModel,
    txn: TxnId,
    o: TxnId,
    base: Seq<UndoEntry>,
    ws: Seq<UndoEntry>,
    others: Set<TxnId>,
    t: u64,
    r: u64,
)
    requires
        n.undoable(),
        n.writes_of(o) == base + ws,
        c == (StorageModel { txns: c.txns, ..n }),
        o != txn,
        others.contains(o),
        n.tables.contains_key(t),
    ensures
        ({
            let k = c.all_undone(o, ws);
            k.chain_of(t, r) == n.chain_of(t, r) || on_row(n.writes_of(txn), t, r).len() == 0
                && without(k.versions(t, r), others) == without(n.versions(t, r), others)
        }),
{
    let w = n.writes_of(o);
    assert(n.undoable_with(o, w));
    lemma_undo_all(n, o, base, ws);
    lemma_undo_alike(n, c, o, ws);
    lemma_undone_by_row(n, o, ws, t, r);
    lemma_on_row_parts(base, ws, t, r);
    assert(tail_of(n.chain_of(t, r), o, n.st(), on_row(n.writes_with(o, w, o), t, r)));
    lemma_undo_without(
        n.chain_of(t, r),
        o,
        n.st(),
        on_row(base, t, r),
        on_row(ws, t, r),
        others,
    );
    let k = c.all_undone(o, ws);
    assert(k.chain_of(t, r) == n.all_undone(o, ws).chain_of(t, r));
    if on_row(ws, t, r).len() > 0 {
        assert(on_row(w, t, r).len() > 0);
        assert(n.undoable_with(txn, n.writes_of(txn)));
        assert(tail_of(
            n.chain_of(t, r),
            txn,
            n.st(),
            on_row(n.writes_with(txn, n.writes_of(txn), txn), t, r),
        ));
        lemma_one_writer(
            n.chain_of(t, r),
            o,
            txn,
            n.st(),
            on_row(w, t, r),
            on_row(n.writes_of(txn), t, r),
        );
    }
}

/// A step of its own keeps what `txn` wrote since its savepoint undoable to the savepoint.
proof fn lemma_own_step(
    s: StorageModel,
    n: StorageModel,
    txn: TxnId,
    at: int,
    others: Set<TxnId>,
    step: Step,
)
    requires
        came_from(s, n, txn, at, others),
        n.takes(txn, step),
    ensures
        came_from(s, n.stepped(txn, step), txn, at, others),
{
    let k = n.stepped(txn, step);
    let mark = s.txns[txn.0].savepoints[at].1 as int;
    let w = n.writes_of(txn);
    let ws = w.skip(mark);
    let new = k.writes_of(txn).skip(w.len() as int);
    lemma_writes_grow(n, txn, step);
    lemma_step_undone(n, txn, step, new);
    match step {
        Step::Insert { table, data } => {
            law_insert_is_undoable(n, txn, table, data);
        },
        Step::Update { table, row, data } => {
            law_update_is_undoable(n, txn, table, row, data);
        },
        Step::Delete { table, row } => {
            law_delete_is_undoable(n, txn, table, row);
        },
        Step::Savepoint => {
            law_savepoint_keeps_undoable(n, txn);
        },
    }
    assert(k.tables.dom() =~= n.tables.dom());
    assert(k.writes_of(txn).skip(mark) =~= ws + new) by {
        assert(k.writes_of(txn).take(w.len() as int) == w);
        assert forall|i: int| 0 <= i < ws.len() implies k.writes_of(txn).skip(mark)[i] == ws[i] by {
            assert(k.writes_of(txn).take(w.len() as int)[mark + i] == w[mark + i]);
        }
    }
    lemma_undo_parts(k, txn, ws, new);
    lemma_undo_same_data(k.all_undone(txn, new), n, txn, ws);
    let a = taken_back(n, txn, mark);
    let b = taken_back(k, txn, mark);
    assert(same_data(b, a));
    lemma_undo_same_tables(n, txn, ws);
    assert forall|t: u64, r: u64|
        #![trigger s.versions(t, r)]
        s.tables.contains_key(t) implies without(b.versions(t, r), others) == without(
        s.versions(t, r),
        others,
    ) by {
        assert(s.tables.dom().contains(t));
        assert(a.tables.dom().contains(t));
        assert(b.tables.contains_key(t));
        assert(b.chain_of(t, r) == a.chain_of(t, r));
    }
    let x = n.txns[txn.0].savepoints;
    let y = k.txns[txn.0].savepoints;
    assert(y.take(at + 1) =~= x.take(at + 1));
    assert forall|z: TxnId| z != txn && !others.contains(z) implies #[trigger] status_of(k.st(), z)
        == status_of(s.st(), z) by {
        assert(status_of(n.st(), z) == status_of(s.st(), z));
    }
}

/// Rolling back to a savepoint at or past `at` keeps what `txn` wrote since the one at `at` undoable
/// to it.
proof fn lemma_own_back(
    s: StorageModel,
    n: StorageModel,
    txn: TxnId,
    at: int,
    others: Set<TxnId>,
    i: int,
)
    requires
        came_from(s, n, txn, at, others),
        at <= i < n.txns[txn.0].savepoints.len(),
    ensures
        came_from(
            s,
            n.cut_at(txn, i).all_undone(txn, n.writes_after(txn, i)),
            txn,
            at,
            others,
        ),
{
    let mark = s.txns[txn.0].savepoints[at].1 as int;
    let x = n.txns[txn.0];
    let cut = n.cut_at(txn, i);
    let back = n.writes_after(txn, i);
    let k = cut.all_undone(txn, back);
    let w = x.writes;
    let p = x.savepoints[i].1 as int;
    assert(super::model::txn_ok(x, n.next_savepoint_id));
    assert(x.savepoints[at] == s.txns[txn.0].savepoints[at]) by {
        assert(x.savepoints.take(at + 1)[at] == s.txns[txn.0].savepoints[at]);
    }
    assert(mark <= p <= w.len());
    law_rollback_to_never_fails(n, txn, i);
    lemma_cut_wf(n, txn, i);
    lemma_all_undone_wf(cut, txn, back);
    lemma_undo_alike(n, cut, txn, back);
    assert(k.txns == cut.txns);
    let front = w.take(p).skip(mark);
    assert(w.skip(mark) =~= front + back);
    lemma_undo_parts(n, txn, front, back);
    let nb = n.all_undone(txn, back);
    assert(k == (StorageModel { txns: k.txns, ..nb }));
    lemma_undo_alike(nb, k, txn, front);
    assert(k.writes_of(txn) == w.take(p));
    assert(taken_back(k, txn, mark).tables == taken_back(n, txn, mark).tables);
    assert(k.txns[txn.0].savepoints.take(at + 1) =~= x.savepoints.take(at + 1));
    lemma_undo_same_tables(cut, txn, back);
    assert forall|t: u64, r: u64|
        #![trigger s.versions(t, r)]
        s.tables.contains_key(t) implies without(taken_back(k, txn, mark).versions(t, r), others)
        == without(s.versions(t, r), others) by {
        assert(taken_back(k, txn, mark).chain_of(t, r) == taken_back(n, txn, mark).chain_of(t, r));
    }
    assert forall|z: TxnId| z != txn && !others.contains(z) implies #[trigger] status_of(k.st(), z)
        == status_of(s.st(), z) by {
        assert(status_of(n.st(), z) == status_of(s.st(), z));
    }
}

/// What an event of another transaction leaves keeps what `txn` wrote since its savepoint undoable to
/// it.
proof fn lemma_other_event(
    s: StorageModel,
    n: StorageModel,
    k: StorageModel,
    txn: TxnId,
    at: int,
    others: Set<TxnId>,
    o: TxnId,
)
    requires
        came_from(s, n, txn, at, others),
        o != txn,
        others.contains(o),
        k.wf(),
        k.undoable(),
        k.tables.dom() == n.tables.dom(),
        forall|x: u64|
            #![trigger k.txns.contains_key(x)]
            x != o.0 ==> (k.txns.contains_key(x) <==> n.txns.contains_key(x)) && (
            n.txns.contains_key(x) ==> k.txns[x] == n.txns[x]),
        forall|t: u64, r: u64|
            #![trigger k.chain_of(t, r)]
            n.tables.contains_key(t) ==> k.chain_of(t, r) == n.chain_of(t, r) || on_row(
                n.writes_of(txn),
                t,
                r,
            ).len() == 0 && without(k.versions(t, r), others) == without(n.versions(t, r), others),
    ensures
        came_from(s, k, txn, at, others),
{
    assert(k.txns.contains_key(txn.0));
    assert(k.txns[txn.0] == n.txns[txn.0]);
    lemma_elsewhere(s, n, k, txn, at, others);
    assert forall|z: TxnId| z != txn && !others.contains(z) implies #[trigger] status_of(k.st(), z)
        == status_of(s.st(), z) by {
        assert(status_of(n.st(), z) == status_of(s.st(), z));
        assert(k.txns.contains_key(z.0) <==> n.txns.contains_key(z.0));
    }
}

/// An event keeps what `txn` wrote since its savepoint undoable to the savepoint.
proof fn lemma_event(
    s: StorageModel,
    n: StorageModel,
    txn: TxnId,
    at: int,
    others: Set<TxnId>,
    e: Event,
)
    requires
        came_from(s, n, txn, at, others),
        n.admits(txn, at, e),
        e.worked_by(txn, others),
    ensures
        came_from(s, n.moved(txn, e), txn, at, others),
{
    let k = n.moved(txn, e);
    match e {
        Event::Own(step) => {
            lemma_own_step(s, n, txn, at, others, step);
        },
        Event::Back(i) => {
            lemma_own_back(s, n, txn, at, others, i);
        },
        Event::Other(o, step) => {
            lemma_other_stays(n, o, step);
            assert forall|t: u64, r: u64|
                #![trigger k.chain_of(t, r)]
                n.tables.contains_key(t) implies k.chain_of(t, r) == n.chain_of(t, r) || on_row(
                n.writes_of(txn),
                t,
                r,
            ).len() == 0 && without(k.versions(t, r), others) == without(
                n.versions(t, r),
                others,
            ) by {
                lemma_other_step(n, txn, o, step, others, t, r);
            }
            lemma_other_event(s, n, k, txn, at, others, o);
        },
        Event::Commit(o) => {
            lemma_ended_wf(n, o, TxnStatus::Committed);
            law_commit_keeps_the_others_undoable(n, o);
            assert forall|t: u64, r: u64|
                #![trigger k.chain_of(t, r)]
                n.tables.contains_key(t) implies k.chain_of(t, r) == n.chain_of(t, r) by {}
            lemma_other_event(s, n, k, txn, at, others, o);
        },
        Event::Rollback(o) => {
            let a = n.ended(o, TxnStatus::Aborted);
            let ws = n.writes_of(o);
            law_rollback_never_fails(n, o);
            lemma_ended_wf(n, o, TxnStatus::Aborted);
            lemma_all_undone_wf(a, o, ws);
            lemma_undo_same_tables(a, o, ws);
            lemma_undo_alike(n, a, o, ws);
            assert(Seq::<UndoEntry>::empty() + ws =~= ws);
            assert forall|t: u64, r: u64|
                #![trigger k.chain_of(t, r)]
                n.tables.contains_key(t) implies k.chain_of(t, r) == n.chain_of(t, r) || on_row(
                n.writes_of(txn),
                t,
                r,
            ).len() == 0 && without(k.versions(t, r), others) == without(
                n.versions(t, r),
                others,
            ) by {
                lemma_other_undo(n, a, txn, o, Seq::empty(), ws, others, t, r);
            }
            lemma_other_event(s, n, k, txn, at, others, o);
        },
        Event::RollbackTo(o, i) => {
            let c = n.cut_at(o, i);
            let ws = n.writes_after(o, i);
            let x = n.txns[o.0];
            assert(super::model::txn_ok(x, n.next_savepoint_id));
            let base = x.writes.take(x.savepoints[i].1 as int);
            law_rollback_to_never_fails(n, o, i);
            lemma_cut_wf(n, o, i);
            lemma_all_undone_wf(c, o, ws);
            lemma_undo_same_tables(c, o, ws);
            lemma_undo_alike(n, c, o, ws);
            assert(base + ws =~= n.writes_of(o));
            assert forall|t: u64, r: u64|
                #![trigger k.chain_of(t, r)]
                n.tables.contains_key(t) implies k.chain_of(t, r) == n.chain_of(t, r) || on_row(
                n.writes_of(txn),
                t,
                r,
            ).len() == 0 && without(k.versions(t, r), others) == without(
                n.versions(t, r),
                others,
            ) by {
                lemma_other_undo(n, c, txn, o, base, ws, others, t, r);
            }
            lemma_other_event(s, n, k, txn, at, others, o);
        },
    }
}

/// A step of a transaction leaves a consistent storage, whose writes can be undone.
proof fn lemma_other_stays(n: StorageModel, o: TxnId, step: Step)
    requires
        n.wf(),
        n.undoable(),
        n.takes(o, step),
        n.known_or_new(o),
    ensures
        n.stepped(o, step).wf(),
        n.stepped(o, step).undoable(),
        n.stepped(o, step).tables.dom() == n.tables.dom(),
{
    match step {
        Step::Insert { table, data } => {
            lemma_inserted_wf(n, o, table, data);
            law_insert_is_undoable(n, o, table, data);
        },
        Step::Update { table, row, data } => {
            lemma_updated_wf(n, o, table, row, data);
            law_update_is_undoable(n, o, table, row, data);
        },
        Step::Delete { table, row } => {
            lemma_deleted_wf(n, o, table, row);
            law_delete_is_undoable(n, o, table, row);
        },
        Step::Savepoint => {
            lemma_saved_wf(n, o);
            law_savepoint_keeps_undoable(n, o);
        },
    }
    assert(n.stepped(o, step).tables.dom() =~= n.tables.dom());
}

/// Events keep what `txn` wrote since its savepoint undoable to the savepoint.
proof fn lemma_events(
    s: StorageModel,
    txn: TxnId,
    at: int,
    others: Set<TxnId>,
    events: Seq<Event>,
)
    requires
        came_from(s, s, txn, at, others),
        s.admits_all(txn, at, events),
        forall|i: int| 0 <= i < events.len() ==> (#[trigger] events[i]).worked_by(txn, others),
    ensures
        came_from(s, s.all_moved(txn, events), txn, at, others),
    decreases events.len(),
{
    if events.len() > 0 {
        let first = events.drop_last();
        assert forall|i: int| 0 <= i < first.len() implies (#[trigger] first[i]).worked_by(
            txn,
            others,
        ) by {
            assert(events[i] == first[i]);
        }
        lemma_events(s, txn, at, others, first);
        assert(events[events.len() - 1].worked_by(txn, others));
        lemma_event(s, s.all_moved(txn, first), txn, at, others, events.last());
    }
}

/// Whether a snapshot settles none of `others`.
pub open spec fn settles_none(
    snap: Snapshot,
    st: Map<u64, TxnStatus>,
    others: Set<TxnId>,
) -> bool {
    forall|o: TxnId| #[trigger] others.contains(o) ==> !snap.settled(o, status_of(st, o))
}

/// A snapshot that settles none of `others` sees of a chain what it sees of the chain without them.
proof fn lemma_seen_without(
    c: Seq<VersionModel>,
    others: Set<TxnId>,
    snap: Snapshot,
    st: Map<u64, TxnStatus>,
)
    requires
        settles_none(snap, st, others),
    ensures
        content_seen(c, snap, st) == content_seen(without(c, others), snap, st),
    decreases c.len(),
{
    if c.len() > 0 {
        let d = c.drop_last();
        let v = c.last();
        let w = without(d, others);
        lemma_seen_without(d, others, snap, st);
        assert(c =~= d.push(v));
        lemma_seen_push(d, v, snap, st);
        if !others.contains(v.xmin) {
            lemma_seen_push(w, cleared(v, others), snap, st);
            assert(cleared(v, others).data == v.data);
            assert(snap.visible(cleared(v, others).xmin, cleared(v, others).xmax, st)
                == snap.visible(v.xmin, v.xmax, st));
        }
    }
}

/// What is seen of a chain with one more version at its end.
proof fn lemma_seen_push(
    c: Seq<VersionModel>,
    v: VersionModel,
    snap: Snapshot,
    st: Map<u64, TxnStatus>,
)
    ensures
        content_seen(c.push(v), snap, st) == match content_seen(c, snap, st) {
            Some(data) => Some(data),
            None => if snap.visible(v.xmin, v.xmax, st) {
                Some(v.data)
            } else {
                None
            },
        },
    decreases c.len(),
{
    if c.len() == 0 {
        assert(c.push(v).drop_first() =~= Seq::<VersionModel>::empty());
        assert(first_seen(c.push(v).drop_first(), snap, st) is None);
    } else {
        assert(c.push(v).drop_first() =~= c.drop_first().push(v));
        lemma_seen_push(c.drop_first(), v, snap, st);
    }
}

/// A chain without `others` names none of them.
proof fn lemma_without_names(c: Seq<VersionModel>, others: Set<TxnId>)
    ensures
        forall|i: int|
            0 <= i < without(c, others).len() ==> !others.contains(
                (#[trigger] without(c, others)[i]).xmin,
            ) && (without(c, others)[i].xmax is Some ==> !others.contains(
                without(c, others)[i].xmax->0,
            )),
    decreases c.len(),
{
    if c.len() > 0 {
        lemma_without_names(c.drop_last(), others);
    }
}

/// A rollback to a savepoint gives the transaction back what it read when the savepoint was taken,
/// whatever other transactions did in between: its snapshot, which settles none of them, then or now,
/// sees the same of every row. The transaction may have rolled back to that savepoint or to later ones
/// meanwhile.
pub proof fn law_rollback_to_gives_back_what_was_read(
    m: StorageModel,
    txn: TxnId,
    events: Seq<Event>,
    others: Set<TxnId>,
    snap: Snapshot,
)
    requires
        m.wf(),
        m.undoable(),
        m.known_or_new(txn),
        !m.finished(txn),
        m.next_savepoint_id < u64::MAX,
        m.writes_of(txn).len() <= usize::MAX,
        ({
            let s = m.saved(txn);
            s.admits_all(txn, s.txns[txn.0].savepoints.len() - 1, events)
        }),
        forall|i: int| 0 <= i < events.len() ==> (#[trigger] events[i]).worked_by(txn, others),
        snap.own == txn,
        !others.contains(txn),
        settles_none(snap, m.saved(txn).st(), others),
        settles_none(snap, m.saved(txn).all_moved(txn, events).st(), others),
    ensures
        ({
            let s = m.saved(txn);
            let n = s.all_moved(txn, events);
            let at = s.txns[txn.0].savepoints.len() - 1;
            let cut = n.cut_at(txn, at);
            let out = cut.all_undone(txn, n.writes_after(txn, at));
            &&& !n.finished(txn)
            &&& n.savepoint_at(txn, SavepointId(m.next_savepoint_id), at)
            &&& cut.stuck_on(txn, n.writes_after(txn, at)) is None
            &&& forall|t: TableId, id: RowId|
                #![trigger out.seen(snap, t, id)]
                s.has_table(t) ==> out.seen(snap, t, id) == s.seen(snap, t, id)
        }),
{
    let s = m.saved(txn);
    let at = s.txns[txn.0].savepoints.len() - 1;
    let n = s.all_moved(txn, events);
    lemma_saved_wf(m, txn);
    law_savepoint_keeps_undoable(m, txn);
    let mark = s.txns[txn.0].savepoints[at].1 as int;
    assert(registered(m.txns, txn)[txn.0].writes =~= m.writes_of(txn));
    assert(mark == s.writes_of(txn).len());
    assert(s.writes_of(txn).skip(mark) =~= Seq::<UndoEntry>::empty());
    assert(taken_back(s, txn, mark) == s);
    assert(s.txns[txn.0].savepoints.take(at + 1) =~= s.txns[txn.0].savepoints);
    assert(came_from(s, s, txn, at, others));
    lemma_events(s, txn, at, others, events);
    let x = n.txns[txn.0];
    assert(x.savepoints.take(at + 1)[at] == s.txns[txn.0].savepoints[at]);
    let cut = n.cut_at(txn, at);
    let ws = n.writes_after(txn, at);
    let out = cut.all_undone(txn, ws);
    assert(ws == n.writes_of(txn).skip(mark));
    law_rollback_to_never_fails(n, txn, at);
    lemma_undo_alike(n, cut, txn, ws);
    let back = taken_back(n, txn, mark);
    assert(out.tables == back.tables);
    assert(out.txns == cut.txns);
    assert(out.st() =~= n.st());
    lemma_undo_same_tables(cut, txn, ws);
    assert forall|t: TableId, id: RowId|
        #![trigger out.seen(snap, t, id)]
        s.has_table(t) implies out.seen(snap, t, id) == s.seen(snap, t, id) by {
        let key = t.0 as u64;
        assert(s.tables.dom().contains(key));
        assert(out.chain_of(key, id.0) == back.chain_of(key, id.0));
        let a = s.versions(key, id.0);
        let b = out.versions(key, id.0);
        let w = without(a, others);
        assert(without(b, others) == w);
        lemma_seen_without(a, others, snap, s.st());
        lemma_seen_without(b, others, snap, n.st());
        lemma_without_names(a, others);
        assert forall|i: int| 0 <= i < w.len() implies snap.visible(
            (#[trigger] w[i]).xmin,
            w[i].xmax,
            n.st(),
        ) == snap.visible(w[i].xmin, w[i].xmax, s.st()) by {
            let xmin = w[i].xmin;
            if xmin != txn {
                assert(status_of(n.st(), xmin) == status_of(s.st(), xmin));
            }
            if w[i].xmax is Some && w[i].xmax->0 != txn {
                assert(status_of(n.st(), w[i].xmax->0) == status_of(s.st(), w[i].xmax->0));
            }
        }
        lemma_same_view(w, w, snap, n.st(), s.st());
        assert(out.seen(snap, t, id) == content_seen(b, snap, n.st()));
        assert(s.seen(snap, t, id) == content_seen(a, snap, s.st()));
    }
}

} // verus!
