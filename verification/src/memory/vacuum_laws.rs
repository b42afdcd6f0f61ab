//! What a vacuum keeps: what the indexes serve and every version that may still be seen; and that a
//! second one changes nothing. No version ever carries the mark of a transaction that rolled back.

use vstd::prelude::*;

use super::index::{in_range, version_at, EntryModel};
use super::keeps::{lemma_chain_find, lemma_chain_found};
use super::laws::{lemma_pruned_view, marks_stand, outlives};
use super::model::{table_ok, StorageModel};
use super::restore_laws::Step;
use super::table::{survivors, VersionModel};
use super::txn_log::UndoEntry;
use super::undo_laws::{law_rollback_never_fails, unmarked};
use super::vacuum::{entry_dead, live_entries};
use crate::ids::{RowId, TableId, TxnId};
use crate::key_range::KeyRangeModel;
use crate::seqs::{
    lemma_filter_agree, lemma_filter_all, lemma_filter_elements, lemma_filter_filter,
    lemma_filter_pairwise,
};
use crate::snapshot::{status_of, Snapshot, TxnStatus};

verus! {

/// Whether no version of a table carries the mark of a transaction that rolled back.
pub open spec fn table_marks_stand(m: StorageModel, t: u64) -> bool {
    forall|r: u64| #[trigger]
        m.tables[t].rows.contains_key(r) ==> marks_stand(m.tables[t].rows[r], m.st())
}

/// A version that a vacuum keeps is found where it was.
proof fn lemma_survivor_found(m: StorageModel, horizon: TxnId, t: u64, row: RowId, seq: usize)
    requires
        m.wf(),
        m.tables.contains_key(t),
        version_at(m.tables[t].rows, row, seq) matches Some(v) && !v.dead(horizon, m.st()),
    ensures
        version_at(m.vacuumed(horizon).tables[t].rows, row, seq) == version_at(
            m.tables[t].rows,
            row,
            seq,
        ),
        m.vacuumed(horizon).tables[t].rows.contains_key(row.0),
{
    let n = m.vacuumed(horizon);
    let c = m.tables[t].rows[row.0];
    assert(table_ok(m.tables[t]));
    lemma_chain_found(c, seq);
    let v = version_at(m.tables[t].rows, row, seq)->0;
    let pred = |v: VersionModel| !v.dead(horizon, m.st());
    let rel = |a: VersionModel, b: VersionModel| a.seq < b.seq;
    let kept = survivors(c, horizon, m.st());
    lemma_filter_elements(c, pred);
    assert forall|i: int, j: int| 0 <= i < j < c.len() implies #[trigger] rel(c[i], c[j]) by {}
    lemma_filter_pairwise(c, pred, rel);
    assert(c.contains(v));
    assert(kept.contains(v));
    let at = choose|at: int| 0 <= at < kept.len() && kept[at] == v;
    assert forall|a: int, b: int| 0 <= a < b < kept.len() implies (#[trigger] kept[a]).seq < (
    #[trigger] kept[b]).seq by {
        assert(rel(kept[a], kept[b]));
    }
    lemma_chain_find(kept, at);
    assert(n.tables[t].rows[row.0] == kept);
}

/// A vacuum changes nothing of what an index serves to a snapshot at or past its horizon, for any
/// range.
pub proof fn law_vacuum_keeps_what_is_sought(
    m: StorageModel,
    horizon: TxnId,
    snap: Snapshot,
    x: u64,
    range: KeyRangeModel,
)
    requires
        m.wf(),
        m.indexes.contains_key(x),
        outlives(m, snap, horizon),
        table_marks_stand(m, m.indexes[x].table.0 as u64),
    ensures
        ({
            let n = m.vacuumed(horizon);
            n.sought(snap, n.indexes[x], range, n.indexes[x].entries) == m.sought(
                snap,
                m.indexes[x],
                range,
                m.indexes[x].entries,
            )
        }),
{
    let n = m.vacuumed(horizon);
    let ix = m.indexes[x];
    let t = ix.table.0 as u64;
    let rows = m.tables[t].rows;
    assert(m.tables.contains_key(t));
    assert(m.tables.dom().contains(t));
    let keep = |e: EntryModel| !entry_dead(e, rows, horizon, m.st());
    let p = |e: EntryModel| in_range(ix.order, e.key, range) && m.entry_seen(snap, ix, e);
    let q = |e: EntryModel| in_range(ix.order, e.key, range) && n.entry_seen(snap, n.indexes[x], e);
    let both = |e: EntryModel| keep(e) && q(e);
    assert(n.indexes[x].entries == ix.entries.filter(keep));
    lemma_filter_filter(ix.entries, keep, q, both);
    assert forall|i: int| 0 <= i < ix.entries.len() implies both(#[trigger] ix.entries[i]) == p(
        ix.entries[i],
    ) by {
        let e = ix.entries[i];
        assert(version_at(rows, e.row, e.version) is Some);
        let v = version_at(rows, e.row, e.version)->0;
        lemma_chain_found(rows[e.row.0], e.version);
        let at = choose|at: int| 0 <= at < rows[e.row.0].len() && rows[e.row.0][at] == v;
        assert(marks_stand(rows[e.row.0], m.st()));
        assert(v.xmax matches Some(y) ==> status_of(m.st(), y) != TxnStatus::Aborted) by {
            assert(rows[e.row.0][at] == v);
        }
        if v.dead(horizon, m.st()) {
            assert(!snap.visible(v.xmin, v.xmax, m.st()));
        } else {
            lemma_survivor_found(m, horizon, t, e.row, e.version);
            lemma_pruned_view(m, n, horizon, snap, v);
        }
    }
    lemma_filter_agree(ix.entries, both, p);
    let kept = ix.entries.filter(p);
    let to_m = |e: EntryModel| (e.row, version_at(m.table(ix.table).rows, e.row, e.version)->0.data);
    let to_n = |e: EntryModel|
        (e.row, version_at(n.table(n.indexes[x].table).rows, e.row, e.version)->0.data);
    lemma_filter_elements(ix.entries, both);
    assert forall|i: int| 0 <= i < kept.len() implies to_m(#[trigger] kept[i]) == to_n(kept[i]) by {
        let e = kept[i];
        assert(ix.entries.filter(both).contains(e));
        assert(both(e));
        let j = choose|j: int| 0 <= j < ix.entries.len() && ix.entries[j] == e;
        assert(version_at(rows, ix.entries[j].row, ix.entries[j].version) is Some);
        lemma_survivor_found(m, horizon, t, e.row, e.version);
    }
    assert(kept.map_values(to_m) =~= kept.map_values(to_n));
}

/// A vacuum discards only what nobody may see again: a version stays, with its index entries, unless
/// its creator rolled back or a committed transaction below the horizon deleted or replaced it. It
/// adds nothing, and hands no row identifier out again.
pub proof fn law_vacuum_discards_nothing_else(
    m: StorageModel,
    horizon: TxnId,
    t: TableId,
    id: RowId,
    v: VersionModel,
)
    requires
        m.wf(),
        m.has_table(t),
        m.table(t).rows.contains_key(id.0),
        m.table(t).rows[id.0].contains(v),
        status_of(m.st(), v.xmin) != TxnStatus::Aborted,
        v.xmax matches Some(y) ==> y.0 >= horizon.0 || status_of(m.st(), y)
            != TxnStatus::Committed,
    ensures
        ({
            let n = m.vacuumed(horizon);
            &&& n.table(t).rows.contains_key(id.0)
            &&& n.table(t).rows[id.0].contains(v)
            &&& forall|w: VersionModel| #[trigger]
                n.table(t).rows[id.0].contains(w) ==> m.table(t).rows[id.0].contains(w)
            &&& forall|k: u64, e: EntryModel| #[trigger]
                m.indexes[k].entries.contains(e) && m.indexes.contains_key(k) && m.indexes[k].table
                    == t && e.row == id && e.version == v.seq ==> n.indexes[k].entries.contains(e)
            &&& n.table(t).next_row_id == m.table(t).next_row_id
        }),
{
    let n = m.vacuumed(horizon);
    let c = m.table(t).rows[id.0];
    let pred = |v: VersionModel| !v.dead(horizon, m.st());
    assert(m.tables.contains_key(t.0 as u64));
    assert(table_ok(m.table(t)));
    lemma_filter_elements(c, pred);
    let kept = survivors(c, horizon, m.st());
    assert(kept.contains(v));
    assert(n.table(t).rows[id.0] == kept);
    let at = choose|at: int| 0 <= at < c.len() && c[at] == v;
    lemma_chain_find(c, at);
    assert forall|k: u64, e: EntryModel| #[trigger]
        m.indexes[k].entries.contains(e) && m.indexes.contains_key(k) && m.indexes[k].table == t
            && e.row == id && e.version == v.seq implies n.indexes[k].entries.contains(e) by {
        let keep = |e: EntryModel| !entry_dead(e, m.table(t).rows, horizon, m.st());
        lemma_filter_elements(m.indexes[k].entries, keep);
        assert(version_at(m.table(t).rows, e.row, e.version) == Some(v));
    }
}

/// A second vacuum up to the same horizon changes nothing.
pub proof fn law_second_vacuum_changes_nothing(m: StorageModel, horizon: TxnId)
    requires
        m.wf(),
        m.all_marks_stand(),
    ensures
        m.vacuumed(horizon).vacuumed(horizon) == m.vacuumed(horizon),
{
    let n = m.vacuumed(horizon);
    let o = n.vacuumed(horizon);
    assert(o.txns =~= n.txns);
    assert forall|t: u64| #[trigger] m.tables.contains_key(t) implies o.tables[t] == n.tables[t] by {
        assert(m.tables.dom().contains(t));
        assert(n.tables.dom().contains(t));
        assert(table_marks_stand(m, t));
        assert forall|r: u64| #[trigger] n.tables[t].rows.contains_key(r) implies survivors(
            n.tables[t].rows[r],
            horizon,
            n.st(),
        ) == n.tables[t].rows[r] by {
            assert(m.tables[t].rows.contains_key(r));
            lemma_survivors_survive(m, horizon, m.tables[t].rows[r]);
        }
        assert(o.tables[t].rows =~= n.tables[t].rows);
        assert(o.tables[t] =~= n.tables[t]);
    }
    assert(o.tables =~= n.tables);
    assert forall|k: u64| #[trigger] m.indexes.contains_key(k) implies o.indexes[k]
        == n.indexes[k] by {
        lemma_entries_survive(m, horizon, k);
        assert(o.indexes[k] =~= n.indexes[k]);
    }
    assert(o.indexes =~= n.indexes);
}

/// A version that a vacuum keeps is kept by the next.
proof fn lemma_version_survives(m: StorageModel, horizon: TxnId, v: VersionModel)
    requires
        !v.dead(horizon, m.st()),
        v.xmax matches Some(y) ==> status_of(m.st(), y) != TxnStatus::Aborted,
    ensures
        !v.dead(horizon, m.vacuumed(horizon).st()),
{
    let n = m.vacuumed(horizon);
    assert forall|x: TxnId| #[trigger] status_of(m.st(), x) != TxnStatus::Aborted implies status_of(
        n.st(),
        x,
    ) == status_of(m.st(), x) by {}
    assert(status_of(n.st(), v.xmin) == status_of(m.st(), v.xmin));
    if v.xmax is Some {
        assert(status_of(n.st(), v.xmax->0) == status_of(m.st(), v.xmax->0));
    }
}

/// What a vacuum keeps of a chain is kept by the next.
proof fn lemma_survivors_survive(m: StorageModel, horizon: TxnId, c: Seq<VersionModel>)
    requires
        marks_stand(c, m.st()),
    ensures
        ({
            let kept = survivors(c, horizon, m.st());
            survivors(kept, horizon, m.vacuumed(horizon).st()) == kept
        }),
{
    let n = m.vacuumed(horizon);
    let pred = |v: VersionModel| !v.dead(horizon, m.st());
    let then_pred = |v: VersionModel| !v.dead(horizon, n.st());
    let kept = survivors(c, horizon, m.st());
    lemma_filter_elements(c, pred);
    assert forall|i: int| 0 <= i < kept.len() implies then_pred(#[trigger] kept[i]) by {
        assert(kept.contains(kept[i]));
        let j = choose|j: int| 0 <= j < c.len() && c[j] == kept[i];
        assert(c[j].xmax is Some ==> status_of(m.st(), c[j].xmax->0) != TxnStatus::Aborted);
        lemma_version_survives(m, horizon, kept[i]);
    }
    lemma_filter_all(kept, then_pred);
}

/// What a vacuum keeps of the entries of an index is kept by the next.
proof fn lemma_entries_survive(m: StorageModel, horizon: TxnId, k: u64)
    requires
        m.wf(),
        m.indexes.contains_key(k),
        table_marks_stand(m, m.indexes[k].table.0 as u64),
    ensures
        m.vacuumed(horizon).vacuumed(horizon).indexes[k].entries == m.vacuumed(
            horizon,
        ).indexes[k].entries,
{
    let n = m.vacuumed(horizon);
    let ix = m.indexes[k];
    let t = ix.table.0 as u64;
    let rows = m.tables[t].rows;
    assert(m.tables.contains_key(t));
    assert(m.tables.dom().contains(t));
    assert(n.tables.dom().contains(t));
    let keep = |e: EntryModel| !entry_dead(e, rows, horizon, m.st());
    let later = |e: EntryModel| !entry_dead(e, n.tables[t].rows, horizon, n.st());
    let kept = live_entries(ix.entries, rows, horizon, m.st());
    lemma_filter_elements(ix.entries, keep);
    assert forall|i: int| 0 <= i < kept.len() implies later(#[trigger] kept[i]) by {
        let e = kept[i];
        assert(kept.contains(e));
        let j = choose|j: int| 0 <= j < ix.entries.len() && ix.entries[j] == e;
        assert(version_at(rows, ix.entries[j].row, ix.entries[j].version) is Some);
        let v = version_at(rows, e.row, e.version)->0;
        lemma_survivor_found(m, horizon, t, e.row, e.version);
        lemma_chain_found(rows[e.row.0], e.version);
        let at = choose|at: int| 0 <= at < rows[e.row.0].len() && rows[e.row.0][at] == v;
        assert(marks_stand(rows[e.row.0], m.st()));
        assert(rows[e.row.0][at] == v);
        lemma_version_survives(m, horizon, v);
    }
    lemma_filter_all(kept, later);
    assert(n.indexes[k].entries == kept);
}

impl StorageModel {
    /// Whether no version of any row carries the mark of a transaction that rolled back.
    pub open spec fn all_marks_stand(self) -> bool {
        forall|t: u64| #[trigger] self.tables.contains_key(t) ==> table_marks_stand(self, t)
    }
}

/// Whether every mark of a storage is one of another, or that of `txn`.
spec fn no_new_marks(m: StorageModel, n: StorageModel, txn: TxnId) -> bool {
    forall|t: u64, r: u64, i: int|
        #![trigger n.tables[t].rows[r][i]]
        n.tables.contains_key(t) && n.tables[t].rows.contains_key(r) && 0 <= i
            < n.tables[t].rows[r].len() && n.tables[t].rows[r][i].xmax is Some
            && n.tables[t].rows[r][i].xmax != Some(txn) ==> marked(
            m,
            t,
            r,
            n.tables[t].rows[r][i].xmax->0,
        )
}

/// Whether a version of a row carries the mark of a transaction.
spec fn marked(m: StorageModel, t: u64, r: u64, y: TxnId) -> bool {
    &&& m.tables.contains_key(t)
    &&& m.tables[t].rows.contains_key(r)
    &&& exists|i: int|
        0 <= i < m.tables[t].rows[r].len() && (#[trigger] m.tables[t].rows[r][i]).xmax == Some(y)
}

/// Marks that stood still stand, if no transaction but `txn` rolled back since, and those of `txn`
/// stand.
proof fn lemma_marks_stand(m: StorageModel, n: StorageModel, txn: TxnId)
    requires
        m.all_marks_stand(),
        no_new_marks(m, n, txn),
        status_of(n.st(), txn) != TxnStatus::Aborted || n.nowhere(txn),
        forall|y: TxnId|
            y != txn && #[trigger] status_of(n.st(), y) == TxnStatus::Aborted ==> status_of(m.st(), y)
                == TxnStatus::Aborted,
    ensures
        n.all_marks_stand(),
{
    assert forall|t: u64, r: u64|
        n.tables.contains_key(t) && #[trigger] n.tables[t].rows.contains_key(r) implies marks_stand(
        n.tables[t].rows[r],
        n.st(),
    ) by {
        let c = n.tables[t].rows[r];
        assert forall|i: int| 0 <= i < c.len() && (#[trigger] c[i]).xmax is Some implies status_of(
            n.st(),
            c[i].xmax->0,
        ) != TxnStatus::Aborted by {
            assert(n.tables[t].rows[r][i] == c[i]);
            let y = c[i].xmax->0;
            if y == txn {
                assert(unmarked(n.chain_of(t, r), txn) || status_of(n.st(), txn)
                    != TxnStatus::Aborted);
            } else {
                assert(marked(m, t, r, y));
                let k = choose|k: int|
                    0 <= k < m.tables[t].rows[r].len() && (#[trigger] m.tables[t].rows[r][k]).xmax
                        == Some(y);
                assert(table_marks_stand(m, t));
                assert(marks_stand(m.tables[t].rows[r], m.st()));
                assert(status_of(m.st(), y) != TxnStatus::Aborted);
            }
        }
    }
    assert forall|t: u64| #[trigger] n.tables.contains_key(t) implies table_marks_stand(n, t) by {}
}

/// A storage without rows carries no mark.
pub proof fn law_fresh_marks_stand(m: StorageModel)
    requires
        forall|t: u64| #[trigger]
            m.tables.contains_key(t) ==> m.tables[t].rows == Map::<u64, Seq<VersionModel>>::empty(),
    ensures
        m.all_marks_stand(),
{
    assert forall|t: u64| #[trigger] m.tables.contains_key(t) implies table_marks_stand(m, t) by {}
}

/// No write of a running transaction leaves the mark of one that rolled back.
pub proof fn law_write_keeps_marks_standing(m: StorageModel, txn: TxnId, step: Step)
    requires
        m.wf(),
        m.all_marks_stand(),
        m.takes(txn, step),
    ensures
        m.stepped(txn, step).all_marks_stand(),
{
    let n = m.stepped(txn, step);
    assert(status_of(n.st(), txn) == TxnStatus::InProgress);
    assert forall|y: TxnId|
        y != txn && #[trigger] status_of(n.st(), y) == TxnStatus::Aborted implies status_of(m.st(), y)
        == TxnStatus::Aborted by {}
    assert forall|t: u64, r: u64, i: int|
        #![trigger n.tables[t].rows[r][i]]
        n.tables.contains_key(t) && n.tables[t].rows.contains_key(r) && 0 <= i
            < n.tables[t].rows[r].len() && n.tables[t].rows[r][i].xmax is Some
            && n.tables[t].rows[r][i].xmax != Some(txn) implies marked(
        m,
        t,
        r,
        n.tables[t].rows[r][i].xmax->0,
    ) by {
        let v = m.tables[t].rows[r][i];
        assert(v.xmax == n.tables[t].rows[r][i].xmax);
        assert(m.tables[t].rows[r][i].xmax == n.tables[t].rows[r][i].xmax);
    }
    lemma_marks_stand(m, n, txn);
}

/// A commit leaves the marks standing.
pub proof fn law_commit_keeps_marks_standing(m: StorageModel, txn: TxnId)
    requires
        m.all_marks_stand(),
    ensures
        m.ended(txn, TxnStatus::Committed).all_marks_stand(),
{
    let n = m.ended(txn, TxnStatus::Committed);
    lemma_same_marks(m, n, txn);
    assert(status_of(n.st(), txn) == TxnStatus::Committed);
    assert forall|y: TxnId|
        y != txn && #[trigger] status_of(n.st(), y) == TxnStatus::Aborted implies status_of(m.st(), y)
        == TxnStatus::Aborted by {}
    lemma_marks_stand(m, n, txn);
}

/// The same tables carry the same marks.
proof fn lemma_same_marks(m: StorageModel, n: StorageModel, txn: TxnId)
    requires
        n.tables == m.tables,
    ensures
        no_new_marks(m, n, txn),
{
    assert forall|t: u64, r: u64, i: int|
        #![trigger n.tables[t].rows[r][i]]
        n.tables.contains_key(t) && n.tables[t].rows.contains_key(r) && 0 <= i
            < n.tables[t].rows[r].len() && n.tables[t].rows[r][i].xmax is Some
            && n.tables[t].rows[r][i].xmax != Some(txn) implies marked(
        m,
        t,
        r,
        n.tables[t].rows[r][i].xmax->0,
    ) by {
        assert(m.tables[t].rows[r][i].xmax == n.tables[t].rows[r][i].xmax);
    }
}

/// Undoing leaves no new mark.
proof fn lemma_undo_marks(m: StorageModel, txn: TxnId, ws: Seq<UndoEntry>)
    ensures
        no_new_marks(m, m.all_undone(txn, ws), txn),
        m.all_undone(txn, ws).txns == m.txns,
    decreases ws.len(),
{
    let n = m.all_undone(txn, ws);
    if ws.len() == 0 || m.undo_fails(txn, ws.last()) {
        lemma_same_marks(m, n, txn);
    } else {
        let e = ws.last();
        let k = m.undone(txn, e);
        lemma_undo_marks(k, txn, ws.drop_last());
        assert forall|t: u64, r: u64, i: int|
            #![trigger n.tables[t].rows[r][i]]
            n.tables.contains_key(t) && n.tables[t].rows.contains_key(r) && 0 <= i
                < n.tables[t].rows[r].len() && n.tables[t].rows[r][i].xmax is Some
                && n.tables[t].rows[r][i].xmax != Some(txn) implies marked(
            m,
            t,
            r,
            n.tables[t].rows[r][i].xmax->0,
        ) by {
            let y = n.tables[t].rows[r][i].xmax->0;
            assert(marked(k, t, r, y));
            let x = choose|x: int|
                0 <= x < k.tables[t].rows[r].len() && (#[trigger] k.tables[t].rows[r][x]).xmax
                    == Some(y);
            assert(m.tables[t].rows[r][x].xmax == Some(y));
        }
    }
}

/// A rollback leaves no mark of its transaction, so the marks stand.
pub proof fn law_rollback_keeps_marks_standing(m: StorageModel, txn: TxnId)
    requires
        m.wf(),
        m.undoable(),
        m.all_marks_stand(),
        !m.finished(txn),
        m.known_or_new(txn),
    ensures
        m.ended(txn, TxnStatus::Aborted).all_undone(txn, m.writes_of(txn)).all_marks_stand(),
{
    let a = m.ended(txn, TxnStatus::Aborted);
    let n = a.all_undone(txn, m.writes_of(txn));
    law_rollback_never_fails(m, txn);
    lemma_undo_marks(a, txn, m.writes_of(txn));
    assert forall|t: u64, r: u64, i: int|
        #![trigger n.tables[t].rows[r][i]]
        n.tables.contains_key(t) && n.tables[t].rows.contains_key(r) && 0 <= i
            < n.tables[t].rows[r].len() && n.tables[t].rows[r][i].xmax is Some
            && n.tables[t].rows[r][i].xmax != Some(txn) implies marked(
        m,
        t,
        r,
        n.tables[t].rows[r][i].xmax->0,
    ) by {
        let y = n.tables[t].rows[r][i].xmax->0;
        assert(marked(a, t, r, y));
        let x = choose|x: int|
            0 <= x < a.tables[t].rows[r].len() && (#[trigger] a.tables[t].rows[r][x]).xmax == Some(y);
        assert(m.tables[t].rows[r][x].xmax == Some(y));
    }
    assert forall|y: TxnId|
        y != txn && #[trigger] status_of(n.st(), y) == TxnStatus::Aborted implies status_of(m.st(), y)
        == TxnStatus::Aborted by {}
    lemma_marks_stand(m, n, txn);
}

/// A rollback to a savepoint leaves the marks standing.
pub proof fn law_rollback_to_keeps_marks_standing(m: StorageModel, txn: TxnId, i: int)
    requires
        m.all_marks_stand(),
        m.txns.contains_key(txn.0),
        !m.finished(txn),
    ensures
        m.cut_at(txn, i).all_undone(txn, m.writes_after(txn, i)).all_marks_stand(),
{
    let c = m.cut_at(txn, i);
    let n = c.all_undone(txn, m.writes_after(txn, i));
    lemma_undo_marks(c, txn, m.writes_after(txn, i));
    assert(c.st() =~= m.st());
    assert(c.all_marks_stand()) by {
        assert forall|t: u64| #[trigger] c.tables.contains_key(t) implies table_marks_stand(c, t) by {
            assert(m.tables.contains_key(t));
            assert(table_marks_stand(m, t));
        }
    }
    assert(status_of(n.st(), txn) == TxnStatus::InProgress);
    lemma_marks_stand(c, n, txn);
}

/// Creating and dropping databases, tables and indexes leaves the marks standing: a new table has no
/// rows, the others keep theirs.
pub proof fn law_definitions_keep_marks_standing(m: StorageModel, n: StorageModel)
    requires
        m.all_marks_stand(),
        n.txns == m.txns,
        forall|t: u64| #[trigger]
            n.tables.contains_key(t) ==> n.tables[t].rows == Map::<u64, Seq<VersionModel>>::empty()
                || m.tables.contains_key(t) && n.tables[t].rows == m.tables[t].rows,
    ensures
        n.all_marks_stand(),
{
    assert forall|t: u64| #[trigger] n.tables.contains_key(t) implies table_marks_stand(n, t) by {
        if m.tables.contains_key(t) && n.tables[t].rows == m.tables[t].rows {
            assert(table_marks_stand(m, t));
        }
    }
}

/// A vacuum leaves the marks standing.
pub proof fn law_vacuum_keeps_marks_standing(m: StorageModel, horizon: TxnId)
    requires
        m.all_marks_stand(),
    ensures
        m.vacuumed(horizon).all_marks_stand(),
{
    let n = m.vacuumed(horizon);
    assert forall|t: u64| #[trigger] n.tables.contains_key(t) implies table_marks_stand(n, t) by {
        assert(m.tables.contains_key(t));
        assert(m.tables.dom().contains(t));
        assert forall|r: u64| #[trigger] n.tables[t].rows.contains_key(r) implies marks_stand(
            n.tables[t].rows[r],
            n.st(),
        ) by {
            assert(m.tables[t].rows.contains_key(r));
            let c = m.tables[t].rows[r];
            let kept = survivors(c, horizon, m.st());
            let pred = |v: VersionModel| !v.dead(horizon, m.st());
            lemma_filter_elements(c, pred);
            assert(marks_stand(c, m.st()));
            assert forall|i: int| 0 <= i < kept.len() && (#[trigger] kept[i]).xmax is Some implies
                status_of(n.st(), kept[i].xmax->0) != TxnStatus::Aborted by {
                assert(kept.contains(kept[i]));
                let k = choose|k: int| 0 <= k < c.len() && c[k] == kept[i];
                assert(c[k].xmax is Some);
                assert(status_of(m.st(), c[k].xmax->0) != TxnStatus::Aborted);
            }
        }
    }
}

} // verus!
