//! Whichever way the running transactions end, the `unique` indexes of a durable table hold: two rows share
//! a key only where one transaction takes the one away and writes the other.

use vstd::prelude::*;

use super::ends::Step;
use super::journal::JournalModel;
use super::rows::is_row_outcome;
use super::storage::DiskModel;
use super::table_model::{data_of, HeapTableModel, RowUndo};
use super::unique_laws::{
    law_accepted_key_is_free, lemma_fresh_reads_back, lemma_same_key_flips,
    lemma_write_rolls_nothing_back, rolled_back, running, same_key_in,
};
use super::wal::WalRecordKind;
use crate::error::SqlResult;
use crate::ids::{RowId, TableId, TxnId};
use crate::shape::{IndexShapeModel, TableShapeModel};
use crate::snapshot::{status_of, Snapshot, TxnStatus};
use crate::snapshot_laws::{law_settled_is_own_or_committed_before, taken_after};
use crate::value::ValueModel;

verus! {

impl HeapTableModel {
    /// Whether a version may yet be the one that is left: its creator has not rolled back, and nothing
    /// took it away but perhaps a transaction that is still running.
    pub open spec fn may_stay(self, j: JournalModel, k: (u64, u64)) -> bool {
        &&& self.contents.contains_key(k)
        &&& !rolled_back(j, self.contents[k].header.xmin)
        &&& self.contents[k].header.xmax matches Some(x) ==> running(j, x)
    }

    /// Whether two rows share a key of `def`, in versions that may stay, only where one running
    /// transaction took the one away and wrote the other.
    pub open spec fn keys_apart(
        self,
        j: JournalModel,
        def: IndexShapeModel,
        shape: TableShapeModel,
    ) -> bool {
        forall|a: (u64, u64), b: (u64, u64)|
            #![trigger self.may_stay(j, a), self.may_stay(j, b)]
            a.0 != b.0 && self.may_stay(j, a) && self.may_stay(j, b) && same_key_in(
                data_of(self.contents[a]),
                data_of(self.contents[b]),
                def.columns,
                shape,
            ) ==> self.contents[a].header.xmax == Some(self.contents[b].header.xmin)
                || self.contents[b].header.xmax == Some(self.contents[a].header.xmin)
    }

    /// Whether a transaction the journal knows nothing of took no version away.
    pub open spec fn new_took_nothing(self, j: JournalModel, txn: TxnId) -> bool {
        forall|k: (u64, u64)| #[trigger]
            self.contents.contains_key(k) && !j.txns.contains_key(txn.0)
                ==> self.contents[k].header.xmax != Some(txn)
    }
}

impl DiskModel {
    /// Whether the keys of every `unique` index are apart.
    pub open spec fn live_keys_apart(self) -> bool {
        forall|x: u64| #[trigger]
            self.indexes.contains_key(x) && self.indexes[x].shape.unique ==> self.store(
                self.indexes[x].table,
            ).keys_apart(self.journal, self.indexes[x].shape, self.shape_of(self.indexes[x].table))
    }

    /// Whether a transaction the journal knows nothing of took no version away in any table.
    pub open spec fn new_wrote_nothing(self, txn: TxnId) -> bool {
        forall|t: u64| #[trigger]
            self.tables.contains_key(t) ==> self.rows_of(t).new_took_nothing(self.journal, txn)
    }
}

/// Where the keys of the versions that may stay are apart, no two rows hold the same key in versions that
/// stand.
pub proof fn law_keys_apart_differ(m: DiskModel)
    requires
        m.live_keys_apart(),
    ensures
        m.unique_keys_differ(),
{
    assert forall|x: u64| #[trigger]
        m.indexes.contains_key(x) && m.indexes[x].shape.unique implies m.store(
        m.indexes[x].table,
    ).keys_differ(m.journal, m.indexes[x].shape, m.shape_of(m.indexes[x].table)) by {
        let t = m.store(m.indexes[x].table);
        let j = m.journal;
        assert forall|a: (u64, u64), b: (u64, u64)|
            #![trigger t.stands(j, a), t.stands(j, b)]
            a.0 != b.0 && t.stands(j, a) && t.stands(j, b) implies !same_key_in(
            data_of(t.contents[a]),
            data_of(t.contents[b]),
            m.indexes[x].shape.columns,
            m.shape_of(m.indexes[x].table),
        ) by {
            assert(t.may_stay(j, a) && t.may_stay(j, b));
        }
    }
}

/// Whether the version `k` of `u` comes from that of `t`: of the same creator and columns, still taken
/// away by whom it was, unless that one rolled back.
spec fn comes_from(
    t: HeapTableModel,
    j: JournalModel,
    u: HeapTableModel,
    k: JournalModel,
    a: (u64, u64),
) -> bool {
    &&& t.may_stay(j, a)
    &&& t.contents[a].columns == u.contents[a].columns
    &&& t.contents[a].header.xmin == u.contents[a].header.xmin
    &&& t.contents[a].header.xmax matches Some(x) ==> u.contents[a].header.xmax == Some(x)
        || rolled_back(k, x)
}

/// What comes from versions whose keys are apart has keys that are apart, and so has one more version
/// that shares its key with none but those its own creator took away.
proof fn lemma_apart(
    t: HeapTableModel,
    j: JournalModel,
    u: HeapTableModel,
    k: JournalModel,
    fresh: Option<(u64, u64)>,
    def: IndexShapeModel,
    shape: TableShapeModel,
)
    requires
        t.keys_apart(j, def, shape),
        forall|a: (u64, u64)| #[trigger]
            u.may_stay(k, a) ==> fresh == Some(a) || comes_from(t, j, u, k, a),
        forall|a: (u64, u64)| #[trigger]
            u.may_stay(k, a) && fresh is Some && a.0 != (fresh->0).0 && same_key_in(
                data_of(u.contents[a]),
                data_of(u.contents[fresh->0]),
                def.columns,
                shape,
            ) ==> u.contents[a].header.xmax == Some(u.contents[fresh->0].header.xmin),
    ensures
        u.keys_apart(k, def, shape),
{
    assert forall|a: (u64, u64), b: (u64, u64)|
        #![trigger u.may_stay(k, a), u.may_stay(k, b)]
        a.0 != b.0 && u.may_stay(k, a) && u.may_stay(k, b) && same_key_in(
            data_of(u.contents[a]),
            data_of(u.contents[b]),
            def.columns,
            shape,
        ) implies u.contents[a].header.xmax == Some(u.contents[b].header.xmin)
        || u.contents[b].header.xmax == Some(u.contents[a].header.xmin) by {
        lemma_same_key_flips(data_of(u.contents[a]), data_of(u.contents[b]), def.columns, shape);
        if fresh != Some(a) && fresh != Some(b) {
            assert(comes_from(t, j, u, k, a) && comes_from(t, j, u, k, b));
            assert(t.may_stay(j, a) && t.may_stay(j, b));
            assert(data_of(t.contents[a]) == data_of(u.contents[a]));
            assert(data_of(t.contents[b]) == data_of(u.contents[b]));
        }
    }
}

/// Keys apart in the one table that changed, and in the others as they were, are apart.
proof fn lemma_apart_elsewhere(m: DiskModel, n: DiskModel, table: TableId, txn: TxnId)
    requires
        m.wf(),
        m.has_table(table),
        m.same_but(n, table),
        m.live_keys_apart(),
        m.new_wrote_nothing(txn),
        forall|x: TxnId| #[trigger] rolled_back(n.journal, x) == rolled_back(m.journal, x),
        forall|x: TxnId|
            x != txn || m.journal.txns.contains_key(txn.0) ==> #[trigger] running(n.journal, x)
                == running(m.journal, x),
        forall|x: u64| #[trigger]
            m.is_unique_on(x, table) ==> n.store(table).keys_apart(
                n.journal,
                m.indexes[x].shape,
                m.shape_of(table),
            ),
    ensures
        n.live_keys_apart(),
{
    assert forall|x: u64| #[trigger]
        n.indexes.contains_key(x) && n.indexes[x].shape.unique implies n.store(
        n.indexes[x].table,
    ).keys_apart(n.journal, n.indexes[x].shape, n.shape_of(n.indexes[x].table)) by {
        let e = m.indexes[x];
        assert(m.indexes.contains_key(x));
        assert(m.has_table(e.table));
        if e.table == table {
            assert(m.is_unique_on(x, table));
        } else {
            let t = m.store(e.table);
            assert(n.store(e.table) == t);
            assert(t == m.rows_of(e.table.0 as u64));
            assert(t.new_took_nothing(m.journal, txn));
            assert forall|a: (u64, u64)| #[trigger] t.may_stay(n.journal, a) implies comes_from(
                t,
                m.journal,
                t,
                n.journal,
                a,
            ) by {
                assert(t.contents.contains_key(a));
            }
            lemma_apart(t, m.journal, t, n.journal, None, e.shape, m.shape_of(e.table));
        }
    }
}

/// What the journal of a write says of who runs.
proof fn lemma_write_runs(
    j: JournalModel,
    txn: TxnId,
    table: TableId,
    kind: WalRecordKind,
    payload: Seq<u8>,
    x: TxnId,
)
    requires
        !j.finished(txn),
        x != txn || j.txns.contains_key(txn.0),
    ensures
        running(j.noted(txn, table), x) == running(j, x),
        running(j.begun(txn, table), x) == running(j, x),
        running(j.begun(txn, table).logged(kind, txn, payload), x) == running(j, x),
{
}

/// An insert keeps the keys of the versions that may stay apart.
pub proof fn law_insert_keeps_live_keys_apart(
    m: DiskModel,
    n: DiskModel,
    txn: TxnId,
    table: TableId,
    data: Seq<ValueModel>,
    r: SqlResult<RowId>,
)
    requires
        m.wf(),
        m.has_table(table),
        m.reads_whole(table),
        m.live_keys_apart(),
        m.new_wrote_nothing(txn),
        m.store(table).insert_refusal(txn, data.len(), m.journal) is None,
        m.unique_ok(table, txn, data, None),
        m.same_but(n, table),
        is_row_outcome(
            m.store(table).insert_outcome(m.journal, txn, data).drained(),
            n.store(table),
            n.journal,
            r,
        ),
    ensures
        n.live_keys_apart(),
{
    let t = m.store(table);
    let u = n.store(table);
    let j = m.journal;
    let row = RowId(t.next_row_id);
    let fresh = (row.0, t.next_seq);
    let o = t.insert_outcome(j, txn, data);
    let change = t.fresh_change(txn, row, data);
    assert(m.tables[table.0 as u64].store.wf());
    assert(t.wf());
    assert(t == m.rows_of(table.0 as u64));
    assert(t.new_took_nothing(j, txn));
    assert(t.arity == m.shape_of(table).columns.len());
    assert forall|x: TxnId| #[trigger] rolled_back(n.journal, x) == rolled_back(j, x) by {
        lemma_write_rolls_nothing_back(j, txn, t.table, WalRecordKind::Insert, change.encoded(), x);
    }
    assert forall|x: TxnId|
        x != txn || j.txns.contains_key(txn.0) implies #[trigger] running(n.journal, x) == running(
        j,
        x,
    ) by {
        lemma_write_runs(j, txn, t.table, WalRecordKind::Insert, change.encoded(), x);
    }
    let added = if o.error is None {
        Some(fresh)
    } else {
        None
    };
    if o.error is None {
        lemma_fresh_reads_back(t, j.begun(txn, t.table), txn, row, data);
        assert(u.contents == t.contents.insert(fresh, t.fresh(txn, row, data)));
    } else {
        assert(u.contents == t.contents);
    }
    assert forall|a: (u64, u64)| #[trigger] u.may_stay(n.journal, a) implies added == Some(a)
        || comes_from(t, j, u, n.journal, a) by {
        if added != Some(a) {
            assert(t.contents.contains_key(a));
        }
    }
    assert forall|x: u64| #[trigger] m.is_unique_on(x, table) implies u.keys_apart(
        n.journal,
        m.indexes[x].shape,
        m.shape_of(table),
    ) by {
        assert(m.indexes.contains_key(x));
        let def = m.indexes[x].shape;
        assert forall|a: (u64, u64)| #[trigger]
            u.may_stay(n.journal, a) && added is Some && a.0 != (added->0).0 && same_key_in(
                data_of(u.contents[a]),
                data_of(u.contents[added->0]),
                def.columns,
                m.shape_of(table),
            ) implies u.contents[a].header.xmax == Some(u.contents[added->0].header.xmin) by {
            assert(comes_from(t, j, u, n.journal, a));
            if u.contents[a].header.xmax != Some(txn) {
                assert(t.counts(j, txn, a));
                law_accepted_key_is_free(m, table, txn, data, None, x, a);
            }
        }
        lemma_apart(t, j, u, n.journal, added, def, m.shape_of(table));
    }
    lemma_apart_elsewhere(m, n, table, txn);
}

/// An update keeps the keys of the versions that may stay apart.
pub proof fn law_update_keeps_live_keys_apart(
    m: DiskModel,
    n: DiskModel,
    txn: TxnId,
    table: TableId,
    id: RowId,
    data: Seq<ValueModel>,
    r: SqlResult<()>,
)
    requires
        m.wf(),
        m.has_table(table),
        m.reads_whole(table),
        m.live_keys_apart(),
        m.new_wrote_nothing(txn),
        m.store(table).replace_refusal(txn, id, Some(data.len()), m.journal) is None,
        m.unique_ok(table, txn, data, Some(id)),
        m.same_but(n, table),
        is_row_outcome(
            m.store(table).update_outcome(m.journal, txn, id, data).drained(),
            n.store(table),
            n.journal,
            r,
        ),
    ensures
        n.live_keys_apart(),
{
    let t = m.store(table);
    let u = n.store(table);
    let j = m.journal;
    let fresh = (id.0, t.next_seq);
    let old = (id.0, t.current[id.0]);
    let o = t.update_outcome(j, txn, id, data);
    let change = t.fresh_change(txn, id, data);
    assert(m.tables[table.0 as u64].store.wf());
    assert(t.wf());
    assert(t == m.rows_of(table.0 as u64));
    assert(t.new_took_nothing(j, txn));
    assert(t.contents.contains_key(old));
    assert(t.arity == m.shape_of(table).columns.len());
    assert forall|x: TxnId| #[trigger] rolled_back(n.journal, x) == rolled_back(j, x) by {
        lemma_write_rolls_nothing_back(j, txn, t.table, WalRecordKind::Update, change.encoded(), x);
    }
    assert forall|x: TxnId|
        x != txn || j.txns.contains_key(txn.0) implies #[trigger] running(n.journal, x) == running(
        j,
        x,
    ) by {
        lemma_write_runs(j, txn, t.table, WalRecordKind::Update, change.encoded(), x);
    }
    let added = if o.error is None {
        Some(fresh)
    } else {
        None
    };
    if o.error is None {
        lemma_fresh_reads_back(t, j.begun(txn, t.table), txn, id, data);
        assert(u.contents == t.contents.insert(old, t.version(id).with_xmax(Some(txn))).insert(
            fresh,
            t.fresh(txn, id, data),
        ));
    } else {
        assert(u.contents == t.contents);
    }
    assert forall|a: (u64, u64)| #[trigger] u.may_stay(n.journal, a) implies added == Some(a)
        || comes_from(t, j, u, n.journal, a) by {
        if added != Some(a) {
            assert(t.contents.contains_key(a));
        }
    }
    assert forall|x: u64| #[trigger] m.is_unique_on(x, table) implies u.keys_apart(
        n.journal,
        m.indexes[x].shape,
        m.shape_of(table),
    ) by {
        assert(m.indexes.contains_key(x));
        let def = m.indexes[x].shape;
        assert forall|a: (u64, u64)| #[trigger]
            u.may_stay(n.journal, a) && added is Some && a.0 != (added->0).0 && same_key_in(
                data_of(u.contents[a]),
                data_of(u.contents[added->0]),
                def.columns,
                m.shape_of(table),
            ) implies u.contents[a].header.xmax == Some(u.contents[added->0].header.xmin) by {
            assert(comes_from(t, j, u, n.journal, a));
            if u.contents[a].header.xmax != Some(txn) {
                assert(t.counts(j, txn, a));
                law_accepted_key_is_free(m, table, txn, data, Some(id), x, a);
            }
        }
        lemma_apart(t, j, u, n.journal, added, def, m.shape_of(table));
    }
    lemma_apart_elsewhere(m, n, table, txn);
}

/// A delete keeps the keys of the versions that may stay apart.
pub proof fn law_delete_keeps_live_keys_apart(
    m: DiskModel,
    n: DiskModel,
    txn: TxnId,
    table: TableId,
    id: RowId,
    r: SqlResult<()>,
)
    requires
        m.wf(),
        m.has_table(table),
        m.live_keys_apart(),
        m.new_wrote_nothing(txn),
        m.store(table).replace_refusal(txn, id, None, m.journal) is None,
        m.same_but(n, table),
        is_row_outcome(
            m.store(table).delete_outcome(m.journal, txn, id).drained(),
            n.store(table),
            n.journal,
            r,
        ),
    ensures
        n.live_keys_apart(),
{
    let t = m.store(table);
    let u = n.store(table);
    let j = m.journal;
    let payload = t.hidden_change(txn, id).encoded();
    assert(m.tables[table.0 as u64].store.wf());
    assert(t.wf());
    assert(t == m.rows_of(table.0 as u64));
    assert(t.new_took_nothing(j, txn));
    assert forall|x: TxnId| #[trigger] rolled_back(n.journal, x) == rolled_back(j, x) by {
        lemma_write_rolls_nothing_back(j, txn, t.table, WalRecordKind::Delete, payload, x);
    }
    assert forall|x: TxnId|
        x != txn || j.txns.contains_key(txn.0) implies #[trigger] running(n.journal, x) == running(
        j,
        x,
    ) by {
        lemma_write_runs(j, txn, t.table, WalRecordKind::Delete, payload, x);
    }
    assert(t.contents.contains_key((id.0, t.current[id.0])));
    assert forall|a: (u64, u64)| #[trigger] u.may_stay(n.journal, a) implies comes_from(
        t,
        j,
        u,
        n.journal,
        a,
    ) by {
        assert(t.contents.contains_key(a));
    }
    assert forall|x: u64| #[trigger] m.is_unique_on(x, table) implies u.keys_apart(
        n.journal,
        m.indexes[x].shape,
        m.shape_of(table),
    ) by {
        assert(m.indexes.contains_key(x));
        lemma_apart(t, j, u, n.journal, None, m.indexes[x].shape, m.shape_of(table));
    }
    lemma_apart_elsewhere(m, n, table, txn);
}

/// Whether the most recent version of each row is there.
spec fn leads(t: HeapTableModel) -> bool {
    forall|row: u64| #[trigger]
        t.current.contains_key(row) ==> t.contents.contains_key((row, t.current[row]))
}

/// What undoing leaves was there, perhaps taken away by the transaction whose writes are undone.
proof fn lemma_undone_from(t: HeapTableModel, txn: TxnId, ws: Seq<RowUndo>, k: (u64, u64))
    requires
        leads(t),
        t.all_undone(txn, ws).contents.contains_key(k),
    ensures
        t.contents.contains_key(k),
        ({
            let v = t.all_undone(txn, ws).contents[k];
            v == t.contents[k] || t.contents[k].header.xmax == Some(txn) && v
                == t.contents[k].with_xmax(None)
        }),
    decreases ws.len(),
{
    if ws.len() > 0 {
        let u = t.undone(txn, ws.last());
        lemma_one_undone_from(t, txn, ws.last(), k);
        if t.undo_fault(txn, ws.last()) is None {
            lemma_undone_from(u, txn, ws.drop_last(), k);
        }
        if u.contents[k] != t.contents[k] {
            assert(u.contents[k].header.xmax is None);
        }
    }
}

/// What undoing one write leaves was there, perhaps taken away by its transaction.
proof fn lemma_one_undone_from(t: HeapTableModel, txn: TxnId, e: RowUndo, k: (u64, u64))
    requires
        leads(t),
    ensures
        leads(t.undone(txn, e)),
        t.undone(txn, e).contents.contains_key(k) ==> t.contents.contains_key(k) && (t.undone(
            txn,
            e,
        ).contents[k] == t.contents[k] || t.contents[k].header.xmax == Some(txn) && t.undone(
            txn,
            e,
        ).contents[k] == t.contents[k].with_xmax(None)),
{
    match e {
        RowUndo::Insert(_) => {},
        RowUndo::Update(row) => {
            let u = t.without_tail(row);
            if t.take_fault(txn, row) is None && u.under_fault(txn, row) is None {
                let p = super::table_model::latest(u.contents, row.0)->0;
                assert(super::redo::is_previous(u.contents, row.0, u64::MAX, p));
            }
        },
        RowUndo::Delete(_) => {},
    }
}

/// The end of a transaction keeps the keys of the versions that may stay apart: what a rollback gives back
/// clashes with nothing that others wrote meanwhile.
pub proof fn law_end_keeps_live_keys_apart(
    m: DiskModel,
    n: DiskModel,
    txn: TxnId,
    kind: WalRecordKind,
)
    requires
        m.wf(),
        kind == WalRecordKind::Commit || kind == WalRecordKind::Abort,
        m.live_keys_apart(),
        m.new_wrote_nothing(txn),
        m.end_result(n, txn, kind, Ok(())),
    ensures
        n.live_keys_apart(),
{
    let j = m.journal;
    let status = super::journal::end_status(kind);
    let list = choose|list: Seq<u64>| #[trigger]
        m.wrote_in(txn, list) && m.walks(n, list, list.len() as int, Step::End(txn, status));
    assert forall|x: u64| #[trigger]
        n.indexes.contains_key(x) && n.indexes[x].shape.unique implies n.store(
        n.indexes[x].table,
    ).keys_apart(n.journal, n.indexes[x].shape, n.shape_of(n.indexes[x].table)) by {
        let e = m.indexes[x];
        assert(m.indexes.contains_key(x));
        assert(m.has_table(e.table));
        let key = e.table.0 as u64;
        assert(m.tables.contains_key(key));
        let t = m.store(e.table);
        let u = n.store(e.table);
        assert(t == m.rows_of(key));
        assert(t.new_took_nothing(j, txn));
        assert(m.tables[key].store.wf());
        assert forall|a: (u64, u64)| #[trigger] u.may_stay(n.journal, a) implies comes_from(
            t,
            j,
            u,
            n.journal,
            a,
        ) by {
            let cut = t.cut(txn, 0);
            if status == TxnStatus::Aborted && u != t {
                assert(leads(cut));
                lemma_undone_from(cut, txn, t.writes_of(txn), a);
            }
            assert(t.contents.contains_key(a));
        }
        lemma_apart(t, j, u, n.journal, None, e.shape, m.shape_of(e.table));
    }
}

/// Whether a snapshot was taken after every transaction that committed and took a version away, and its
/// reader has not rolled back.
pub open spec fn up_to_date(t: HeapTableModel, j: JournalModel, snap: Snapshot) -> bool {
    &&& !rolled_back(j, snap.own)
    &&& forall|k: (u64, u64)| #[trigger]
        t.contents.contains_key(k) && t.contents[k].header.xmax is Some && (j.txns.contains_key(
            (t.contents[k].header.xmax->0).0,
        ) ==> j.txns[(t.contents[k].header.xmax->0).0].status == TxnStatus::Committed)
            ==> taken_after(snap, t.contents[k].header.xmax->0)
}

/// A snapshot that is up to date never sees two rows with the same key of a `unique` index, whatever
/// transactions are running.
pub proof fn law_each_key_is_seen_once(
    m: DiskModel,
    snap: Snapshot,
    x: u64,
    a: (u64, u64),
    b: (u64, u64),
)
    requires
        m.live_keys_apart(),
        m.indexes.contains_key(x),
        m.indexes[x].shape.unique,
        up_to_date(m.store(m.indexes[x].table), m.journal, snap),
        a.0 != b.0,
        m.store(m.indexes[x].table).sees(snap, m.journal.st(), a),
        m.store(m.indexes[x].table).sees(snap, m.journal.st(), b),
        m.store(m.indexes[x].table).contents[a].header.xmax matches Some(y) ==> !rolled_back(
            m.journal,
            y,
        ),
        m.store(m.indexes[x].table).contents[b].header.xmax matches Some(y) ==> !rolled_back(
            m.journal,
            y,
        ),
    ensures
        !same_key_in(
            data_of(m.store(m.indexes[x].table).contents[a]),
            data_of(m.store(m.indexes[x].table).contents[b]),
            m.indexes[x].shape.columns,
            m.shape_of(m.indexes[x].table),
        ),
{
    let t = m.store(m.indexes[x].table);
    lemma_seen_may_stay(t, m.journal, snap, a);
    lemma_seen_may_stay(t, m.journal, snap, b);
    assert(t.keys_apart(m.journal, m.indexes[x].shape, m.shape_of(m.indexes[x].table)));
}

/// A version that is seen may stay, and who may yet take it away is not its reader and wrote nothing the
/// reader sees.
proof fn lemma_seen_may_stay(t: HeapTableModel, j: JournalModel, snap: Snapshot, k: (u64, u64))
    requires
        up_to_date(t, j, snap),
        t.sees(snap, j.st(), k),
        t.contents[k].header.xmax matches Some(y) ==> !rolled_back(j, y),
    ensures
        t.may_stay(j, k),
        t.contents[k].header.xmax matches Some(y) ==> forall|c: (u64, u64)| #[trigger]
            t.sees(snap, j.st(), c) ==> t.contents[c].header.xmin != y,
{
    let h = t.contents[k].header;
    law_settled_is_own_or_committed_before(snap, h.xmin, status_of(j.st(), h.xmin));
    if let Some(y) = h.xmax {
        law_settled_is_own_or_committed_before(snap, y, status_of(j.st(), y));
        assert forall|c: (u64, u64)| #[trigger] t.sees(snap, j.st(), c) implies
            t.contents[c].header.xmin != y by {}
    }
}

} // verus!
