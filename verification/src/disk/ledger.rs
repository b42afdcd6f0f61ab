//! What ties a table to its journal: which record created each version, which record hid it, and
//! that replaying any choice of whole transactions gives back their versions.

use vstd::prelude::*;

use super::contents::StoredModel;
use super::journal::JournalModel;
use super::recover::is_row;
use super::redo::{change_key, replayed};
use super::table_model::{HeapTableModel, RowUndo};
use super::wal::{RecordModel, WalRecordKind};
use super::wal_payload::{change_of, PREFIX_LEN};
use crate::ids::{TableId, TxnId};
use crate::snapshot::{status_of, TxnStatus};

verus! {

/// Which records stand behind the versions of a table.
#[verifier::ext_equal]
pub struct Ledger {
    /// The number of the record that created each version.
    pub born: Map<(u64, u64), u64>,
    /// The number of the record that hid each hidden version.
    pub hid: Map<(u64, u64), u64>,
    /// The version each update record hid.
    pub replaced: Map<u64, (u64, u64)>,
    /// The records of each running transaction, one for each write of its undo log.
    pub alive: Map<u64, Seq<u64>>,
}

impl Ledger {
    /// The records of a running transaction, one for each write of its undo log.
    pub open spec fn alive_of(self, txn: TxnId) -> Seq<u64> {
        if self.alive.contains_key(txn.0) {
            self.alive[txn.0]
        } else {
            Seq::empty()
        }
    }
}

/// The records carry the numbers 1, 2, 3 and so on.
pub open spec fn numbered(log: Seq<RecordModel>) -> bool {
    forall|i: int| 0 <= i < log.len() ==> (#[trigger] log[i]).lsn.0 == i + 1
}

/// The record of a number.
pub open spec fn record_of(log: Seq<RecordModel>, lsn: u64) -> RecordModel {
    log[lsn - 1]
}

/// Whether the record `lsn` is a row record of `table` of the kind `kind` on the version `key`.
pub open spec fn writes_key(
    log: Seq<RecordModel>,
    table: TableId,
    lsn: u64,
    kind: WalRecordKind,
    key: (u64, u64),
) -> bool {
    let r = record_of(log, lsn);
    &&& 1 <= lsn <= log.len()
    &&& r.kind == kind
    &&& r.payload.len() >= PREFIX_LEN
    &&& change_of(r.payload).table == table
    &&& change_key(change_of(r.payload)) == key
}

/// What the row records of `table` among the first `n` leave, those of `kept` alone replayed.
pub open spec fn table_redo(
    log: Seq<RecordModel>,
    n: int,
    table: TableId,
    kept: Set<u64>,
) -> Option<Map<(u64, u64), StoredModel>>
    decreases n,
{
    if n <= 0 {
        Some(Map::empty())
    } else {
        match table_redo(log, n - 1, table, kept) {
            None => None,
            Some(c) => {
                let r = log[n - 1];
                let change = change_of(r.payload);
                if is_row(r.kind) && change.table == table && kept.contains(r.lsn.0) {
                    match replayed(c, r.kind, change, r.txn) {
                        Some((after, _)) => Some(after),
                        None => None,
                    }
                } else {
                    Some(c)
                }
            },
        }
    }
}

/// The versions whose creating record is in `kept`, hidden where the hiding record is.
pub open spec fn project(
    c: Map<(u64, u64), StoredModel>,
    g: Ledger,
    kept: Set<u64>,
) -> Map<(u64, u64), StoredModel> {
    Map::new(
        |k: (u64, u64)| c.contains_key(k) && kept.contains(g.born[k]),
        |k: (u64, u64)|
            if c[k].header.xmax is Some && kept.contains(g.hid[k]) {
                c[k]
            } else {
                c[k].with_xmax(None)
            },
    )
}

/// Whether `txn` committed.
pub open spec fn committed(j: JournalModel, txn: TxnId) -> bool {
    status_of(j.st(), txn) == TxnStatus::Committed
}

/// Whether `txn` is registered and was not rolled back.
pub open spec fn standing(j: JournalModel, txn: TxnId) -> bool {
    j.txns.contains_key(txn.0) && j.txns[txn.0].status != TxnStatus::Aborted
}

/// A choice of records to replay: every record of a committed transaction that still stands, and
/// of each running transaction the records up to some point.
pub open spec fn admissible(t: HeapTableModel, j: JournalModel, g: Ledger, kept: Set<u64>) -> bool {
    &&& forall|k: (u64, u64)| #[trigger]
        t.contents.contains_key(k) && committed(j, t.contents[k].header.xmin) ==> kept.contains(
            g.born[k],
        )
    &&& forall|k: (u64, u64)|
        #![trigger g.hid.contains_key(k)]
        g.hid.contains_key(k) && committed(j, t.contents[k].header.xmax->0) ==> kept.contains(
            g.hid[k],
        )
    &&& forall|l: u64| #[trigger] kept.contains(l) ==> stands_behind(t, g, l)
    &&& forall|txn: TxnId, a: int, b: int|
        #![trigger g.alive_of(txn)[a], g.alive_of(txn)[b]]
        0 <= a < b < g.alive_of(txn).len() && kept.contains(g.alive_of(txn)[b]) ==> kept.contains(
            g.alive_of(txn)[a],
        )
}

/// Whether the record `l` created or hid a version.
pub open spec fn stands_behind(t: HeapTableModel, g: Ledger, l: u64) -> bool {
    ||| exists|k: (u64, u64)| #[trigger] t.contents.contains_key(k) && g.born[k] == l
    ||| exists|k: (u64, u64)| #[trigger] g.hid.contains_key(k) && g.hid[k] == l
}

/// Every version has the record that created it, and every hidden one the record that hid it.
pub open spec fn backed(t: HeapTableModel, j: JournalModel, g: Ledger) -> bool {
    &&& forall|k: (u64, u64)| #[trigger]
        t.contents.contains_key(k) ==> {
            let r = record_of(j.log, g.born[k]);
            let change = change_of(r.payload);
            &&& writes_key(j.log, t.table, g.born[k], WalRecordKind::Insert, k) || writes_key(
                j.log,
                t.table,
                g.born[k],
                WalRecordKind::Update,
                k,
            )
            &&& r.txn == t.contents[k].header.xmin
            &&& standing(j, r.txn)
            &&& (t.contents[k].header.xmax is Some <==> g.hid.contains_key(k))
            &&& !committed(j, r.txn) ==> g.alive_of(r.txn).contains(g.born[k])
        }
    &&& forall|k: (u64, u64)| #[trigger]
        g.hid.contains_key(k) ==> {
            let r = record_of(j.log, g.hid[k]);
            let xmin = t.contents[k].header.xmin;
            &&& t.contents.contains_key(k)
            &&& t.contents[k].header.xmax == Some(r.txn)
            &&& standing(j, r.txn)
            &&& g.born[k] < g.hid[k]
            &&& xmin == r.txn || committed(j, xmin)
            &&& !committed(j, r.txn) ==> g.alive_of(r.txn).contains(g.hid[k])
            &&& ({
                ||| writes_key(j.log, t.table, g.hid[k], WalRecordKind::Delete, k) && t.current[k.0]
                    == k.1
                ||| {
                    let next = change_key(change_of(r.payload));
                    &&& writes_key(j.log, t.table, g.hid[k], WalRecordKind::Update, next)
                    &&& next.0 == k.0 && k.1 < next.1
                    &&& t.contents.contains_key(next) && g.born[next] == g.hid[k]
                    &&& g.replaced.contains_key(g.hid[k]) && g.replaced[g.hid[k]] == k
                }
            })
        }
}

/// The chains: the records of a row come in the order of its serials, each version but the first
/// is the work of an update, each but the last is hidden, and the last one is current.
pub open spec fn chained(t: HeapTableModel, j: JournalModel, g: Ledger) -> bool {
    &&& forall|a: (u64, u64), b: (u64, u64)|
        #![trigger t.contents.contains_key(a), t.contents.contains_key(b)]
        t.contents.contains_key(a) && t.contents.contains_key(b) && a.0 == b.0 && a.1 < b.1 ==> {
            &&& g.born[a] < g.born[b]
            &&& g.hid.contains_key(a)
            &&& g.hid[a] <= g.born[b]
            &&& record_of(j.log, g.born[b]).kind == WalRecordKind::Update
            &&& t.contents[a].header.xmin == t.contents[b].header.xmin || committed(
                j,
                t.contents[a].header.xmin,
            )
        }
    &&& forall|k: (u64, u64)| #[trigger]
        t.contents.contains_key(k) ==> t.current.contains_key(k.0) && k.1 <= t.current[k.0]
}

/// Whether the record `l` is the one of an undo entry.
pub open spec fn entry_backed(
    t: HeapTableModel,
    j: JournalModel,
    g: Ledger,
    entry: RowUndo,
    l: u64,
) -> bool {
    let key = change_key(change_of(record_of(j.log, l).payload));
    match entry {
        RowUndo::Insert(row) => {
            &&& writes_key(j.log, t.table, l, WalRecordKind::Insert, key)
            &&& key.0 == row.0
            &&& t.contents.contains_key(key)
            &&& g.born[key] == l
        },
        RowUndo::Update(row) => {
            &&& writes_key(j.log, t.table, l, WalRecordKind::Update, key)
            &&& key.0 == row.0
            &&& t.contents.contains_key(key)
            &&& g.born[key] == l
            &&& g.replaced.contains_key(l)
            &&& g.replaced[l].0 == row.0
            &&& g.hid.contains_key(g.replaced[l])
            &&& g.hid[g.replaced[l]] == l
        },
        RowUndo::Delete(row) => {
            &&& writes_key(j.log, t.table, l, WalRecordKind::Delete, key)
            &&& key.0 == row.0
            &&& g.hid.contains_key(key)
            &&& g.hid[key] == l
        },
    }
}

/// The undo logs: one record for each entry, in order, of a transaction still running.
pub open spec fn undo_backed(t: HeapTableModel, j: JournalModel, g: Ledger) -> bool {
    &&& forall|txn: TxnId| #[trigger] g.alive_of(txn).len() == t.writes_of(txn).len()
    &&& forall|txn: TxnId, i: int|
        #![trigger g.alive_of(txn)[i]]
        0 <= i < g.alive_of(txn).len() ==> {
            &&& entry_backed(t, j, g, t.writes_of(txn)[i], g.alive_of(txn)[i])
            &&& record_of(j.log, g.alive_of(txn)[i]).txn == txn
            &&& standing(j, txn) && !committed(j, txn)
        }
    &&& forall|txn: TxnId, a: int, b: int|
        #![trigger g.alive_of(txn)[a], g.alive_of(txn)[b]]
        0 <= a < b < g.alive_of(txn).len() ==> g.alive_of(txn)[a] < g.alive_of(txn)[b]
}

/// Replaying any admissible choice of records gives the versions it stands behind.
pub open spec fn replays_back(t: HeapTableModel, j: JournalModel, g: Ledger) -> bool {
    forall|kept: Set<u64>| #[trigger]
        admissible(t, j, g, kept) ==> table_redo(j.log, j.log.len() as int, t.table, kept) == Some(
            project(t.contents, g, kept),
        )
}

/// The rows were handed out.
pub open spec fn rows_given(t: HeapTableModel) -> bool {
    forall|k: (u64, u64)| #[trigger] t.contents.contains_key(k) ==> k.0 < t.next_row_id
}

/// Whether the journal accounts for the table, the ledger telling how.
pub open spec fn accounts(t: HeapTableModel, j: JournalModel, g: Ledger) -> bool {
    &&& t.whole()
    &&& rows_given(t)
    &&& numbered(j.log)
    &&& j.log.len() <= u64::MAX
    &&& backed(t, j, g)
    &&& chained(t, j, g)
    &&& undo_backed(t, j, g)
    &&& replays_back(t, j, g)
}

/// A replay depends on the kept numbers it can meet alone, and on the records it walks alone.
pub proof fn lemma_redo_same(
    a: Seq<RecordModel>,
    b: Seq<RecordModel>,
    n: int,
    table: TableId,
    ka: Set<u64>,
    kb: Set<u64>,
)
    requires
        0 <= n <= a.len(),
        n <= b.len(),
        numbered(a),
        forall|i: int| 0 <= i < n ==> a[i] == b[i],
        forall|l: u64| l <= n ==> (#[trigger] ka.contains(l) <==> kb.contains(l)),
    ensures
        table_redo(a, n, table, ka) == table_redo(b, n, table, kb),
    decreases n,
{
    if n > 0 {
        lemma_redo_same(a, b, n - 1, table, ka, kb);
        assert(a[n - 1] == b[n - 1]);
        assert(a[n - 1].lsn.0 == n);
    }
}

} // verus!
