//! What the end of a transaction and the definitions leave in the journal.

use vstd::prelude::*;

use super::journal::JournalModel;
use super::storage::{Counter, DiskModel};
use super::wal::WalRecordKind;
use crate::error::SqlResult;
use crate::ids::TxnId;
use crate::snapshot::TxnStatus;

verus! {

/// A transaction that wrote and commits has a `Commit` at the end of the journal, and every record up to
/// it is durable; one that wrote nothing leaves the journal alone. Either way it is committed from then
/// on, and no other transaction changes.
pub proof fn law_commit_is_durable_at_once(
    m: DiskModel,
    n: DiskModel,
    txn: TxnId,
    other: TxnId,
    r: SqlResult<()>,
)
    requires
        m.end_result(n, txn, WalRecordKind::Commit, r),
        r is Ok,
    ensures
        m.journal.txns.contains_key(txn.0) ==> m.journal.txns[txn.0].status
            == TxnStatus::InProgress,
        n.journal.txns.contains_key(txn.0),
        n.journal.txns[txn.0].status == TxnStatus::Committed,
        m.journal.record(txn).began ==> {
            &&& n.journal.log.len() == m.journal.log.len() + 1
            &&& n.journal.log.last().kind == WalRecordKind::Commit
            &&& n.journal.log.last().txn == txn
            &&& n.journal.log.len() <= u64::MAX ==> n.journal.durable.0 == n.journal.log.len()
        },
        !m.journal.record(txn).began ==> n.journal.log == m.journal.log,
        forall|i: int| 0 <= i < m.journal.log.len() ==> #[trigger] n.journal.log[i]
            == m.journal.log[i],
        other != txn ==> n.journal.txns.contains_key(other.0) == m.journal.txns.contains_key(
            other.0,
        ),
        other != txn && m.journal.txns.contains_key(other.0) ==> n.journal.txns[other.0]
            == m.journal.txns[other.0],
        n.databases == m.databases,
        n.indexes == m.indexes,
        n.control == m.control,
{
}

/// A transaction that wrote and rolls back has an `Abort` at the end of the journal and is rolled back
/// from then on; no other transaction changes.
pub proof fn law_rollback_is_recorded(
    m: DiskModel,
    n: DiskModel,
    txn: TxnId,
    other: TxnId,
    r: SqlResult<()>,
)
    requires
        m.end_result(n, txn, WalRecordKind::Abort, r),
        r is Ok,
    ensures
        m.journal.txns.contains_key(txn.0) ==> m.journal.txns[txn.0].status
            == TxnStatus::InProgress,
        n.journal.txns.contains_key(txn.0),
        n.journal.txns[txn.0].status == TxnStatus::Aborted,
        m.journal.record(txn).began ==> {
            &&& n.journal.log.len() == m.journal.log.len() + 1
            &&& n.journal.log.last().kind == WalRecordKind::Abort
            &&& n.journal.log.last().txn == txn
        },
        !m.journal.record(txn).began ==> n.journal.log == m.journal.log,
        forall|i: int| 0 <= i < m.journal.log.len() ==> #[trigger] n.journal.log[i]
            == m.journal.log[i],
        other != txn && m.journal.txns.contains_key(other.0) ==> n.journal.txns[other.0]
            == m.journal.txns[other.0],
        n.databases == m.databases,
        n.indexes == m.indexes,
        n.control == m.control,
{
}

/// A transaction that is over does not end again: the call is refused, and no row, definition or record
/// changes.
pub proof fn law_transaction_ends_once(
    m: DiskModel,
    n: DiskModel,
    txn: TxnId,
    kind: WalRecordKind,
    r: SqlResult<()>,
)
    requires
        m.end_result(n, txn, kind, r),
        m.journal.txns.contains_key(txn.0),
        m.journal.txns[txn.0].status != TxnStatus::InProgress,
    ensures
        r is Err,
        n.tables == m.tables,
        n.databases == m.databases,
        n.indexes == m.indexes,
        n.journal.log == m.journal.log,
        n.journal.txns[txn.0].status == m.journal.txns[txn.0].status,
{
}

/// A definition is durable as soon as it is recorded, behind every record there was.
pub proof fn law_definition_is_durable_at_once(
    m: DiskModel,
    kind: WalRecordKind,
    payload: Seq<u8>,
)
    requires
        !m.journal.refuses(payload.len()),
        m.journal.log.len() <= u64::MAX,
    ensures
        ({
            let n = m.recorded(kind, payload);
            &&& n.journal.log.len() == m.journal.log.len() + 1
            &&& n.journal.log.last().kind == kind
            &&& n.journal.log.last().payload == payload
            &&& n.journal.log.last().lsn.0 == n.journal.log.len()
            &&& n.journal.durable.0 == n.journal.log.len()
            &&& forall|i: int| 0 <= i < m.journal.log.len() ==> #[trigger] n.journal.log[i]
                == m.journal.log[i]
            &&& n.journal.txns == m.journal.txns
            &&& n.tables == m.tables && n.databases == m.databases && n.indexes == m.indexes
        }),
{
}

/// An identifier that is handed out is never handed out again: its counter has moved past it, and no
/// other counter has moved.
pub proof fn law_identifiers_are_handed_out_once(m: DiskModel, counter: Counter)
    requires
        !m.exhausted(counter),
    ensures
        ({
            let n = m.taken(counter);
            let a = m.control;
            let b = n.control;
            &&& b.next_db_id == a.next_db_id + if counter == Counter::Database { 1int } else { 0 }
            &&& b.next_table_id == a.next_table_id + if counter == Counter::Table { 1int } else { 0 }
            &&& b.next_index_id == a.next_index_id + if counter == Counter::Index { 1int } else { 0 }
            &&& b.next_page_id == a.next_page_id
            &&& b.next_row_id == a.next_row_id
            &&& n.databases == m.databases && n.tables == m.tables && n.indexes == m.indexes
            &&& n.journal == m.journal
        }),
{
}

/// A journal takes a record exactly where its payload fits and a number is left.
pub proof fn law_journal_refuses_what_does_not_fit(j: JournalModel, len: nat)
    ensures
        j.refuses(len) <==> len > 1_048_542 || j.log.len() == u64::MAX,
{
}

/// A page that is handed out is never handed out again, and nothing else changes.
pub proof fn law_pages_are_handed_out_once(m: DiskModel)
    requires
        m.control.next_page_id.0 < u64::MAX,
    ensures
        ({
            let n = m.page_taken();
            &&& n.control.next_page_id.0 == m.control.next_page_id.0 + 1
            &&& n.control.next_db_id == m.control.next_db_id
            &&& n.control.next_table_id == m.control.next_table_id
            &&& n.control.next_index_id == m.control.next_index_id
            &&& n.control.next_row_id == m.control.next_row_id
            &&& n.databases == m.databases && n.tables == m.tables && n.indexes == m.indexes
            &&& n.journal == m.journal
        }),
{
}

} // verus!
