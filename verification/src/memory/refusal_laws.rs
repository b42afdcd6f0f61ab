//! What a refused call is told, and when no call is refused.

use vstd::prelude::*;

use super::index::version_at;
use super::keeps::lemma_chain_found;
use super::key_order::{key_in, keys_comparable, order_of};
use super::model::{index_ok, StorageModel};
use super::table::VersionModel;
use crate::error::{Bug, InternalError, SqlError};
use crate::ids::{RowId, TableId, TxnId};
use crate::snapshot::TxnStatus;
use crate::value::{Relation, ValueModel};

verus! {

/// The reason of an error that reports a violated precondition.
pub open spec fn reason_of(e: SqlError) -> Option<Bug> {
    match e {
        SqlError::Internal(InternalError::Bug(bug)) => Some(bug),
        _ => None,
    }
}

/// A refused insert or update is told why, the first reason that holds: a table that is not there, a
/// value too many or too few, a row that is not there, that was taken away, or that another transaction
/// is writing, a transaction that is over, and only then what an index objects to.
pub proof fn law_refused_write_is_told_why(
    m: StorageModel,
    txn: TxnId,
    table: TableId,
    data: Seq<ValueModel>,
    replacing: Option<RowId>,
    e: SqlError,
)
    requires
        m.wf(),
        m.write_error(txn, table, data, replacing, e),
    ensures
        ({
            let columns = m.table(table).shape.columns.len();
            let rows = m.table(table).rows;
            let id = replacing->0;
            let last = rows[id.0].last();
            let settled = !m.txns.contains_key(last.xmin.0) || m.txns[last.xmin.0].status
                == TxnStatus::Committed;
            let over = m.txns.contains_key(txn.0) && m.txns[txn.0].status != TxnStatus::InProgress;
            if !m.has_table(table) {
                reason_of(e) == Some(Bug::UnknownTable(table))
            } else if data.len() != columns {
                reason_of(e) == Some(
                    Bug::WrongArity {
                        table,
                        values: data.len() as usize,
                        columns: columns as usize,
                    },
                )
            } else if replacing is Some && !rows.contains_key(id.0) {
                reason_of(e) == Some(Bug::UnknownRow { table, row: id })
            } else if replacing is Some && last.xmax is Some {
                reason_of(e) == Some(Bug::StaleRow { table, row: id, by: last.xmax->0 })
            } else if replacing is Some && last.xmin != txn && !settled {
                reason_of(e) == Some(
                    Bug::RowBeingWritten {
                        table,
                        row: id,
                        by: last.xmin,
                        status: m.txns[last.xmin.0].status,
                    },
                )
            } else if over {
                reason_of(e) == Some(Bug::FinishedTxn { txn, status: m.txns[txn.0].status })
            } else {
                (e is DuplicateKey || e == SqlError::IncomparableValues) && m.refusal(
                    txn,
                    table,
                    data,
                    replacing,
                    e,
                )
            }
        }),
{
    if m.has_table(table) && replacing is Some && m.table(table).rows.contains_key((replacing->0).0) {
        assert(m.tables.contains_key(table.0 as u64));
        assert(super::model::table_ok(m.table(table)));
        assert(super::model::chain_ok(
            m.table(table).rows[(replacing->0).0],
            m.table(table).shape.columns.len(),
            m.table(table).next_seq,
        ));
    }
}

/// A refused delete of a row is told why: a row that is not there, that was taken away, or that another
/// transaction is writing.
pub proof fn law_refused_row_is_told_why(
    m: StorageModel,
    txn: TxnId,
    table: TableId,
    id: RowId,
    e: SqlError,
)
    requires
        m.wf(),
        m.has_table(table),
        !m.current(txn, table, id),
        m.current_error(txn, table, id, e),
    ensures
        ({
            let rows = m.table(table).rows;
            let last = rows[id.0].last();
            if !rows.contains_key(id.0) {
                reason_of(e) == Some(Bug::UnknownRow { table, row: id })
            } else if last.xmax is Some {
                reason_of(e) == Some(Bug::StaleRow { table, row: id, by: last.xmax->0 })
            } else {
                &&& reason_of(e) == Some(
                    Bug::RowBeingWritten {
                        table,
                        row: id,
                        by: last.xmin,
                        status: m.txns[last.xmin.0].status,
                    },
                )
                &&& last.xmin != txn
                &&& m.txns.contains_key(last.xmin.0)
                &&& m.txns[last.xmin.0].status != TxnStatus::Committed
            }
        }),
{
    if m.table(table).rows.contains_key(id.0) {
        assert(m.tables.contains_key(table.0 as u64));
        assert(super::model::table_ok(m.table(table)));
        assert(super::model::chain_ok(
            m.table(table).rows[id.0],
            m.table(table).shape.columns.len(),
            m.table(table).next_seq,
        ));
    }
}

/// A write is taken by every index where its key can be compared with those of all versions and, in a
/// `unique` index, no version of another row that counts holds it.
pub proof fn law_free_key_is_accepted(
    m: StorageModel,
    table: TableId,
    txn: TxnId,
    data: Seq<ValueModel>,
    replacing: Option<RowId>,
)
    requires
        m.wf(),
        m.has_table(table),
        forall|k: u64, a: u64, v: VersionModel|
            #![trigger m.index_on(k, table), m.holds(table, a, v)]
            m.index_on(k, table) && m.holds(table, a, v) ==> {
                let order = order_of(m.indexes[k].shape.columns, m.table(table).shape.columns);
                keys_comparable(order, key_in(order, v.data), key_in(order, data))
            },
        forall|k: u64, a: u64, v: VersionModel|
            #![trigger m.index_on(k, table), m.counts(table, txn, a, v)]
            m.index_on(k, table) && m.indexes[k].shape.unique && m.counts(table, txn, a, v)
                && replacing != Some(RowId(a)) ==> !m.same_key(k, v.data, data),
    ensures
        m.accepted(txn, table, data, replacing),
{
    let t = m.table(table);
    assert(m.tables.contains_key(table.0 as u64));
    assert forall|k: u64| #[trigger] m.index_on(k, table) implies m.index_accepts(
        k,
        txn,
        data,
        replacing,
    ) by {
        let ix = m.indexes[k];
        let key = key_in(ix.order, data);
        assert(index_ok(ix, t, m.st()));
        assert forall|i: int| 0 <= i < ix.entries.len() implies keys_comparable(
            ix.order,
            #[trigger] ix.entries[i].key,
            key,
        ) && (ix.shape.unique && super::key_order::key_relation(ix.order, ix.entries[i].key, key)
            == Relation::Equal && Some(ix.entries[i].row) != replacing ==> !super::index::live_entry(
            t.rows,
            ix.entries[i],
            Some(txn),
            m.st(),
        )) by {
            let e = ix.entries[i];
            assert(version_at(t.rows, ix.entries[i].row, ix.entries[i].version) is Some);
            let v = version_at(t.rows, e.row, e.version)->0;
            lemma_chain_found(t.rows[e.row.0], e.version);
            assert(m.holds(table, e.row.0, v));
            assert(e.key == key_in(ix.order, v.data));
            if ix.shape.unique && super::index::live_entry(t.rows, e, Some(txn), m.st()) {
                assert(m.counts(table, txn, e.row.0, v));
            }
        }
    }
}

} // verus!
