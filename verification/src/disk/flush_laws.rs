//! What reaches the data file: every table whose writers committed, and nothing of a table that an
//! unfinished or undone transaction has a hand in.

use vstd::prelude::*;

use super::contents::StoredModel;
use super::data::DataModel;
use super::journal::JournalModel;
use super::storage::DiskModel;
use crate::ids::TxnId;
use crate::snapshot::TxnStatus;

verus! {

/// Whether a journal knows of nothing but a commit of a transaction.
pub open spec fn came_through(j: JournalModel, x: TxnId) -> bool {
    j.txns.contains_key(x.0) ==> j.txns[x.0].status == TxnStatus::Committed
}

/// Whether the transactions that created and hid a version all committed.
pub open spec fn written_by_the_committed(v: StoredModel, j: JournalModel) -> bool {
    &&& came_through(j, v.header.xmin)
    &&& v.header.xmax matches Some(x) ==> came_through(j, x)
}

/// A table whose versions name committed transactions alone is written to the data file, record for
/// record.
pub proof fn law_committed_table_reaches_the_data_file(
    m: DiskModel,
    held: DataModel,
    data: DataModel,
    t: u64,
)
    requires
        m.flushes(held, data),
        m.tables.contains_key(t),
        forall|k: (u64, u64)| #[trigger]
            m.rows_of(t).contents.contains_key(k) ==> written_by_the_committed(
                m.rows_of(t).contents[k],
                m.journal,
            ),
    ensures
        data.heaps.contains_key(t),
        data.heaps[t].records == m.tables[t].store.records,
        data.heaps[t].table == m.tables[t].store.table,
        data.heaps[t].next == m.tables[t].store.next,
{
    assert forall|k: (u64, u64)| #[trigger]
        super::contents::contents(m.tables[t].store.records).contains_key(k) implies
        super::flush::version_settled(
        super::contents::contents(m.tables[t].store.records)[k],
        m.journal,
    ) by {
        assert(m.rows_of(t).contents.contains_key(k));
    }
    assert(m.table_settled(t));
}

/// A table with a version that names a transaction still running, or rolled back, is left in the data
/// file as it was there.
pub proof fn law_unsettled_table_is_left_as_it_was(
    m: DiskModel,
    held: DataModel,
    data: DataModel,
    t: u64,
    k: (u64, u64),
)
    requires
        m.flushes(held, data),
        m.tables.contains_key(t),
        m.rows_of(t).contents.contains_key(k),
        !written_by_the_committed(m.rows_of(t).contents[k], m.journal),
    ensures
        data.heaps.contains_key(t) <==> held.heaps.contains_key(t),
        data.heaps.contains_key(t) ==> data.heaps[t] == held.heaps[t],
{
    assert(super::contents::contents(m.tables[t].store.records).contains_key(k));
    assert(!m.table_settled(t));
}

/// A table that was dropped leaves no records in the data file.
pub proof fn law_dropped_table_leaves_the_data_file(
    m: DiskModel,
    held: DataModel,
    data: DataModel,
    t: u64,
)
    requires
        m.flushes(held, data),
        !m.tables.contains_key(t),
    ensures
        !data.heaps.contains_key(t),
{
}

/// The definitions of a durable instance reach the data file, all of them and no others.
pub proof fn law_definitions_reach_the_data_file(
    m: DiskModel,
    horizon: TxnId,
    held: DataModel,
    data: DataModel,
)
    requires
        m.durable(horizon),
        super::data_laws::held_by(held, m),
        m.flushes(held, data),
    ensures
        data.catalogue.databases == m.databases,
        data.catalogue.indexes == m.indexes,
        forall|t: u64| #[trigger]
            data.catalogue.tables.contains_key(t) <==> m.tables.contains_key(t),
        forall|t: u64| #[trigger]
            m.tables.contains_key(t) ==> {
                &&& data.catalogue.tables[t].db == m.tables[t].db
                &&& data.catalogue.tables[t].shape == m.tables[t].store.shape
                &&& data.catalogue.tables[t].first_page == m.tables[t].first_page
            },
{
    super::catalogue_laws::law_definitions_may_be_replayed(m.journal.log, held.catalogue);
    assert(data.catalogue == m.catalogue());
}

} // verus!
