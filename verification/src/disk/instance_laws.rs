//! What an instance promises over a crash, as a whole: every operation keeps it durable, and a
//! reopen of a durable instance gives back its definitions and its committed rows, and is durable
//! again.

use vstd::prelude::*;

use super::begin_laws::{
    begins_at, begins_once, law_end_keeps_one_begin, law_first_write_begins_once,
    law_other_records_keep_one_begin, law_reopened_journal_keeps_one_begin,
    law_rollback_to_keeps_one_begin, law_savepoint_keeps_one_begin, law_write_keeps_one_begin,
    writes_or_ends,
};
use super::bytes::{lemma_byte_ranges, lemma_le_len, lemma_le_round_trip};
use super::catalogue::{catalogue_of, placed, CatalogueModel};
use super::control::Control;
use super::definitions::{
    database_bytes, identifier_bytes, index_words, law_database_definition_reads_back,
    law_index_definition_reads_back, law_table_definition_reads_back, table_words, words_bytes,
    IndexEntryModel, TableEntryModel,
};
use super::durability::{
    law_commit_is_recoverable, law_delete_is_recoverable, law_empty_table_is_recoverable,
    law_insert_is_recoverable, law_rollback_is_recoverable, law_rollback_to_is_recoverable,
    law_savepoint_is_recoverable, law_update_is_recoverable, law_vacuum_is_recoverable,
    law_work_elsewhere_keeps_a_table, later, pruned, recoverable,
};
use super::ends::Step;
use super::journal::{end_status, mark_in, JournalModel, MarkModel, TxnRecordModel};
use super::ledger::{accounts, Ledger};
use super::ledger_steps::{elsewhere, foreign, lemma_same_rows};
use super::open::{blank_redo, recovered, tells_alone};
use super::rebuildable::{lemma_ending, lemma_same_marks};
use super::recover::{is_row, Recovery};
use super::redo::{numbers, redone};
use super::reopening::{
    law_committed_rows_survive, law_reopened_table_is_recoverable, law_replay_never_fails,
    lemma_reopened_orderly, reads_alike, reopens,
};
use super::storage::{blank_store, Counter, DiskModel, DiskStorage};
use super::table_model::{HeapTableModel, RowUndo, WriteOutcome};
use super::told::{
    lemma_orderly_step, lemma_savepoint_payload, lemma_told_same, orderly, quiet_step, rebuildable,
    running, told, writer_told,
};
use super::wal::{RecordModel, WalRecordKind};
use super::wal_payload::{change_of, law_row_change_reads_back, ChangeModel};
use crate::ids::{DbId, IndexId, RowId, SavepointId, TableId, TxnId};
use crate::shape::TableShapeModel;
use crate::snapshot::TxnStatus;
use crate::value::ValueModel;

verus! {

impl DiskModel {
    /// The definitions of the instance.
    pub open spec fn catalogue(self) -> CatalogueModel {
        CatalogueModel {
            databases: self.databases,
            tables: Map::new(
                |t: u64| self.tables.contains_key(t),
                |t: u64|
                    TableEntryModel {
                        table: self.tables[t].store.table,
                        db: self.tables[t].db,
                        shape: self.tables[t].store.shape,
                        first_page: self.tables[t].first_page,
                    },
            ),
            indexes: self.indexes,
        }
    }

    /// Whether the journal defines what the instance holds, an index always on a table.
    pub open spec fn defined(self) -> bool {
        &&& catalogue_of(self.journal.log, self.journal.log.len() as int) == Some(self.catalogue())
        &&& placed(self.journal.log)
    }

    /// Whether the journal names no table still to be handed out.
    pub open spec fn tables_handed_out(self) -> bool {
        &&& forall|i: int|
            0 <= i < self.journal.log.len() && is_row((#[trigger] self.journal.log[i]).kind)
                ==> change_of(self.journal.log[i].payload).table.0 < self.control.next_table_id
        &&& forall|txn: TxnId, i: int, t: u64|
            0 <= i < self.journal.record(txn).savepoints.len() && #[trigger] self.journal.record(
                txn,
            ).savepoints[i].writes.contains_key(t) ==> t < self.control.next_table_id
        &&& forall|txn: TxnId, t: u64| #[trigger]
            self.journal.record(txn).tables.contains(t) ==> t < self.control.next_table_id
    }

    /// Whether a crash loses nothing that was committed: the journal defines what the instance
    /// holds, and each table can be rebuilt from it, vacuumed below `horizon` at most.
    pub open spec fn durable(self, horizon: TxnId) -> bool {
        &&& self.wf()
        &&& self.defined()
        &&& orderly(self.journal)
        &&& begins_once(self.journal)
        &&& self.tables_handed_out()
        &&& forall|t: u64| #[trigger]
            self.tables.contains_key(t) ==> recoverable(
                self.tables[t].store.model(),
                self.journal,
                horizon,
            )
    }
}

/// Whether a record defines or drops something.
pub open spec fn defines(kind: WalRecordKind) -> bool {
    ||| kind == WalRecordKind::CreateDatabase
    ||| kind == WalRecordKind::DropDatabase
    ||| kind == WalRecordKind::CreateTable
    ||| kind == WalRecordKind::DropTable
    ||| kind == WalRecordKind::CreateIndex
    ||| kind == WalRecordKind::DropIndex
}

/// The catalogue depends on the records it walks alone.
proof fn lemma_catalogue_prefix(a: Seq<RecordModel>, b: Seq<RecordModel>, n: int)
    requires
        0 <= n <= a.len(),
        n <= b.len(),
        forall|i: int| 0 <= i < n ==> a[i] == b[i],
    ensures
        catalogue_of(a, n) == catalogue_of(b, n),
    decreases n,
{
    if n > 0 {
        lemma_catalogue_prefix(a, b, n - 1);
        assert(a[n - 1] == b[n - 1]);
    }
}

/// What one more record does to the catalogue.
proof fn lemma_catalogue_grows(log: Seq<RecordModel>, r: RecordModel)
    ensures
        catalogue_of(log.push(r), log.push(r).len() as int) == match catalogue_of(
            log,
            log.len() as int,
        ) {
            None => None,
            Some(c) => c.replayed(r),
        },
        placed(log) && (catalogue_of(log.push(r), log.push(r).len() as int) matches Some(c)
            ==> c.on_tables()) ==> placed(log.push(r)),
{
    let more = log.push(r);
    assert forall|i: int| 0 <= i < log.len() implies log[i] == more[i] by {}
    lemma_catalogue_prefix(log, more, log.len() as int);
    assert(more[more.len() - 1] == r);
    assert forall|k: int| 0 <= k <= log.len() implies #[trigger] catalogue_of(more, k)
        == catalogue_of(log, k) by {
        lemma_catalogue_prefix(log, more, k);
    }
}

/// Taking the maintenance log keeps a table recoverable.
proof fn lemma_drained(t: HeapTableModel, j: JournalModel, horizon: TxnId)
    requires
        recoverable(t, j, horizon),
    ensures
        recoverable(t.drained(), j, horizon),
{
    let full = choose|full: HeapTableModel| #[trigger]
        rebuildable(full, j) && pruned(full, t, j, horizon);
    let g = choose|g: Ledger| #[trigger] accounts(full, j, g) && told(full, j, g);
    let u = full.drained();
    assert(u.wf());
    assert forall|x: TxnId| #[trigger] u.writes_of(x) == full.writes_of(x) by {}
    lemma_same_rows(full, u, j, g);
    lemma_told_same(full, u, j, g);
    assert(rebuildable(u, j));
    assert(t.drained().wf());
    assert(t.drained() =~= (HeapTableModel { contents: t.contents, current: t.current, ..u }));
    assert(pruned(u, t.drained(), j, horizon));
}

/// A record of no transaction is a quiet step.
proof fn lemma_recorded(
    j: JournalModel,
    k: JournalModel,
    kind: WalRecordKind,
    payload: Seq<u8>,
    table: TableId,
)
    requires
        orderly(j),
        !j.refuses(payload.len()),
        k == j.logged(kind, TxnId(0), payload).flushed(),
        defines(kind) || kind == WalRecordKind::Checkpoint,
    ensures
        orderly(k),
        quiet_step(j, k, table),
        elsewhere(j, k, table, Set::empty()),
{
    assert(k.log == j.log.push(k.log.last()));
    assert(k.log.drop_last() =~= j.log);
    lemma_same_marks(j, k);
    lemma_orderly_step(j, k);
}

/// One more record of no transaction keeps the tables that stay recoverable.
proof fn lemma_recorded_durable(
    m: DiskModel,
    n: DiskModel,
    horizon: TxnId,
    kind: WalRecordKind,
    payload: Seq<u8>,
)
    requires
        m.durable(horizon),
        n.wf(),
        n.defined(),
        n.control.next_table_id >= m.control.next_table_id,
        !m.journal.refuses(payload.len()),
        n.journal == m.journal.logged(kind, TxnId(0), payload).flushed(),
        defines(kind) || kind == WalRecordKind::Checkpoint,
        forall|t: u64| #[trigger]
            n.tables.contains_key(t) ==> m.tables.contains_key(t) && n.tables[t].store
                == m.tables[t].store || t >= m.control.next_table_id && t
                < n.control.next_table_id && n.tables[t].store == blank_store(
                n.tables[t].store.table,
                n.tables[t].store.shape,
                n.first_row,
                n.first_seq,
            ),
    ensures
        n.durable(horizon),
{
    let j = m.journal;
    let k = n.journal;
    lemma_recorded(j, k, kind, payload, TableId(0));
    law_other_records_keep_one_begin(j, kind, payload);
    assert forall|i: int| 0 <= i < k.log.len() && is_row((#[trigger] k.log[i]).kind) implies
        change_of(k.log[i].payload).table.0 < m.control.next_table_id by {
        assert(i < j.log.len());
        assert(k.log[i] == j.log[i]);
    }
    assert forall|txn: TxnId| #[trigger] k.record(txn) == j.record(txn) by {}
    assert forall|t: u64| #[trigger] n.tables.contains_key(t) implies recoverable(
        n.tables[t].store.model(),
        k,
        horizon,
    ) by {
        let u = n.tables[t].store.model();
        if m.tables.contains_key(t) && n.tables[t].store == m.tables[t].store {
            lemma_recorded(j, k, kind, payload, u.table);
            law_work_elsewhere_keeps_a_table(u, j, k, horizon);
        } else {
            lemma_blank(
                n.tables[t].store.table,
                n.tables[t].store.shape,
                n.first_row,
                n.first_seq,
            );
            assert(u.wf());
            assert forall|i: int| 0 <= i < k.log.len() implies foreign(
                #[trigger] k.log[i],
                u.table,
            ) by {}
            assert forall|txn: TxnId, i: int| 0 <= i < k.record(txn).savepoints.len() implies mark_in(
                #[trigger] k.record(txn).savepoints[i],
                u.table.0 as u64,
            ) == 0 by {
                assert(j.record(txn).savepoints[i] == k.record(txn).savepoints[i]);
            }
            law_empty_table_is_recoverable(u, k, horizon);
        }
    }
}

/// A table nothing was written in.
proof fn lemma_blank(table: TableId, shape: TableShapeModel, first_row: u64, first_seq: u64)
    ensures
        ({
            let t = blank_store(table, shape, first_row, first_seq).model();
            &&& t.table == table
            &&& t.contents =~= Map::empty()
            &&& forall|txn: TxnId| (#[trigger] t.writes_of(txn)).len() == 0
        }),
{
    let t = blank_store(table, shape, first_row, first_seq).model();
    assert forall|k: (u64, u64)| !t.contents.contains_key(k) by {
        if t.contents.contains_key(k) {
            super::contents::lemma_placed(Map::empty(), k);
        }
    }
    assert(t.contents =~= Map::empty());
}

/// An instance nothing was done on is durable.
pub proof fn law_empty_instance_is_durable(m: DiskModel, horizon: TxnId)
    requires
        m.databases == Map::<u64, Seq<char>>::empty(),
        m.tables.dom() == Set::<u64>::empty(),
        m.indexes == Map::<u64, IndexEntryModel>::empty(),
        m.journal.log == Seq::<RecordModel>::empty(),
        m.journal.txns == Map::<u64, TxnRecordModel>::empty(),
    ensures
        m.durable(horizon),
{
    assert forall|t: u64| !m.tables.contains_key(t) by {
        assert(!m.tables.dom().contains(t));
    }
    assert(m.catalogue().tables =~= Map::empty());
    assert(m.catalogue() =~= CatalogueModel::empty());
}

/// A created database survives a crash.
pub proof fn law_created_database_is_durable(m: DiskModel, n: DiskModel, horizon: TxnId, name: Seq<char>)
    requires
        m.durable(horizon),
        n.wf(),
        !m.exhausted(Counter::Database),
        ({
            let db = DbId(m.control.next_db_id as u32);
            let payload = database_bytes(db, name);
            &&& !m.journal.refuses(payload.len())
            &&& n == (DiskModel {
                databases: m.databases.insert(db.0 as u64, name),
                ..m.taken(Counter::Database).recorded(WalRecordKind::CreateDatabase, payload)
            })
        }),
    ensures
        n.durable(horizon),
{
    let db = DbId(m.control.next_db_id as u32);
    let payload = database_bytes(db, name);
    law_database_definition_reads_back(db, name);
    lemma_catalogue_grows(m.journal.log, n.journal.log.last());
    assert(n.journal.log == m.journal.log.push(n.journal.log.last()));
    assert(n.catalogue().tables =~= m.catalogue().tables);
    lemma_recorded_durable(m, n, horizon, WalRecordKind::CreateDatabase, payload);
}

/// A dropped database stays dropped over a crash, with its tables and their indexes.
pub proof fn law_dropped_database_is_durable(m: DiskModel, n: DiskModel, horizon: TxnId, db: DbId)
    requires
        m.durable(horizon),
        n.wf(),
        !m.journal.refuses(identifier_bytes(db.0).len()),
        n == m.recorded(WalRecordKind::DropDatabase, identifier_bytes(db.0)).without_database(db),
    ensures
        n.durable(horizon),
{
    let payload = identifier_bytes(db.0);
    lemma_identifier(db.0);
    lemma_catalogue_grows(m.journal.log, n.journal.log.last());
    assert(n.journal.log == m.journal.log.push(n.journal.log.last()));
    let c = m.catalogue();
    let less = c.without_tables(c.tables_of(db));
    assert(n.catalogue().tables =~= less.tables);
    assert(n.catalogue().indexes =~= less.indexes) by {
        assert forall|x: u64| #[trigger] m.indexes.contains_key(x) implies m.tables.contains_key(
            m.indexes[x].table.0 as u64,
        ) by {
            assert(m.has_table(m.indexes[x].table));
        }
    }
    lemma_recorded_durable(m, n, horizon, WalRecordKind::DropDatabase, payload);
}

/// The identifier a drop record carries.
proof fn lemma_identifier(id: u32)
    ensures
        identifier_bytes(id).len() == 4,
        super::bytes::le_value(identifier_bytes(id)) as u32 == id,
{
    lemma_byte_ranges();
    lemma_le_len(id as nat, 4);
    lemma_le_round_trip(id as nat, 4);
}

/// A created table survives a crash.
pub proof fn law_created_table_is_durable(
    m: DiskModel,
    n: DiskModel,
    horizon: TxnId,
    db: DbId,
    shape: TableShapeModel,
)
    requires
        m.durable(horizon),
        n.wf(),
        !m.exhausted(Counter::Table),
        shape.columns.len() <= u64::MAX,
        shape.clustered_key matches Some(key) ==> key.len() <= u64::MAX,
        ({
            let e = TableEntryModel {
                table: TableId(m.control.next_table_id as u32),
                db,
                shape,
                first_page: m.control.next_page_id,
            };
            let payload = words_bytes(table_words(e));
            &&& !m.journal.refuses(payload.len())
            &&& n == m.taken(Counter::Table).page_taken().recorded(
                WalRecordKind::CreateTable,
                payload,
            ).with_table(e)
        }),
    ensures
        n.durable(horizon),
{
    let e = TableEntryModel {
        table: TableId(m.control.next_table_id as u32),
        db,
        shape,
        first_page: m.control.next_page_id,
    };
    let payload = words_bytes(table_words(e));
    law_table_definition_reads_back(e);
    lemma_catalogue_grows(m.journal.log, n.journal.log.last());
    assert(n.journal.log == m.journal.log.push(n.journal.log.last()));
    assert(n.catalogue().tables =~= m.catalogue().tables.insert(e.table.0 as u64, e));
    lemma_recorded_durable(m, n, horizon, WalRecordKind::CreateTable, payload);
}

/// A dropped table stays dropped over a crash, with its indexes.
pub proof fn law_dropped_table_is_durable(m: DiskModel, n: DiskModel, horizon: TxnId, table: TableId)
    requires
        m.durable(horizon),
        n.wf(),
        !m.journal.refuses(identifier_bytes(table.0).len()),
        n == m.recorded(WalRecordKind::DropTable, identifier_bytes(table.0)).without_table(table),
    ensures
        n.durable(horizon),
{
    let payload = identifier_bytes(table.0);
    lemma_identifier(table.0);
    lemma_catalogue_grows(m.journal.log, n.journal.log.last());
    assert(n.journal.log == m.journal.log.push(n.journal.log.last()));
    let doomed = Set::<u64>::empty().insert(table.0 as u64);
    let less = m.catalogue().without_tables(doomed);
    assert(n.catalogue().tables =~= less.tables);
    assert(n.catalogue().indexes =~= less.indexes) by {
        assert forall|x: u64| doomed.contains(#[trigger] m.indexes[x].table.0 as u64) <==> m.indexes[x].table
            == table by {}
    }
    lemma_recorded_durable(m, n, horizon, WalRecordKind::DropTable, payload);
}

/// A created index survives a crash.
pub proof fn law_created_index_is_durable(m: DiskModel, n: DiskModel, horizon: TxnId, e: IndexEntryModel)
    requires
        m.durable(horizon),
        n.wf(),
        e.shape.columns.len() <= u64::MAX,
        e.shape.included.len() <= u64::MAX,
        !m.journal.refuses(words_bytes(index_words(e)).len()),
        n == (DiskModel {
            indexes: m.indexes.insert(e.index.0 as u64, e),
            ..m.taken(Counter::Index).recorded(
                WalRecordKind::CreateIndex,
                words_bytes(index_words(e)),
            )
        }),
    ensures
        n.durable(horizon),
{
    let payload = words_bytes(index_words(e));
    law_index_definition_reads_back(e);
    lemma_catalogue_grows(m.journal.log, n.journal.log.last());
    assert(n.journal.log == m.journal.log.push(n.journal.log.last()));
    assert(n.catalogue().tables =~= m.catalogue().tables);
    lemma_recorded_durable(m, n, horizon, WalRecordKind::CreateIndex, payload);
}

/// A dropped index stays dropped over a crash.
pub proof fn law_dropped_index_is_durable(m: DiskModel, n: DiskModel, horizon: TxnId, index: IndexId)
    requires
        m.durable(horizon),
        n.wf(),
        !m.journal.refuses(identifier_bytes(index.0).len()),
        n == (DiskModel {
            indexes: m.indexes.remove(index.0 as u64),
            ..m.recorded(WalRecordKind::DropIndex, identifier_bytes(index.0))
        }),
    ensures
        n.durable(horizon),
{
    let payload = identifier_bytes(index.0);
    lemma_identifier(index.0);
    lemma_catalogue_grows(m.journal.log, n.journal.log.last());
    assert(n.journal.log == m.journal.log.push(n.journal.log.last()));
    assert(n.catalogue().tables =~= m.catalogue().tables);
    lemma_recorded_durable(m, n, horizon, WalRecordKind::DropIndex, payload);
}

/// A checkpoint keeps an instance durable.
pub proof fn law_checkpoint_is_durable(
    m: DiskModel,
    n: DiskModel,
    horizon: TxnId,
    control: Control,
    payload: Seq<u8>,
)
    requires
        m.durable(horizon),
        n.wf(),
        !m.journal.refuses(payload.len()),
        control.next_table_id == m.control.next_table_id,
        n == (DiskModel { control, ..m.recorded(WalRecordKind::Checkpoint, payload) }),
    ensures
        n.durable(horizon),
{
    lemma_catalogue_grows(m.journal.log, n.journal.log.last());
    assert(n.journal.log == m.journal.log.push(n.journal.log.last()));
    assert(n.catalogue().tables =~= m.catalogue().tables);
    lemma_recorded_durable(m, n, horizon, WalRecordKind::Checkpoint, payload);
}

/// A refused definition keeps an instance durable: it takes identifiers at most.
pub proof fn law_refused_definition_is_durable(m: DiskModel, n: DiskModel, horizon: TxnId, control: Control)
    requires
        m.durable(horizon),
        n.wf(),
        control.next_table_id >= m.control.next_table_id,
        n == (DiskModel { control, ..m }),
    ensures
        n.durable(horizon),
{
    assert(n.catalogue().tables =~= m.catalogue().tables);
    assert forall|txn: TxnId, i: int, t: u64|
        0 <= i < n.journal.record(txn).savepoints.len() && #[trigger] n.journal.record(
            txn,
        ).savepoints[i].writes.contains_key(t) implies t < n.control.next_table_id by {
        assert(m.journal.record(txn).savepoints[i].writes.contains_key(t));
    }
    assert forall|txn: TxnId, t: u64| #[trigger]
        n.journal.record(txn).tables.contains(t) implies t < n.control.next_table_id by {
        assert(m.journal.record(txn).tables.contains(t));
    }
}

/// Whether `k` is the journal `j` after a write of `txn` in `table`: unchanged, begun, or with the
/// record of the write.
spec fn write_logged(j: JournalModel, k: JournalModel, txn: TxnId, table: TableId) -> bool {
    ||| k == j
    ||| !j.finished(txn) && k == j.noted(txn, table)
    ||| !j.finished(txn) && !j.begin_refused(txn) && k == j.begun(txn, table)
    ||| exists|kind: WalRecordKind, change: ChangeModel|
        {
            &&& !j.finished(txn)
            &&& !j.begin_refused(txn)
            &&& is_row(kind)
            &&& change.header.storable()
            &&& change.table == table
            &&& !j.begun(txn, table).refuses(change.encoded().len())
            &&& k == #[trigger] j.begun(txn, table).logged(kind, txn, change.encoded())
        }
}

/// Beginning to write in one table is work elsewhere for the others.
proof fn lemma_begun_elsewhere(j: JournalModel, txn: TxnId, table: TableId, other: TableId)
    requires
        orderly(j),
        !j.finished(txn),
    ensures
        quiet_step(j, j.noted(txn, table), other),
        elsewhere(j, j.noted(txn, table), other, Set::empty()),
        orderly(j.noted(txn, table)),
        !j.begin_refused(txn) ==> {
            &&& quiet_step(j, j.begun(txn, table), other)
            &&& elsewhere(j, j.begun(txn, table), other, Set::empty())
            &&& orderly(j.begun(txn, table))
        },
{
    lemma_same_marks(j, j.noted(txn, table));
    lemma_orderly_step(j, j.noted(txn, table));
    if !j.begin_refused(txn) {
        let k = j.begun(txn, table);
        lemma_same_marks(j, k);
        if !j.record(txn).began {
            assert(k.log == j.log.push(k.log.last()));
            assert(k.log.drop_last() =~= j.log);
        }
        lemma_orderly_step(j, k);
    }
}

/// The record of a write in one table is work elsewhere for the others.
proof fn lemma_row_elsewhere(
    j: JournalModel,
    k: JournalModel,
    txn: TxnId,
    kind: WalRecordKind,
    change: ChangeModel,
    other: TableId,
)
    requires
        orderly(j),
        running(j, txn),
        j.txns[txn.0].began,
        is_row(kind),
        change.header.storable(),
        !j.refuses(change.encoded().len()),
        k == j.logged(kind, txn, change.encoded()),
    ensures
        orderly(k),
        change.table != other ==> quiet_step(j, k, other) && elsewhere(j, k, other, Set::empty()),
{
    law_row_change_reads_back(change);
    assert(k.log == j.log.push(k.log.last()));
    assert(k.log.drop_last() =~= j.log);
    lemma_same_marks(j, k);
    assert(writer_told(k, txn.0));
    lemma_orderly_step(j, k);
}

/// A write keeps the other tables recoverable, the register in order and the catalogue.
proof fn lemma_write_elsewhere(
    j: JournalModel,
    k: JournalModel,
    txn: TxnId,
    table: TableId,
    t: HeapTableModel,
    horizon: TxnId,
)
    requires
        orderly(j),
        write_logged(j, k, txn, table),
        t.table != table,
    ensures
        recoverable(t, j, horizon) ==> recoverable(t, k, horizon),
{
    if k != j {
        lemma_begun_elsewhere(j, txn, table, t.table);
        if recoverable(t, j, horizon) {
            if k == j.noted(txn, table) {
                law_work_elsewhere_keeps_a_table(t, j, k, horizon);
            } else {
                let b = j.begun(txn, table);
                law_work_elsewhere_keeps_a_table(t, j, b, horizon);
                if k != b {
                    let (kind, change) = choose|kind: WalRecordKind, change: ChangeModel|
                        {
                            &&& is_row(kind)
                            &&& change.header.storable()
                            &&& change.table == table
                            &&& !b.refuses(change.encoded().len())
                            &&& k == #[trigger] b.logged(kind, txn, change.encoded())
                        };
                    lemma_row_elsewhere(b, k, txn, kind, change, t.table);
                    law_work_elsewhere_keeps_a_table(t, b, k, horizon);
                }
            }
        }
    }
}

/// A write keeps the register in order, the catalogue, and the tables it names handed out.
proof fn lemma_write_logged(j: JournalModel, k: JournalModel, txn: TxnId, table: TableId, next: u64)
    requires
        orderly(j),
        write_logged(j, k, txn, table),
        (table.0 as u64) < next,
    ensures
        orderly(k),
        begins_once(j) ==> begins_once(k),
        catalogue_of(j.log, j.log.len() as int) is Some ==> catalogue_of(
            k.log,
            k.log.len() as int,
        ) == catalogue_of(j.log, j.log.len() as int),
        placed(j.log) && catalogue_of(j.log, j.log.len() as int) is Some ==> placed(k.log),
        (forall|i: int|
            0 <= i < j.log.len() && is_row((#[trigger] j.log[i]).kind) ==> change_of(
                j.log[i].payload,
            ).table.0 < next) ==> forall|i: int|
            0 <= i < k.log.len() && is_row((#[trigger] k.log[i]).kind) ==> change_of(
                k.log[i].payload,
            ).table.0 < next,
        forall|x: TxnId| (#[trigger] k.record(x)).savepoints == j.record(x).savepoints,
        forall|x: TxnId, t: u64| #[trigger]
            k.record(x).tables.contains(t) ==> j.record(x).tables.contains(t) || t
                == table.0 as u64,
{
    if k != j {
        lemma_begun_elsewhere(j, txn, table, table);
        let b = j.begun(txn, table);
        if begins_once(j) {
            law_first_write_begins_once(j, txn, table);
        }
        if k != j.noted(txn, table) && !j.record(txn).began {
            assert(b.log == j.log.push(b.log.last()));
            lemma_catalogue_grows(j.log, b.log.last());
            assert forall|i: int| 0 <= i < j.log.len() implies b.log[i] == j.log[i] by {}
        }
        if k != b && k != j.noted(txn, table) {
            let (kind, change) = choose|kind: WalRecordKind, change: ChangeModel|
                {
                    &&& is_row(kind)
                    &&& change.header.storable()
                    &&& change.table == table
                    &&& !b.refuses(change.encoded().len())
                    &&& k == #[trigger] b.logged(kind, txn, change.encoded())
                };
            lemma_row_elsewhere(b, k, txn, kind, change, table);
            law_row_change_reads_back(change);
            if begins_once(j) {
                law_write_keeps_one_begin(b, txn, kind, change.encoded());
            }
            assert(k.log == b.log.push(k.log.last()));
            lemma_catalogue_grows(b.log, k.log.last());
            assert forall|i: int| 0 <= i < b.log.len() implies k.log[i] == b.log[i] by {}
        }
    }
}

/// A write in a table keeps an instance durable once it keeps the table recoverable.
proof fn lemma_write_durable(
    m: DiskModel,
    n: DiskModel,
    horizon: TxnId,
    txn: TxnId,
    table: TableId,
    o: WriteOutcome,
)
    requires
        m.durable(horizon),
        n.wf(),
        m.has_table(table),
        m.same_but(n, table),
        n.store(table) == o.table.drained(),
        n.journal == o.journal,
        recoverable(o.table, o.journal, horizon),
        write_logged(m.journal, o.journal, txn, table),
    ensures
        n.durable(horizon),
{
    let j = m.journal;
    let k = n.journal;
    lemma_write_logged(j, k, txn, table, m.control.next_table_id);
    assert(n.catalogue().tables =~= m.catalogue().tables) by {
        assert forall|t: u64| #[trigger] n.tables.contains_key(t) <==> m.tables.contains_key(t) by {
            assert(n.tables.dom().contains(t) <==> m.tables.dom().contains(t));
        }
    }
    assert forall|x: TxnId, i: int, t: u64|
        0 <= i < k.record(x).savepoints.len() && #[trigger] k.record(x).savepoints[i].writes.contains_key(
            t,
        ) implies t < n.control.next_table_id by {
        assert(j.record(x).savepoints[i].writes.contains_key(t));
    }
    assert forall|x: TxnId, t: u64| #[trigger] k.record(x).tables.contains(t) implies t
        < n.control.next_table_id by {
        if t != table.0 as u64 {
            assert(j.record(x).tables.contains(t));
        }
    }
    assert forall|t: u64| #[trigger] n.tables.contains_key(t) implies recoverable(
        n.tables[t].store.model(),
        k,
        horizon,
    ) by {
        assert(m.tables.dom().contains(t));
        if t == table.0 as u64 {
            lemma_drained(o.table, k, horizon);
        } else {
            assert(m.tables.contains_key(t));
            lemma_write_elsewhere(j, k, txn, table, m.tables[t].store.model(), horizon);
        }
    }
}

/// An insert keeps an instance durable, whether it is accepted or refused.
pub proof fn law_insert_is_durable(
    m: DiskModel,
    n: DiskModel,
    horizon: TxnId,
    txn: TxnId,
    table: TableId,
    data: Seq<ValueModel>,
)
    requires
        m.durable(horizon),
        n.wf(),
        m.has_table(table),
        m.same_but(n, table),
        ({
            let o = m.store(table).insert_outcome(m.journal, txn, data);
            n.store(table) == o.table.drained() && n.journal == o.journal
        }),
    ensures
        n.durable(horizon),
{
    let t = m.store(table);
    let o = t.insert_outcome(m.journal, txn, data);
    assert(n.store(table).wf());
    assert(o.table.wf());
    law_insert_is_recoverable(t, m.journal, horizon, txn, data);
    let change = t.fresh_change(txn, RowId(t.next_row_id), data);
    assert(o.error is None ==> o.journal == m.journal.begun(txn, table).logged(
        WalRecordKind::Insert,
        txn,
        change.encoded(),
    ));
    lemma_write_durable(m, n, horizon, txn, table, o);
}

/// An update keeps an instance durable, whether it is accepted or refused.
pub proof fn law_update_is_durable(
    m: DiskModel,
    n: DiskModel,
    horizon: TxnId,
    txn: TxnId,
    table: TableId,
    row: RowId,
    data: Seq<ValueModel>,
)
    requires
        m.durable(horizon),
        n.wf(),
        m.has_table(table),
        m.same_but(n, table),
        ({
            let o = m.store(table).update_outcome(m.journal, txn, row, data);
            n.store(table) == o.table.drained() && n.journal == o.journal
        }),
    ensures
        n.durable(horizon),
{
    let t = m.store(table);
    let o = t.update_outcome(m.journal, txn, row, data);
    assert(n.store(table).wf());
    assert(o.table.wf());
    law_update_is_recoverable(t, m.journal, horizon, txn, row, data);
    let change = t.fresh_change(txn, row, data);
    assert(o.error is None ==> o.journal == m.journal.begun(txn, table).logged(
        WalRecordKind::Update,
        txn,
        change.encoded(),
    ));
    lemma_write_durable(m, n, horizon, txn, table, o);
}

/// A delete keeps an instance durable, whether it is accepted or refused.
pub proof fn law_delete_is_durable(
    m: DiskModel,
    n: DiskModel,
    horizon: TxnId,
    txn: TxnId,
    table: TableId,
    row: RowId,
)
    requires
        m.durable(horizon),
        n.wf(),
        m.has_table(table),
        m.same_but(n, table),
        ({
            let o = m.store(table).delete_outcome(m.journal, txn, row);
            n.store(table) == o.table.drained() && n.journal == o.journal
        }),
    ensures
        n.durable(horizon),
{
    let t = m.store(table);
    let o = t.delete_outcome(m.journal, txn, row);
    assert(n.store(table).wf());
    assert(o.table.wf());
    law_delete_is_recoverable(t, m.journal, horizon, txn, row);
    let change = t.hidden_change(txn, row);
    assert(o.error is None ==> o.journal == m.journal.begun(txn, table).logged(
        WalRecordKind::Delete,
        txn,
        change.encoded(),
    ));
    assert(t.current.contains_key(row.0) ==> t.contents.contains_key((row.0, t.current[row.0])));
    lemma_write_durable(m, n, horizon, txn, table, o);
}

/// What the end of a transaction leaves of a table it is applied to, and of one it wrote nothing
/// in.
proof fn lemma_end_durable(
    m: DiskModel,
    n: DiskModel,
    horizon: TxnId,
    txn: TxnId,
    kind: WalRecordKind,
    list: Seq<u64>,
)
    requires
        m.durable(horizon),
        n.wf(),
        kind == WalRecordKind::Commit || kind == WalRecordKind::Abort,
        !m.journal.finished(txn),
        !(m.journal.record(txn).began && m.journal.refuses(0)),
        n.journal == m.journal.ended(txn, kind),
        m.wrote_in(txn, list),
        m.walks(n, list, list.len() as int, Step::End(txn, end_status(kind))),
    ensures
        n.durable(horizon),
{
    let j = m.journal;
    let k = n.journal;
    lemma_ending(j, txn, kind, TableId(0));
    lemma_orderly_step(j, k);
    law_end_keeps_one_begin(j, txn, kind);
    if j.record(txn).began {
        assert(k.log == j.log.push(k.log.last()));
        lemma_catalogue_grows(j.log, k.log.last());
    }
    assert(list.take(list.len() as int) =~= list);
    lemma_same_names(m, n);
    assert forall|x: TxnId, i: int, t: u64|
        0 <= i < k.record(x).savepoints.len() && #[trigger] k.record(x).savepoints[i].writes.contains_key(
            t,
        ) implies t < n.control.next_table_id by {
        assert(j.record(x).savepoints[i].writes.contains_key(t));
    }
    assert forall|x: TxnId, t: u64| #[trigger] k.record(x).tables.contains(t) implies t
        < n.control.next_table_id by {
        assert(j.record(x).tables.contains(t));
    }
    assert forall|t: u64| #[trigger] n.tables.contains_key(t) implies recoverable(
        n.tables[t].store.model(),
        k,
        horizon,
    ) by {
        assert(m.tables.dom().contains(t));
        assert(m.tables.contains_key(t));
        let u = m.tables[t].store.model();
        let after = n.tables[t].store.model();
        let ended = if kind == WalRecordKind::Abort {
            u.cut(txn, 0).all_undone(txn, u.writes_of(txn))
        } else {
            u.cut(txn, 0)
        };
        if kind == WalRecordKind::Abort {
            law_rollback_is_recoverable(u, j, horizon, txn);
        } else {
            law_commit_is_recoverable(u, j, horizon, txn);
        }
        if list.contains(t) {
            lemma_drained(ended, k, horizon);
        } else {
            lemma_wrote_nothing(u, j, horizon, txn);
            lemma_cut_nothing(u, txn, 0);
        }
    }
}

/// The catalogue of an instance whose rows alone changed.
proof fn lemma_same_names(m: DiskModel, n: DiskModel)
    requires
        m.same_catalogue(n),
    ensures
        n.catalogue() == m.catalogue(),
{
    assert(n.catalogue().tables =~= m.catalogue().tables) by {
        assert forall|t: u64| #[trigger] n.tables.contains_key(t) <==> m.tables.contains_key(t) by {
            assert(n.tables.dom().contains(t) <==> m.tables.dom().contains(t));
        }
    }
    assert(n.catalogue() =~= m.catalogue());
}

/// A transaction wrote nothing in a table the register does not name.
pub proof fn lemma_wrote_nothing(t: HeapTableModel, j: JournalModel, horizon: TxnId, txn: TxnId)
    requires
        recoverable(t, j, horizon),
        !j.record(txn).tables.contains(t.table.0 as u64),
    ensures
        t.writes_of(txn).len() == 0,
{
    let full = choose|full: HeapTableModel| #[trigger]
        rebuildable(full, j) && pruned(full, t, j, horizon);
    let g = choose|g: Ledger| #[trigger] accounts(full, j, g) && told(full, j, g);
    assert(g.alive_of(txn).len() == full.writes_of(txn).len());
    assert(full.writes_of(txn) == t.writes_of(txn));
}

/// Cutting nothing changes nothing.
proof fn lemma_cut_nothing(t: HeapTableModel, txn: TxnId, mark: nat)
    requires
        t.writes_of(txn).len() == 0,
    ensures
        t.cut(txn, mark) == t,
        t.cut(txn, mark).all_undone(txn, t.writes_of(txn)) == t,
{
    if t.writes.contains_key(txn.0) && mark <= t.writes[txn.0].len() {
        assert(t.writes[txn.0].take(mark as int) =~= t.writes[txn.0]);
        assert(t.writes.insert(txn.0, t.writes[txn.0]) =~= t.writes);
    }
    assert(t.cut(txn, mark) =~= t);
}

/// A commit keeps an instance durable: what the transaction wrote survives from then on.
pub proof fn law_commit_is_durable(m: DiskModel, n: DiskModel, horizon: TxnId, txn: TxnId)
    requires
        m.durable(horizon),
        n.wf(),
        m.end_result(n, txn, WalRecordKind::Commit, Ok(())),
    ensures
        n.durable(horizon),
{
    let list = choose|list: Seq<u64>| #[trigger]
        m.wrote_in(txn, list) && m.walks(
            n,
            list,
            list.len() as int,
            Step::End(txn, end_status(WalRecordKind::Commit)),
        );
    lemma_end_durable(m, n, horizon, txn, WalRecordKind::Commit, list);
}

/// A rollback keeps an instance durable.
pub proof fn law_rollback_is_durable(m: DiskModel, n: DiskModel, horizon: TxnId, txn: TxnId)
    requires
        m.durable(horizon),
        n.wf(),
        m.end_result(n, txn, WalRecordKind::Abort, Ok(())),
    ensures
        n.durable(horizon),
{
    let list = choose|list: Seq<u64>| #[trigger]
        m.wrote_in(txn, list) && m.walks(
            n,
            list,
            list.len() as int,
            Step::End(txn, end_status(WalRecordKind::Abort)),
        );
    lemma_end_durable(m, n, horizon, txn, WalRecordKind::Abort, list);
}

/// A savepoint keeps an instance durable.
pub proof fn law_savepoint_is_durable(
    m: DiskModel,
    n: DiskModel,
    horizon: TxnId,
    txn: TxnId,
    list: Seq<u64>,
    marks: Map<u64, usize>,
)
    requires
        m.durable(horizon),
        n.wf(),
        !m.journal.finished(txn),
        !m.journal.savepoints_exhausted(),
        !m.journal.refuses(8),
        m.wrote_in(txn, list),
        m.marks_now(txn, list, marks),
        n == (DiskModel {
            journal: m.journal.savepoint_logged(txn).with_mark(
                txn,
                MarkModel { id: SavepointId(m.journal.next_savepoint_id), writes: marks },
            ),
            ..m
        }),
    ensures
        n.durable(horizon),
{
    let j = m.journal;
    let k = n.journal;
    let mark = MarkModel { id: SavepointId(j.next_savepoint_id), writes: marks };
    super::told::lemma_orderly_savepoint(j, k, txn, marks, true);
    law_savepoint_keeps_one_begin(j, txn, mark);
    lemma_catalogue_grows(j.log, k.log.last());
    assert(n.catalogue().tables =~= m.catalogue().tables);
    assert forall|i: int| 0 <= i < k.log.len() && is_row((#[trigger] k.log[i]).kind) implies
        change_of(k.log[i].payload).table.0 < n.control.next_table_id by {
        assert(i < j.log.len());
        assert(k.log[i] == j.log[i]);
    }
    assert forall|x: TxnId, i: int, t: u64|
        0 <= i < k.record(x).savepoints.len() && #[trigger] k.record(x).savepoints[i].writes.contains_key(
            t,
        ) implies t < n.control.next_table_id by {
        if i < j.record(x).savepoints.len() {
            assert(j.record(x).savepoints[i].writes.contains_key(t));
        } else {
            assert(m.tables.contains_key(t));
        }
    }
    assert forall|x: TxnId, t: u64| #[trigger] k.record(x).tables.contains(t) implies t
        < n.control.next_table_id by {
        assert(j.record(x).tables.contains(t));
    }
    assert forall|t: u64| #[trigger] n.tables.contains_key(t) implies recoverable(
        n.tables[t].store.model(),
        k,
        horizon,
    ) by {
        let u = m.tables[t].store.model();
        assert(m.tables.contains_key(t));
        if !list.contains(t) {
            assert(!marks.contains_key(t));
            lemma_wrote_nothing(u, j, horizon, txn);
        } else {
            assert(marks.contains_key(t));
        }
        law_savepoint_is_recoverable(u, j, horizon, txn, marks);
    }
}

/// A rollback to a savepoint keeps an instance durable.
pub proof fn law_rollback_to_is_durable(
    m: DiskModel,
    n: DiskModel,
    horizon: TxnId,
    txn: TxnId,
    sp: SavepointId,
)
    requires
        m.durable(horizon),
        n.wf(),
        m.rollback_result(n, txn, sp, Ok(())),
    ensures
        n.durable(horizon),
{
    let j = m.journal;
    let k = n.journal;
    let i = choose|i: int| #[trigger]
        j.savepoint_at(txn, sp, i) && j.txns.contains_key(txn.0) && !j.finished(txn)
            && !j.refuses(8) && m.rolled_result(n, txn, sp, i, Ok(()));
    let mark = j.record(txn).savepoints[i];
    let step = Step::RollTo(txn, mark);
    let list = choose|list: Seq<u64>| #[trigger]
        m.wrote_in(txn, list) && m.walks(n, list, list.len() as int, step);
    assert(list.take(list.len() as int) =~= list);
    assert(k.log == j.log.push(k.log.last()));
    lemma_savepoint_payload(sp, k.log.last());
    law_rollback_to_keeps_one_begin(j, txn, sp, i);
    assert forall|x: u64| #[trigger] j.txns.contains_key(x) implies super::told::moves_on(
        j.txns[x],
        k.txns[x],
        k.log,
        x,
    ) by {
        let all = j.txns[x].savepoints;
        if x == txn.0 {
            assert(k.txns[x].savepoints == all.take(i + 1));
        } else {
            assert(all.take(all.len() as int) =~= all);
        }
    }
    lemma_orderly_step(j, k);
    lemma_catalogue_grows(j.log, k.log.last());
    lemma_same_names(m, n);
    assert forall|c: int| 0 <= c < k.log.len() && is_row((#[trigger] k.log[c]).kind) implies
        change_of(k.log[c].payload).table.0 < n.control.next_table_id by {
        assert(c < j.log.len());
        assert(k.log[c] == j.log[c]);
    }
    assert forall|x: TxnId, c: int, t: u64|
        0 <= c < k.record(x).savepoints.len() && #[trigger] k.record(x).savepoints[c].writes.contains_key(
            t,
        ) implies t < n.control.next_table_id by {
        assert(j.record(x).savepoints[c].writes.contains_key(t));
    }
    assert forall|x: TxnId, t: u64| #[trigger] k.record(x).tables.contains(t) implies t
        < n.control.next_table_id by {
        assert(j.record(x).tables.contains(t));
    }
    assert forall|t: u64| #[trigger] n.tables.contains_key(t) implies recoverable(
        n.tables[t].store.model(),
        k,
        horizon,
    ) by {
        assert(m.tables.dom().contains(t));
        assert(m.tables.contains_key(t));
        let u = m.tables[t].store.model();
        let at = mark_in(mark, t);
        law_rollback_to_is_recoverable(u, j, horizon, txn, sp, i);
        if list.contains(t) {
            lemma_drained(u.cut(txn, at).all_undone(txn, u.writes_after(txn, at)), k, horizon);
        } else {
            lemma_wrote_nothing(u, j, horizon, txn);
            assert(u.writes_after(txn, at) =~= Seq::<RowUndo>::empty());
            assert(u.writes_of(txn) =~= Seq::<RowUndo>::empty());
            lemma_cut_nothing(u, txn, at);
        }
    }
}

/// Ending a transaction of a durable instance, or rolling it back to a savepoint, finds nothing
/// amiss in any table: the one error left is that of a table that was dropped meanwhile.
pub proof fn law_undo_finds_nothing_amiss(m: DiskModel, horizon: TxnId, txn: TxnId, t: u64)
    requires
        m.durable(horizon),
        m.tables.contains_key(t),
        !m.journal.finished(txn),
        !(m.journal.record(txn).began && m.journal.refuses(0)),
    ensures
        Step::End(txn, TxnStatus::Aborted).fault(t, m.tables[t].store.model()) is None,
        Step::End(txn, TxnStatus::Committed).fault(t, m.tables[t].store.model()) is None,
        forall|sp: SavepointId, i: int| #[trigger]
            m.journal.savepoint_at(txn, sp, i) && !m.journal.refuses(8) ==> Step::RollTo(
                txn,
                m.journal.record(txn).savepoints[i],
            ).fault(t, m.tables[t].store.model()) is None,
{
    let u = m.tables[t].store.model();
    law_rollback_is_recoverable(u, m.journal, horizon, txn);
    assert forall|sp: SavepointId, i: int| #[trigger]
        m.journal.savepoint_at(txn, sp, i) && !m.journal.refuses(8) implies Step::RollTo(
        txn,
        m.journal.record(txn).savepoints[i],
    ).fault(t, u) is None by {
        law_rollback_to_is_recoverable(u, m.journal, horizon, txn, sp, i);
    }
}

/// The table of an instance under its identifier.
pub proof fn lemma_table_id(m: DiskModel, t: u64)
    requires
        m.wf(),
        m.tables.contains_key(t),
    ensures
        m.tables[t].store.model().table.0 as u64 == t,
{
}

/// Opening the journal of a durable instance gives back its definitions and its committed rows, and
/// the instance it gives is durable in its turn.
pub proof fn law_reopened_instance_is_durable(m: DiskModel, horizon: TxnId, s: DiskStorage)
    requires
        m.durable(horizon),
        s.wf(),
        tells_alone(m.journal.log, m.control, s),
        s@.journal.next_savepoint_id == 0,
    ensures
        s@.durable(TxnId(0)),
        s@.catalogue() == m.catalogue(),
        forall|t: u64| #[trigger]
            m.tables.contains_key(t) ==> s@.tables.contains_key(t) && reads_alike(
                m.tables[t].store.model(),
                m.journal,
                s@.tables[t].store.model(),
                s@.journal,
                horizon,
            ),
{
    let j = m.journal;
    let n = s@;
    let c = m.catalogue();
    lemma_reopened_orderly(j, m.control, s);
    law_reopened_journal_keeps_one_begin(j, m.control, s);
    assert forall|t: u64| #[trigger] n.tables.contains_key(t) <==> m.tables.contains_key(t) by {
        assert(n.tables.dom().contains(t) <==> c.tables.dom().contains(t));
        assert(c.tables.contains_key(t) <==> m.tables.contains_key(t));
    }
    assert(n.catalogue().tables =~= c.tables) by {
        assert forall|t: u64| #[trigger] n.tables.contains_key(t) implies n.catalogue().tables[t]
            == c.tables[t] by {
            lemma_table_id(n, t);
            lemma_table_id(m, t);
        }
    }
    assert(n.catalogue() =~= c);
    assert(n.defined());
    assert forall|t: u64| #[trigger] m.tables.contains_key(t) implies n.tables.contains_key(t)
        && reads_alike(
        m.tables[t].store.model(),
        j,
        n.tables[t].store.model(),
        n.journal,
        horizon,
    ) && recoverable(n.tables[t].store.model(), n.journal, TxnId(0)) by {
        let u = m.tables[t].store.model();
        lemma_table_id(m, t);
        assert(reopens(j, m.control, s, u.table));
        assert(n.tables[t].store.shape == m.tables[t].store.shape) by {
            assert(n.tables.contains_key(t));
            assert(c.tables[t].shape == m.tables[t].store.shape);
        }
        law_committed_rows_survive(u, j, horizon, m.control, s);
        law_reopened_table_is_recoverable(u, j, horizon, m.control, s);
    }
    assert(n.tables_handed_out()) by {
        assert forall|x: TxnId, i: int, t: u64|
            0 <= i < n.journal.record(x).savepoints.len() && #[trigger] n.journal.record(
                x,
            ).savepoints[i].writes.contains_key(t) implies t < n.control.next_table_id by {
            assert(n.journal.record(x).savepoints.len() == 0);
        }
        assert forall|x: TxnId, t: u64| #[trigger] n.journal.record(x).tables.contains(t) implies t
            < n.control.next_table_id by {
            assert(n.journal.record(x).tables == Set::<u64>::empty());
        }
    }
}

/// The redo of the journal of a durable instance goes through.
pub proof fn lemma_redo_succeeds(m: DiskModel, horizon: TxnId, r: Recovery)
    requires
        m.durable(horizon),
        recovered(m.journal.log, m.control, r),
    ensures
        redone(
            blank_redo(m.catalogue()),
            m.journal.log,
            m.journal.log.len() as int,
            numbers(r.winners@),
            r.cancelled@,
        ) is Some,
{
    let tables = Map::new(
        |t: u64| m.tables.contains_key(t),
        |t: u64| m.tables[t].store.model(),
    );
    assert forall|table: TableId|
        m.catalogue().tables.contains_key(#[trigger] (table.0 as u64)) implies tables[table.0 as u64].table
        == table && recoverable(tables[table.0 as u64], m.journal, horizon) by {
        assert(m.tables.contains_key(table.0 as u64));
        lemma_table_id(m, table.0 as u64);
    }
    law_replay_never_fails(tables, m.journal, horizon, m.control, m.catalogue(), r);
}

/// A vacuum keeps an instance durable.
pub proof fn law_vacuum_is_durable(m: DiskModel, n: DiskModel, horizon: TxnId, next: TxnId)
    requires
        m.durable(horizon),
        n.wf(),
        n.journal == m.journal,
        m.same_catalogue(n),
        forall|t: u64| #[trigger]
            m.tables.contains_key(t) ==> n.tables[t].store.model()
                == m.tables[t].store.model().vacuumed(next, m.journal.st()),
    ensures
        n.durable(later(horizon, next)),
{
    lemma_same_names(m, n);
    assert forall|t: u64| #[trigger] n.tables.contains_key(t) implies recoverable(
        n.tables[t].store.model(),
        n.journal,
        later(horizon, next),
    ) by {
        assert(m.tables.dom().contains(t));
        assert(m.tables.contains_key(t));
        law_vacuum_is_recoverable(m.tables[t].store.model(), m.journal, horizon, next);
    }
}

/// Before every row record and every end of a transaction, the journal of a durable instance holds
/// exactly one `Begin` of that transaction, and no other follows.
pub proof fn law_one_begin_before_any_write_or_end(m: DiskModel, horizon: TxnId, i: int) -> (b: int)
    requires
        m.durable(horizon),
        0 <= i < m.journal.log.len(),
        writes_or_ends(m.journal.log[i].kind),
    ensures
        0 <= b < i,
        begins_at(m.journal.log, m.journal.log[i].txn, b),
        forall|c: int| #[trigger] begins_at(m.journal.log, m.journal.log[i].txn, c) ==> c == b,
{
    let b = choose|b: int| b < i && begins_at(m.journal.log, m.journal.log[i].txn, b);
    b
}

} // verus!
