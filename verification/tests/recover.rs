//! What the recovery makes of a journal: the winners redone, the losers hidden.
//!
//! A [`Disk`] is what a stopped instance leaves: the bytes of its journal, and the records of
//! the heap that a checkpoint had written out by then.

use vauban_storage::disk::data::Data;
use vauban_storage::disk::catalogue::Catalogue;
use vauban_storage::disk::definitions::{identifier_payload, TableEntry};
use vauban_storage::disk::heap::Heap;
use vauban_storage::disk::heap_table::HeapTable;
use vauban_storage::disk::journal::Journal;
use vauban_storage::disk::page::{Lsn, PageId};
use vauban_storage::disk::recover::{Recovery, Scan};
use vauban_storage::disk::redo::{redo, RedoHeap};
use vauban_storage::disk::wal::{Wal, WalRecordKind};
use vauban_storage::error::{Bug, Corruption, InternalError};
use vauban_storage::ids::{DbId, RowId, TableId, TxnId};
use vauban_storage::ordmap::OrdMap;
use vauban_storage::row::Row;
use vauban_storage::shape::TableShape;
use vauban_storage::snapshot::{Snapshot, TxnStatus};
use vauban_storage::value::{SqlType, TypeInfo, Value};
use vauban_storage::{Control, DiskOptions, DiskStorage};

/// The table the tests of this file work on.
const TABLE: TableId = TableId(7);

/// What a stopped instance leaves.
struct Disk {
    /// The bytes of the journal.
    journal: Vec<u8>,
    /// The records of the heap of [`TABLE`] that were written out.
    data: Vec<Vec<u8>>,
}

/// A running instance: the journal, the heap the redo wrote, and what the recovery found.
struct Running {
    journal: Journal,
    heap: Option<Heap>,
    recovery: Recovery,
}

/// A table of a running instance.
struct Table {
    journal: Journal,
    table: HeapTable,
    data: Vec<Vec<u8>>,
}

impl Disk {
    fn new() -> Disk {
        Disk {
            journal: Vec::new(),
            data: Vec::new(),
        }
    }

    /// Starts an instance: the definitions are replayed, then the row records.
    fn open(&self) -> Running {
        let wal = Wal::open(self.journal.clone()).expect("open the journal");
        let records = wal.iter();
        let scan = Scan::of(&records).expect("scan the journal");
        let catalogue = Catalogue::new()
            .redo_ddl(&records)
            .expect("replay the definitions");
        let mut pages: OrdMap<PageId> = OrdMap::new();
        let mut heaps: OrdMap<RedoHeap> = OrdMap::new();
        for id in catalogue.tables.keys() {
            let entry = catalogue.tables.get(id).expect("a table of the catalogue");
            pages.insert(id, entry.first_page);
            let mut heap = Heap::create(entry.table);
            if entry.table == TABLE {
                for record in &self.data {
                    heap.insert(record).expect("read a record");
                }
            }
            heaps.insert(id, RedoHeap::over(heap).expect("walk the heap"));
        }
        let mut recovery = scan.into_recovery(1, pages);
        redo(&records, &mut recovery, &mut heaps).expect("replay the rows");
        Running {
            journal: Journal::over(wal),
            heap: heaps.remove(u64::from(TABLE.0)).map(|redo| redo.heap),
            recovery,
        }
    }
}

impl Running {
    /// Creates the heap of [`TABLE`] in a fresh instance and journals its definition.
    fn install(mut self) -> Table {
        let entry = TableEntry {
            table: TABLE,
            db: DbId(1),
            shape: int_shape(),
            first_page: PageId(0),
        };
        self.journal
            .wal
            .append_durable(WalRecordKind::CreateTable, TxnId(0), &entry.encode())
            .expect("journal the definition");
        Table {
            journal: self.journal,
            table: HeapTable::create(TABLE, int_shape()),
            data: Vec::new(),
        }
    }

    /// The table attached without the counters and the register of the recovery.
    fn attached(self) -> Table {
        assert!(self.recovery.heap_of(TABLE).is_some());
        let heap = self.heap.expect("the journal names the heap of the table");
        Table {
            journal: self.journal,
            data: records_of(&heap),
            table: HeapTable::open(heap, int_shape()),
        }
    }

    /// The table of a reopened instance, its counters and its register taken from the recovery.
    fn resumed(self) -> Table {
        let (row, seq) = (self.recovery.next_row_id, self.recovery.next_seq);
        let winners = self.recovery.winners.clone();
        let losers = self.recovery.losers.clone();
        let mut table = self.attached();
        table
            .table
            .resume_after_recovery(&mut table.journal, row, seq, &winners, &losers)
            .expect("resume the table");
        table
    }
}

impl Table {
    fn insert(&mut self, txn: TxnId, row: &Row) -> Result<RowId, InternalError> {
        self.table.insert(&mut self.journal, txn, row)
    }

    fn update(&mut self, txn: TxnId, id: RowId, row: &Row) -> Result<(), InternalError> {
        self.table.update(&mut self.journal, txn, id, row)
    }

    fn delete(&mut self, txn: TxnId, id: RowId) -> Result<(), InternalError> {
        self.table.delete(&mut self.journal, txn, id)
    }

    fn commit(&mut self, txn: TxnId) -> Result<(), InternalError> {
        self.table.commit(&mut self.journal, txn)
    }

    fn rollback(&mut self, txn: TxnId) -> Result<(), InternalError> {
        self.table.rollback(&mut self.journal, txn)
    }

    fn get(&self, snap: &Snapshot, id: RowId) -> Result<Option<Row>, InternalError> {
        self.table.get(&self.journal, snap, id)
    }

    fn scan(&self, snap: &Snapshot) -> Result<Vec<(RowId, Row)>, InternalError> {
        self.table.scan(&self.journal, snap)
    }

    fn status(&self, txn: TxnId) -> TxnStatus {
        self.journal.txn_status(txn)
    }

    /// A checkpoint that writes the heap out.
    fn checkpoint(&mut self) -> Lsn {
        self.data = records_of(&self.table.heap);
        self.checkpoint_holding_the_page_back()
    }

    /// A checkpoint during which the page of the heap is held back.
    fn checkpoint_holding_the_page_back(&mut self) -> Lsn {
        let next_row_id = self.table.next_row_id();
        self.journal
            .wal
            .append_checkpoint(PageId(1), next_row_id)
            .expect("checkpoint")
    }

    /// Stops the instance; what was not written out is thrown away.
    fn stop(self) -> Disk {
        Disk {
            journal: self.journal.wal.bytes,
            data: self.data,
        }
    }
}

/// The records a heap holds, by address.
fn records_of(heap: &Heap) -> Vec<Vec<u8>> {
    heap.scan()
        .into_iter()
        .map(|rid| heap.records.get(rid).expect("a record").clone())
        .collect()
}

/// A table of one nullable `int`.
fn int_shape() -> TableShape {
    TableShape {
        columns: vec![TypeInfo::new(SqlType::Int, true)],
        clustered_key: None,
    }
}

/// A row of one `int`.
fn row(value: i32) -> Row {
    Row(vec![Value::I32(value)])
}

/// A snapshot whose `xmin` and `xmax` are both `xmax`, with an empty list of running
/// transactions.
fn snap(own: u64, xmax: u64) -> Snapshot {
    Snapshot {
        xmin: TxnId(xmax),
        xmax: TxnId(xmax),
        active: Vec::new(),
        own: TxnId(own),
    }
}

#[test]
fn reopen_after_commit_without_checkpoint() {
    let mut table = Disk::new().open().install();
    let id = table.insert(TxnId(4), &row(11)).expect("insert");
    table.commit(TxnId(4)).expect("commit");
    // No checkpoint: the heap is thrown away, and the row is in the journal.
    let disk = table.stop();

    let storage = disk.open();
    assert_eq!(storage.recovery.winners, vec![TxnId(4)]);
    assert_eq!(storage.recovery.losers, Vec::new());
    assert_eq!((storage.recovery.applied, storage.recovery.skipped), (1, 0));
    let table = storage.resumed();
    assert_eq!(table.get(&snap(9, 100), id).expect("get"), Some(row(11)));
    assert_eq!(
        table.scan(&snap(9, 100)).expect("scan"),
        vec![(id, row(11))]
    );
}

#[test]
fn uncommitted_insert_gone_after_reopen() {
    let mut table = Disk::new().open().install();
    let id = table.insert(TxnId(4), &row(11)).expect("insert");
    assert_eq!(id, RowId(1));
    let disk = table.stop();

    let storage = disk.open();
    assert_eq!(storage.recovery.winners, Vec::new());
    assert_eq!(storage.recovery.losers, vec![TxnId(4)]);
    assert_eq!((storage.recovery.applied, storage.recovery.skipped), (0, 0));
    let mut table = storage.resumed();
    assert_eq!(table.get(&snap(9, 100), id).expect("get"), None);
    assert_eq!(table.scan(&snap(9, 100)).expect("scan"), Vec::new());
    // The identifier the interrupted insert took is not handed out again.
    let again = table.insert(TxnId(6), &row(12)).expect("insert");
    assert_eq!(again, RowId(2));
}

#[test]
fn a_row_id_taken_by_a_loser_is_not_handed_out_again() {
    let mut table = Disk::new().open().install();
    table.insert(TxnId(4), &row(11)).expect("insert");
    table.commit(TxnId(4)).expect("commit");
    table.insert(TxnId(5), &row(12)).expect("insert");
    table.rollback(TxnId(5)).expect("rollback");
    table.insert(TxnId(6), &row(13)).expect("insert");
    let disk = table.stop();

    let storage = disk.open();
    // Three inserts, one committed: the counter is past the three of them.
    assert_eq!(storage.recovery.next_row_id, 4);
    assert_eq!(storage.recovery.next_seq, 4);
    let instance = DiskStorage::open(
        DiskOptions::default(),
        Control::default(),
        Data::empty(),
        disk.journal.clone(),
    )
    .expect("open the instance");
    assert_eq!(
        instance.control.next_row_id, 4,
        "the counter is kept in the control block"
    );
    let mut table = storage.resumed();
    assert_eq!(table.insert(TxnId(7), &row(14)).expect("insert"), RowId(4));
}

#[test]
fn checkpoint_then_commit_then_reopen() {
    let mut table = Disk::new().open().install();
    let first = table.insert(TxnId(4), &row(11)).expect("insert");
    table.commit(TxnId(4)).expect("commit");
    let checkpoint = table.checkpoint();
    let second = table.insert(TxnId(5), &row(12)).expect("insert");
    table.commit(TxnId(5)).expect("commit");
    let disk = table.stop();

    assert!(checkpoint.0 > 0, "the checkpoint is numbered");
    let storage = disk.open();
    assert_eq!(storage.recovery.winners, vec![TxnId(4), TxnId(5)]);
    // The redo starts at the first record, so the insert of the first transaction is replayed
    // too; the heap already holding it, that record is skipped.
    assert_eq!(storage.recovery.applied + storage.recovery.skipped, 2);
    assert_eq!(
        storage.recovery.skipped, 1,
        "the checkpointed insert is already there"
    );
    let table = storage.resumed();
    assert_eq!(
        table.scan(&snap(9, 100)).expect("scan"),
        vec![(first, row(11)), (second, row(12))]
    );
}

#[test]
fn txn_straddling_checkpoint_is_redone() {
    let mut table = Disk::new().open().install();
    let id = table.insert(TxnId(4), &row(11)).expect("insert");
    // The checkpoint runs while the transaction of the insert is in progress: its page is held
    // back, and the commit that follows syncs the journal, not the heap.
    let checkpoint = table.checkpoint_holding_the_page_back();
    table.commit(TxnId(4)).expect("commit");
    let disk = table.stop();

    let storage = disk.open();
    assert_eq!(storage.recovery.winners, vec![TxnId(4)]);
    assert_eq!(
        (storage.recovery.applied, storage.recovery.skipped),
        (1, 0),
        "the insert sits before checkpoint {} and is redone",
        checkpoint.0
    );
    let table = storage.resumed();
    assert_eq!(table.get(&snap(9, 100), id).expect("get"), Some(row(11)));
}

#[test]
fn abort_is_not_redone() {
    let mut table = Disk::new().open().install();
    let id = table.insert(TxnId(4), &row(11)).expect("insert");
    table.rollback(TxnId(4)).expect("rollback");
    // The `Abort` is in the journal, and a checkpoint writes out what the undo left: what the
    // recovery sees is a heap without the version.
    table.checkpoint();
    let disk = table.stop();

    let storage = disk.open();
    assert_eq!(storage.recovery.winners, Vec::new());
    assert_eq!(storage.recovery.losers, vec![TxnId(4)]);
    assert_eq!((storage.recovery.applied, storage.recovery.skipped), (0, 0));
    let table = storage.resumed();
    assert_eq!(table.get(&snap(9, 100), id).expect("get"), None);
    assert_eq!(table.status(TxnId(4)), TxnStatus::Aborted);
}

#[test]
fn double_open_is_idempotent() {
    let mut table = Disk::new().open().install();
    let id = table.insert(TxnId(4), &row(11)).expect("insert");
    table.commit(TxnId(4)).expect("commit");
    let disk = table.stop();

    let first = disk.open();
    assert_eq!(first.recovery.applied, 1);
    drop(first);

    let second = disk.open();
    // The heap of the first reopen was dropped without a checkpoint, so the redo writes again;
    // what it writes is one version, not two.
    assert_eq!(second.recovery.applied + second.recovery.skipped, 1);
    let table = second.resumed();
    assert_eq!(
        table.scan(&snap(9, 100)).expect("scan"),
        vec![(id, row(11))]
    );
}

#[test]
fn a_checkpoint_between_two_opens_turns_the_redo_into_a_skip() {
    let mut table = Disk::new().open().install();
    table.insert(TxnId(4), &row(11)).expect("insert");
    table.commit(TxnId(4)).expect("commit");
    let disk = table.stop();

    let storage = disk.open();
    assert_eq!(storage.recovery.applied, 1);
    let mut table = storage.resumed();
    table.checkpoint();
    let disk = table.stop();

    let storage = disk.open();
    // The version was written out, so the second redo finds it under its row and serial.
    assert_eq!((storage.recovery.applied, storage.recovery.skipped), (0, 1));
    assert_eq!(
        storage.resumed().scan(&snap(9, 100)).expect("scan"),
        vec![(RowId(1), row(11))]
    );
}

#[test]
fn an_update_and_a_delete_of_a_winner_are_redone() {
    let mut table = Disk::new().open().install();
    let kept = table.insert(TxnId(4), &row(11)).expect("insert");
    let gone = table.insert(TxnId(4), &row(12)).expect("insert");
    table.commit(TxnId(4)).expect("commit");
    table.update(TxnId(5), kept, &row(21)).expect("update");
    table.delete(TxnId(5), gone).expect("delete");
    table.commit(TxnId(5)).expect("commit");
    let disk = table.stop();

    let storage = disk.open();
    assert_eq!(storage.recovery.winners, vec![TxnId(4), TxnId(5)]);
    // Two inserts, one update and one delete.
    assert_eq!((storage.recovery.applied, storage.recovery.skipped), (4, 0));
    let mut table = storage.resumed();
    let now = snap(9, 100);
    assert_eq!(table.get(&now, kept).expect("get"), Some(row(21)));
    assert_eq!(table.get(&now, gone).expect("get"), None);
    // A snapshot that has not settled the second transaction reads what it replaced.
    let before = Snapshot {
        xmin: TxnId(5),
        xmax: TxnId(5),
        active: vec![TxnId(5)],
        own: TxnId(9),
    };
    assert_eq!(table.get(&before, kept).expect("get"), Some(row(11)));
    assert_eq!(table.get(&before, gone).expect("get"), Some(row(12)));
    // The directory is rebuilt, so a write on a row of the rebuilt table goes through.
    table.update(TxnId(7), kept, &row(31)).expect("update");
    table.commit(TxnId(7)).expect("commit");
    assert_eq!(table.get(&snap(9, 100), kept).expect("get"), Some(row(31)));
}

#[test]
fn a_winner_is_registered_committed_and_may_not_write_again() {
    let mut table = Disk::new().open().install();
    table.insert(TxnId(4), &row(11)).expect("insert");
    table.commit(TxnId(4)).expect("commit");
    let disk = table.stop();

    let storage = disk.open();
    assert_eq!(storage.recovery.winners, vec![TxnId(4)]);
    let mut table = storage.resumed();
    assert_eq!(table.status(TxnId(4)), TxnStatus::Committed);
    // The identifier of a transaction the journal ended is refused as a writer, as it is on a
    // table that did not close.
    let err = table
        .insert(TxnId(4), &row(12))
        .expect_err("the identifier of a winner is refused");
    assert!(matches!(err, InternalError::Bug(_)), "{err:?}");
    assert!(err.to_string().contains("already Committed"), "{err:?}");

    // What distinguishes "refused because the journal ended it" from "refused for some other
    // reason": an identifier the journal does not name writes through the same call. The
    // register is per instance, so a second table does not escape it.
    let mut second = HeapTable::create(TableId(8), int_shape());
    assert!(
        second
            .insert(&mut table.journal, TxnId(4), &row(12))
            .is_err(),
        "a second table of the same instance reads the same register"
    );
    assert_eq!(
        second
            .insert(&mut table.journal, TxnId(5), &row(12))
            .expect("insert"),
        RowId(1)
    );
}

#[test]
fn a_loser_whose_page_reached_data_is_invisible() {
    let mut table = Disk::new().open().install();
    let committed = table.insert(TxnId(4), &row(11)).expect("insert");
    // The second transaction writes the same page; the commit of the first lets that page out,
    // and the checkpoint writes it with the version of the second one on it.
    let hidden = table.insert(TxnId(5), &row(12)).expect("insert");
    table.commit(TxnId(4)).expect("commit");
    table.checkpoint();
    let disk = table.stop();

    let storage = disk.open();
    assert_eq!(storage.recovery.winners, vec![TxnId(4)]);
    assert_eq!(storage.recovery.losers, vec![TxnId(5)]);
    // The version of the interrupted transaction was written out: a table attached without the
    // register of the recovery takes its writer for a committed one and serves the row.
    let unregistered = storage.attached();
    assert_eq!(
        unregistered.scan(&snap(9, 100)).expect("scan"),
        vec![(committed, row(11)), (hidden, row(12))]
    );
    drop(unregistered);

    let table = disk.open().resumed();
    assert_eq!(table.status(TxnId(5)), TxnStatus::Aborted);
    assert_eq!(
        table.scan(&snap(9, 100)).expect("scan"),
        vec![(committed, row(11))],
        "the version of the interrupted transaction is on the heap and out of the scan"
    );
    assert_eq!(table.get(&snap(9, 100), hidden).expect("get"), None);
}

#[test]
fn the_redo_appends_no_record() {
    let mut table = Disk::new().open().install();
    table.insert(TxnId(4), &row(11)).expect("insert");
    table.update(TxnId(4), RowId(1), &row(12)).expect("update");
    table.commit(TxnId(4)).expect("commit");
    let before = table.journal.wal.iter().len();
    let disk = table.stop();

    let storage = disk.open();
    assert_eq!(storage.recovery.applied, 2);
    // A replay that journalled its own writes would make the journal grow at each open.
    assert_eq!(storage.journal.wal.iter().len(), before);
    assert_eq!(
        storage.resumed().scan(&snap(9, 100)).expect("scan"),
        vec![(RowId(1), row(12))]
    );
}

#[test]
fn a_begin_alone_changes_nothing() {
    let mut table = Disk::new().open().install();
    table.insert(TxnId(4), &row(11)).expect("insert");
    // The undo of the rollback takes the version away; its `Begin` and its `Abort` stay in the
    // journal, and the checkpoint writes the empty heap out.
    table.rollback(TxnId(4)).expect("rollback");
    table.checkpoint();
    let disk = table.stop();

    let storage = disk.open();
    assert_eq!(
        (
            storage.recovery.applied,
            storage.recovery.skipped,
            storage.recovery.unplaced
        ),
        (0, 0, 0)
    );
    assert_eq!(
        storage.resumed().scan(&snap(9, 100)).expect("scan"),
        Vec::new()
    );
}

#[test]
fn a_row_record_without_its_table_is_counted_unplaced() {
    let fresh = Disk::new().open();
    // No definition: the journal names no heap for the table.
    let mut table = Table {
        journal: fresh.journal,
        table: HeapTable::create(TABLE, int_shape()),
        data: Vec::new(),
    };
    table.insert(TxnId(4), &row(11)).expect("insert");
    table.commit(TxnId(4)).expect("commit");
    let disk = table.stop();

    let recovery = disk.open().recovery;
    assert_eq!(recovery.tables.len(), 0, "{:?}", recovery.tables);
    assert_eq!((recovery.applied, recovery.unplaced), (0, 1));
    // The counter of the journal is still read: the insert took `RowId(1)`.
    assert_eq!(recovery.next_row_id, 2);
}

#[test]
fn an_empty_instance_recovers_to_the_default() {
    let recovery = DiskStorage::open(DiskOptions::default(), Control::default(), Data::empty(), Vec::new())
        .expect("open the instance")
        .recovery;
    assert_eq!(
        format!("{recovery:?}"),
        format!("{:?}", Recovery::default())
    );
}

#[test]
fn a_create_table_record_of_a_dropped_table_leaves_no_heap() {
    let mut table = Disk::new().open().install();
    table.insert(TxnId(4), &row(11)).expect("insert");
    table.commit(TxnId(4)).expect("commit");
    table
        .journal
        .wal
        .append_durable(
            WalRecordKind::DropTable,
            TxnId(0),
            &identifier_payload(TABLE.0),
        )
        .expect("journal the drop");
    let disk = table.stop();

    let recovery = disk.open().recovery;
    assert_eq!(recovery.tables.len(), 0, "{:?}", recovery.tables);
    assert_eq!((recovery.applied, recovery.unplaced), (0, 1));
    // The heap of the dropped table is not read.
    assert!(recovery.heap_of(TABLE).is_none());
}

#[test]
fn a_savepoint_undone_before_the_commit_is_not_redone() {
    let mut table = Disk::new().open().install();
    let kept = table.insert(TxnId(4), &row(11)).expect("insert");
    let sp = table.journal.take_savepoint(TxnId(4)).expect("savepoint");
    let mark = table.table.writes_len(TxnId(4));
    let gone = table.insert(TxnId(4), &row(12)).expect("insert");
    table
        .journal
        .log_rollback_to(TxnId(4), sp)
        .expect("journal the rollback");
    table
        .table
        .rollback_to_savepoint(TxnId(4), mark)
        .expect("rollback to the savepoint");
    let last = table.insert(TxnId(4), &row(13)).expect("insert");
    table.commit(TxnId(4)).expect("commit");
    let disk = table.stop();

    let storage = disk.open();
    assert_eq!((storage.recovery.applied, storage.recovery.skipped), (2, 0));
    assert_eq!(storage.recovery.cancelled.to_vec().len(), 1);
    let table = storage.resumed();
    assert_eq!(
        table.scan(&snap(9, 100)).expect("scan"),
        vec![(kept, row(11)), (last, row(13))]
    );
    assert_eq!(table.get(&snap(9, 100), gone).expect("get"), None);
}

#[test]
fn a_short_row_record_is_corruption() {
    let mut storage = Disk::new().open();
    storage
        .journal
        .wal
        .append_durable(WalRecordKind::Insert, TxnId(4), &[0; 5])
        .expect("journal a short record");
    let err = Scan::of(&storage.journal.wal.iter()).expect_err("a short payload");
    assert!(matches!(err, InternalError::Corruption(_)), "{err:?}");
}

#[test]
fn a_short_savepoint_record_is_corruption() {
    let mut storage = Disk::new().open();
    storage
        .journal
        .wal
        .append_durable(WalRecordKind::Savepoint, TxnId(4), &[0; 7])
        .expect("journal a short record");
    let err = Scan::of(&storage.journal.wal.iter()).expect_err("a short payload");
    assert!(
        matches!(
            err,
            InternalError::Corruption(Corruption::ShortSavepoint { .. })
        ),
        "{err:?}"
    );
}

#[test]
fn a_reserved_transaction_writes_nothing() {
    let mut table = Disk::new().open().install();
    let err = table
        .insert(TxnId(u64::MAX), &row(1))
        .expect_err("the reserved identifier");
    assert!(
        matches!(err, InternalError::Bug(Bug::ReservedTxn(TxnId(u64::MAX)))),
        "{err:?}"
    );
}
