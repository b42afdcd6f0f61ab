//! The durable engine: its definitions, its rows, and what a reopen finds again.

use std::cell::RefCell;
use std::fmt::Debug;
use std::ops::{Deref, DerefMut};
use std::rc::Rc;

use vauban_storage::disk::data::Data;
use vauban_storage::disk::encode::encode_row;
use vauban_storage::disk::heap_table::HeapTable;
use vauban_storage::disk::page::{Lsn, PageId};
use vauban_storage::disk::version::VersionHeader;
use vauban_storage::disk::wal::{CheckpointPayload, WalRecord, WalRecordKind};
use vauban_storage::{
    Control, DbId, Direction, DiskOptions, DiskStorage, IndexId, IndexShape, InternalError,
    KeyColumn, KeyRange, Len, MemoryStorage, Row, RowId, Snapshot, SqlError, SqlResult, SqlType,
    TableId, TableShape, TxnId, TxnStatus, TypeInfo, Value,
};

/// What an instance keeps over a close: its control block and the bytes of its journal.
#[derive(Clone)]
struct Dir(Rc<RefCell<(Control, Vec<u8>)>>);

/// An open instance, which leaves what it holds in its [`Dir`] when it is dropped.
struct Instance {
    storage: DiskStorage,
    dir: Dir,
}

impl Dir {
    fn new() -> Dir {
        Dir(Rc::new(RefCell::new((Control::default(), Vec::new()))))
    }

    /// The instance, created or reopened.
    fn open(&self) -> Instance {
        let (control, bytes) = self.0.borrow().clone();
        Instance {
            storage: DiskStorage::open(DiskOptions::default(), control, Data::empty(), bytes)
                .expect("open the instance"),
            dir: self.clone(),
        }
    }
}

impl Deref for Instance {
    type Target = DiskStorage;

    fn deref(&self) -> &DiskStorage {
        &self.storage
    }
}

impl DerefMut for Instance {
    fn deref_mut(&mut self) -> &mut DiskStorage {
        &mut self.storage
    }
}

impl Drop for Instance {
    fn drop(&mut self) {
        *self.dir.0.borrow_mut() = (
            self.storage.control,
            self.storage.journal.wal.bytes.clone(),
        );
    }
}

/// The operations the two engines are compared on.
trait Engine {
    fn create_database(&mut self, name: &str) -> SqlResult<DbId>;
    fn create_table(&mut self, db: DbId, shape: &TableShape) -> SqlResult<TableId>;
    fn create_index(&mut self, table: TableId, def: &IndexShape) -> SqlResult<IndexId>;
    fn insert(&mut self, txn: TxnId, table: TableId, row: &Row) -> SqlResult<RowId>;
    fn commit(&mut self, txn: TxnId) -> SqlResult<()>;
}

impl Engine for DiskStorage {
    fn create_database(&mut self, name: &str) -> SqlResult<DbId> {
        DiskStorage::create_database(self, name)
    }

    fn create_table(&mut self, db: DbId, shape: &TableShape) -> SqlResult<TableId> {
        DiskStorage::create_table(self, db, shape)
    }

    fn create_index(&mut self, table: TableId, def: &IndexShape) -> SqlResult<IndexId> {
        DiskStorage::create_index(self, table, def)
    }

    fn insert(&mut self, txn: TxnId, table: TableId, row: &Row) -> SqlResult<RowId> {
        DiskStorage::insert(self, txn, table, row)
    }

    fn commit(&mut self, txn: TxnId) -> SqlResult<()> {
        DiskStorage::commit(self, txn)
    }
}

impl Engine for MemoryStorage {
    fn create_database(&mut self, name: &str) -> SqlResult<DbId> {
        MemoryStorage::create_database(self, name)
    }

    fn create_table(&mut self, db: DbId, shape: &TableShape) -> SqlResult<TableId> {
        MemoryStorage::create_table(self, db, shape)
    }

    fn create_index(&mut self, table: TableId, def: &IndexShape) -> SqlResult<IndexId> {
        MemoryStorage::create_index(self, table, def)
    }

    fn insert(&mut self, txn: TxnId, table: TableId, row: &Row) -> SqlResult<RowId> {
        MemoryStorage::insert(self, txn, table, row)
    }

    fn commit(&mut self, txn: TxnId) -> SqlResult<()> {
        MemoryStorage::commit(self, txn)
    }
}

/// An empty instance.
fn empty_instance() -> DiskStorage {
    DiskStorage::open(DiskOptions::default(), Control::default(), Data::empty(), Vec::new())
        .expect("create an instance")
}

/// The kind of each record of the journal, in order.
fn kinds(records: &[WalRecord]) -> Vec<WalRecordKind> {
    records.iter().map(|record| record.kind).collect()
}

/// The table the checkpoint tests write on.
const TABLE: TableId = TableId(9);

/// A table of one nullable `int` column, on a page of its own.
fn int_table(storage: &mut DiskStorage) -> HeapTable {
    storage.control.next_page_id = PageId(storage.control.next_page_id.0 + 1);
    let shape = TableShape {
        columns: vec![TypeInfo::new(SqlType::Int, true)],
        clustered_key: None,
    };
    HeapTable::create(TABLE, shape)
}

/// A row of one `int`.
fn row(value: i32) -> Row {
    Row(vec![Value::I32(value)])
}

/// A table of two nullable `int`, the first of them clustered when `clustered` is true.
fn two_ints(clustered: bool) -> TableShape {
    TableShape {
        columns: vec![
            TypeInfo::new(SqlType::Int, true),
            TypeInfo::new(SqlType::Int, true),
        ],
        clustered_key: if clustered {
            Some(vec![KeyColumn {
                column: 0,
                descending: false,
            }])
        } else {
            None
        },
    }
}

/// A unique index on the column `column`, ascending, with no included column.
fn unique_on(column: u16) -> IndexShape {
    IndexShape {
        columns: vec![KeyColumn {
            column,
            descending: false,
        }],
        unique: true,
        included: Vec::new(),
    }
}

/// Creates one database, one table of [`two_ints`] and one index on its first column.
fn create_the_three(storage: &mut DiskStorage, clustered: bool) -> (DbId, TableId, IndexId) {
    let db = storage.create_database("a").expect("create the database");
    let table = storage
        .create_table(db, &two_ints(clustered))
        .expect("create the table");
    let index = storage
        .create_index(table, &unique_on(0))
        .expect("create the index");
    (db, table, index)
}

/// The three lists of the catalogue, as the reopen tests assert them.
type Listed = (
    Vec<(DbId, String)>,
    Vec<(TableId, TableShape)>,
    Vec<(IndexId, IndexShape)>,
);

/// What the three lists of the catalogue answer, for the assertions of the reopen tests.
fn catalogue_of(storage: &DiskStorage, db: DbId, table: TableId) -> Listed {
    (
        storage.databases().expect("databases"),
        storage.tables(db).expect("tables"),
        storage.indexes(table).expect("indexes"),
    )
}

/// A snapshot whose `xmin` and `xmax` are `TxnId(9)`, so a transaction of a smaller
/// identifier reads as settled.
fn settled(own: u64) -> Snapshot {
    Snapshot {
        xmin: TxnId(9),
        xmax: TxnId(9),
        active: Vec::new(),
        own: TxnId(own),
    }
}

/// A row of two `int` columns.
fn pair(a: i32, b: i32) -> Row {
    Row(vec![Value::I32(a), Value::I32(b)])
}

/// An index on the column `column`, ascending, not `unique`, with no included column.
fn index_on(column: u16) -> IndexShape {
    IndexShape {
        unique: false,
        ..unique_on(column)
    }
}

/// A clustered shape of one column of type `ty`, key on that column.
fn keyed_by(ty: SqlType) -> TableShape {
    TableShape {
        columns: vec![TypeInfo::new(ty, true)],
        clustered_key: Some(vec![KeyColumn {
            column: 0,
            descending: false,
        }]),
    }
}

/// A database, a table of [`two_ints`] and a `unique` index on its second column, on
/// `storage`, with one committed row of key 5 and one transaction already committed.
///
/// `TxnId(1)` holds the live row `(1, 5)`; `TxnId(2)` wrote `(3, 7)` and committed, so it
/// is a finished transaction; `TxnId(5)` has written nothing yet.
fn table_with_a_unique_index(storage: &mut dyn Engine, clustered: bool) -> TableId {
    let db = storage.create_database("a").expect("create the database");
    let table = storage
        .create_table(db, &two_ints(clustered))
        .expect("create the table");
    storage
        .create_index(table, &unique_on(1))
        .expect("create the index");
    storage
        .insert(TxnId(1), table, &pair(1, 5))
        .expect("the row whose key 5 stays live");
    storage.commit(TxnId(1)).expect("commit");
    storage
        .insert(TxnId(2), table, &pair(3, 7))
        .expect("the write of the transaction that then ends");
    storage.commit(TxnId(2)).expect("commit");
    table
}

/// The error of `answer`.
fn failure<T: Debug>(answer: SqlResult<T>) -> SqlError {
    answer.expect_err("the call is refused")
}

#[test]
fn checkpoint_on_empty_is_ok() {
    let mut storage = empty_instance();

    storage
        .checkpoint()
        .expect("checkpoint an instance nothing was written on");

    let records = storage.journal.wal.iter();
    assert_eq!(kinds(&records), vec![WalRecordKind::Checkpoint]);
    assert_eq!(records[0].lsn, Lsn(1));
    assert_eq!(
        CheckpointPayload::decode(&records[0].payload).expect("decode the payload"),
        CheckpointPayload {
            redo_lsn: Lsn(1),
            next_page_id: PageId(0),
            next_row_id: 1,
        },
        "the payload copies the counters of a fresh control block"
    );
    assert_eq!(storage.control.latest_checkpoint_lsn, Lsn(1));
    assert_eq!(storage.control.durable_lsn, Lsn(1));
}

#[test]
fn two_checkpoints_leave_two_records() {
    let mut storage = empty_instance();

    storage.checkpoint().expect("first checkpoint");
    storage.checkpoint().expect("second checkpoint");

    let records = storage.journal.wal.iter();
    assert_eq!(
        kinds(&records),
        vec![WalRecordKind::Checkpoint, WalRecordKind::Checkpoint],
        "the journal keeps the record of the first checkpoint"
    );
    for (record, lsn) in records.iter().zip([Lsn(1), Lsn(2)]) {
        assert_eq!(record.lsn, lsn);
        assert_eq!(
            CheckpointPayload::decode(&record.payload)
                .expect("decode the payload")
                .redo_lsn,
            lsn,
            "each of the two payloads names its own record"
        );
    }
    assert_eq!(storage.control.latest_checkpoint_lsn, Lsn(2));
    assert_eq!(storage.control.durable_lsn, Lsn(2));
}

/// A table of one `int` in a database of its own.
fn int_table_of(storage: &mut DiskStorage, name: &str) -> TableId {
    let db = storage.create_database(name).expect("create the database");
    let shape = TableShape {
        columns: vec![TypeInfo::new(SqlType::Int, true)],
        clustered_key: None,
    };
    storage.create_table(db, &shape).expect("create the table")
}

/// The bytes of the first version of the first row of a table.
fn first_version_of(txn: u64, value: i32) -> Vec<u8> {
    let mut bytes = Vec::new();
    VersionHeader {
        row: RowId(1),
        xmin: TxnId(txn),
        xmax: None,
        seq: 1,
    }
    .write_to(&mut bytes);
    encode_row(&row(value), &mut bytes);
    bytes
}

/// Whether `data` holds the record `needle` of `table`.
fn data_carries(data: &Data, table: TableId, needle: &[u8]) -> bool {
    match data.heaps.get(u64::from(table.0)) {
        Some(heap) => heap
            .scan()
            .into_iter()
            .any(|rid| heap.records.get(rid).is_some_and(|bytes| bytes == needle)),
        None => false,
    }
}

#[test]
fn checkpoint_flushes_committed_heap_page() {
    let mut storage = empty_instance();
    let table = int_table_of(&mut storage, "a");
    storage.insert(TxnId(4), table, &row(7)).expect("insert");
    storage.commit(TxnId(4)).expect("commit");
    let version = first_version_of(4, 7);

    // The commit made the journal durable and wrote nothing else.
    let data = Data::empty();
    assert!(
        !data_carries(&data, table, &version),
        "the committed row reached `data` before the checkpoint"
    );

    let data = storage.flushed(data).expect("write `data`");
    storage.checkpoint().expect("checkpoint");

    assert!(
        data_carries(&data, table, &version),
        "the committed row is missing from `data` after the checkpoint"
    );
}

#[test]
fn checkpoint_skips_in_progress() {
    let mut storage = empty_instance();
    let running = int_table_of(&mut storage, "a");
    let committed = int_table_of(&mut storage, "b");
    assert_ne!(running, committed);
    storage
        .insert(TxnId(4), running, &row(41))
        .expect("insert of the running transaction");
    storage
        .insert(TxnId(5), committed, &row(52))
        .expect("insert of the committing transaction");
    storage.commit(TxnId(5)).expect("commit");

    let data = storage.flushed(Data::empty()).expect("write `data`");
    storage.checkpoint().expect("checkpoint");

    assert!(
        data_carries(&data, committed, &first_version_of(5, 52)),
        "the row of the committed transaction is missing from `data`"
    );
    assert!(
        !data_carries(&data, running, &first_version_of(4, 41)),
        "the row of the running transaction reached `data`"
    );
    // Transaction 4 is still in progress.
    assert_eq!(storage.journal.txn_status(TxnId(4)), TxnStatus::InProgress);
}

/// The records `data` holds of `table`.
fn held(data: &Data, table: TableId) -> usize {
    match data.heaps.get(u64::from(table.0)) {
        Some(heap) => heap.scan().len(),
        None => 0,
    }
}

#[test]
fn in_progress_keeps_an_uncommitted_row_out_of_the_data_file() {
    let mut storage = empty_instance();
    let table = int_table_of(&mut storage, "a");
    // The empty table is written first, so what `data` holds next comes from the row.
    let data = storage.flushed(Data::empty()).expect("write the empty table");
    storage.insert(TxnId(4), table, &row(1)).expect("insert");

    let data = storage.flushed(data).expect("write while 4 runs");
    assert_eq!(held(&data, table), 0);

    storage.commit(TxnId(4)).expect("commit");
    let data = storage.flushed(data).expect("write after the commit");
    assert_eq!(held(&data, table), 1);
}

#[test]
fn insert_without_commit_not_on_data() {
    let mut storage = empty_instance();
    let table = int_table_of(&mut storage, "a");
    let defined = storage.journal.wal.iter().len();
    let durable = storage.journal.wal.durable_lsn();
    let before = storage.flushed(Data::empty()).expect("write the empty table");
    let image = format!("{before:?}");

    storage.insert(TxnId(4), table, &row(1)).expect("insert");
    let after = storage.flushed(before).expect("write while 4 runs");
    assert_eq!(
        format!("{after:?}"),
        image,
        "the row of a running transaction reached `data`"
    );
    // The journal holds the two records of the write; the commit is what would make them durable.
    assert_eq!(
        kinds(&storage.journal.wal.iter()[defined..]),
        vec![WalRecordKind::Begin, WalRecordKind::Insert]
    );
    assert_eq!(storage.journal.wal.durable_lsn(), durable);
    assert_eq!(storage.journal.wal.last_lsn(), Lsn(durable.0 + 2));
}

#[test]
fn checkpoint_record_in_wal_and_ctl() {
    let mut storage = empty_instance();
    let mut table = int_table(&mut storage);
    table
        .insert(&mut storage.journal, TxnId(4), &row(1))
        .expect("insert");
    table
        .commit(&mut storage.journal, TxnId(4))
        .expect("commit");

    storage.checkpoint().expect("checkpoint");

    let records = storage.journal.wal.iter();
    assert_eq!(
        kinds(&records),
        vec![
            WalRecordKind::Begin,
            WalRecordKind::Insert,
            WalRecordKind::Commit,
            WalRecordKind::Checkpoint,
        ]
    );
    let record = records.last().expect("the checkpoint record");
    assert_eq!(record.lsn, Lsn(4));
    assert_eq!(record.txn, TxnId(0));
    let payload = CheckpointPayload::decode(&record.payload).expect("decode the payload");
    assert_eq!(
        payload.redo_lsn, record.lsn,
        "the payload names the record itself"
    );

    let control = storage.control;
    assert_eq!(control.latest_checkpoint_lsn, record.lsn);
    assert_eq!(control.durable_lsn, record.lsn);
    assert_eq!(payload.next_page_id, control.next_page_id);
    assert_eq!(payload.next_row_id, control.next_row_id);
    // The page of the table was handed out, so the counter moved.
    assert_eq!(control.next_page_id, PageId(1));
}

#[test]
fn a_transaction_astride_the_checkpoint_leaves_its_insert_before_redo_lsn() {
    let mut storage = empty_instance();
    let mut table = int_table(&mut storage);
    table
        .insert(&mut storage.journal, TxnId(4), &row(7))
        .expect("insert");

    storage.checkpoint().expect("checkpoint while 4 runs");
    table
        .commit(&mut storage.journal, TxnId(4))
        .expect("commit after the checkpoint");

    let records = storage.journal.wal.iter();
    assert_eq!(
        kinds(&records),
        vec![
            WalRecordKind::Begin,
            WalRecordKind::Insert,
            WalRecordKind::Checkpoint,
            WalRecordKind::Commit,
        ]
    );
    let redo = CheckpointPayload::decode(&records[2].payload)
        .expect("decode the payload")
        .redo_lsn;
    assert_eq!(
        (records[1].lsn, redo, records[3].lsn),
        (Lsn(2), Lsn(3), Lsn(4)),
        "the insert is behind the checkpoint record, the commit ahead of it"
    );
    // A redo of the records after `redo_lsn` would replay the `Commit` alone, whose payload is
    // empty: the redo starts at the first record.
    assert!(records[3].payload.is_empty());
}

#[test]
fn open_is_idempotent_on_empty() {
    let dir = Dir::new();
    drop(dir.open());
    let storage = dir.open();
    assert_eq!(storage.control, Control::default());
    assert_eq!(storage.journal.wal.iter().len(), 0);
    assert_eq!(storage.databases().expect("databases"), Vec::new());
}

#[test]
fn open_rejects_a_pool_of_zero_frames_before_creating_anything() {
    let err = DiskStorage::open(
        DiskOptions { buffer_pages: 0 },
        Control::default(),
        Data::empty(),
        Vec::new(),
    )
    .expect_err("a pool of no frame is refused");
    assert!(matches!(err, InternalError::Bug(_)), "{err:?}");
}

#[test]
fn ddl_survives_reopen_without_checkpoint() {
    let dir = Dir::new();
    let (db, table, index) = {
        let mut storage = dir.open();
        create_the_three(&mut storage, false)
    };

    let storage = dir.open();
    assert_eq!(
        catalogue_of(&storage, db, table),
        (
            vec![(db, "a".to_string())],
            vec![(table, two_ints(false))],
            vec![(index, unique_on(0))],
        ),
        "the DDL records of the journal rebuild the catalogue"
    );
}

#[test]
fn a_checkpointed_catalogue_reads_back_with_an_emptied_journal() {
    let mut storage = empty_instance();
    let (db, table, index) = create_the_three(&mut storage, false);
    let data = storage.flushed(Data::empty()).expect("write `data`");
    storage.checkpoint().expect("checkpoint");
    // With the journal gone, what answers is what the checkpoint wrote.
    let storage = DiskStorage::open(DiskOptions::default(), storage.control, data, Vec::new())
        .expect("open the instance");
    assert_eq!(storage.journal.wal.iter().len(), 0);
    assert_eq!(
        catalogue_of(&storage, db, table),
        (
            vec![(db, "a".to_string())],
            vec![(table, two_ints(false))],
            vec![(index, unique_on(0))],
        )
    );
}

#[test]
fn a_ctl_behind_the_journal_takes_the_identifiers_of_the_catalogue() {
    let dir = Dir::new();
    let (db, table) = {
        let mut storage = dir.open();
        let db = storage.create_database("a").expect("create the database");
        let table = storage
            .create_table(db, &two_ints(false))
            .expect("create the table");
        storage.checkpoint().expect("checkpoint");
        (db, table)
    };
    // A control block whose three object counters are the ones of a fresh instance, its page
    // counter left alone.
    {
        let mut kept = dir.0.borrow_mut();
        kept.0.next_db_id = 1;
        kept.0.next_table_id = 1;
        kept.0.next_index_id = 1;
    }

    let mut storage = dir.open();
    let read_back = storage.control;
    assert_eq!(
        (
            read_back.next_db_id,
            read_back.next_table_id,
            read_back.next_index_id
        ),
        (2, 2, 1),
        "the counters take the largest identifier of the catalogue, plus one"
    );
    assert_eq!(
        storage.create_database("b").expect("create a database"),
        DbId(2)
    );
    assert_eq!(
        storage
            .create_table(db, &two_ints(false))
            .expect("create a table"),
        TableId(2)
    );
    assert_eq!(
        storage.tables(db).expect("tables").first().map(|t| t.0),
        Some(table)
    );
}

#[test]
fn clustered_index_shares_the_tree() {
    let mut storage = empty_instance();
    let db = storage.create_database("a").expect("create the database");
    let table = storage
        .create_table(db, &two_ints(true))
        .expect("create the table");
    let before = storage.control.next_page_id;

    let index = storage
        .create_index(table, &unique_on(0))
        .expect("the index of the clustered key");
    assert_eq!(
        storage.control.next_page_id, before,
        "an index on the clustered key allocates no page"
    );
    assert_eq!(
        storage.indexes(table).expect("indexes"),
        vec![(index, unique_on(0))]
    );
    assert!(
        storage
            .indexes
            .get(u64::from(index.0))
            .expect("the index")
            .shared,
        "the entry shares the order of the table"
    );
}

#[test]
fn a_unique_index_on_the_clustered_key_refuses_a_duplicate() {
    let mut storage = empty_instance();
    let db = storage.create_database("a").expect("create the database");
    let table = storage
        .create_table(db, &two_ints(true))
        .expect("create the table");
    for second in [11, 12] {
        storage
            .insert(TxnId(1), table, &pair(7, second))
            .expect("insert a row of key 7");
    }
    storage.commit(TxnId(1)).expect("commit");
    let before = storage.control.next_page_id;

    let err = storage
        .create_index(table, &unique_on(0))
        .expect_err("two live rows of key 7 are a duplicate");
    assert_eq!(err.number(), 2601);
    assert!(err.message().contains("I32(7)"), "{}", err.message());
    assert_eq!(storage.indexes(table).expect("indexes"), Vec::new());
    assert_eq!(storage.control.next_page_id, before, "nothing allocated");

    // The same shape without `unique` passes, and shares the order of the table.
    let index = storage
        .create_index(table, &index_on(0))
        .expect("a non-unique index takes the duplicate");
    assert_eq!(
        index,
        IndexId(2),
        "the refused statement kept its identifier"
    );
    assert_eq!(storage.control.next_page_id, before);

    // One row of key 7 deleted: the key is live once, and the unique index passes.
    let visible = storage.scan(&settled(2), table).expect("scan");
    assert_eq!(visible.len(), 2);
    storage
        .delete(TxnId(2), table, visible[0].0)
        .expect("delete");
    storage.commit(TxnId(2)).expect("commit");
    assert_eq!(
        storage
            .create_index(table, &unique_on(0))
            .expect("one live row of key 7 is no duplicate"),
        IndexId(3)
    );
}

#[test]
fn a_finished_txn_is_refused_before_uniqueness() {
    for clustered in [false, true] {
        let mut disk = empty_instance();
        let mut memory = MemoryStorage::new();
        let mut answers = Vec::new();
        let engines: [&mut dyn Engine; 2] = [&mut disk, &mut memory];
        for storage in engines {
            let table = table_with_a_unique_index(storage, clustered);
            // `TxnId(2)` has committed, and the row would also take the key 5 of a live
            // row: the precondition of the store is what must be reported.
            let err = failure(storage.insert(TxnId(2), table, &pair(9, 5)));
            assert_ne!(
                err.number(),
                2601,
                "clustered: {clustered}, {}",
                err.message()
            );
            assert!(
                err.message().contains("already Committed"),
                "clustered: {clustered}, {}",
                err.message()
            );
            answers.push(err);
        }
        assert_eq!(
            (answers[0].number(), answers[0].message()),
            (answers[1].number(), answers[1].message()),
            "disk and memory answer the same, clustered: {clustered}"
        );
    }
}

#[test]
fn a_row_of_the_wrong_arity_is_refused_before_uniqueness() {
    for clustered in [false, true] {
        let mut disk = empty_instance();
        let mut memory = MemoryStorage::new();
        let mut answers = Vec::new();
        let engines: [&mut dyn Engine; 2] = [&mut disk, &mut memory];
        for storage in engines {
            let table = table_with_a_unique_index(storage, clustered);
            // One value where the shape asks for two, and that value holds the key 5 of a
            // live row: the arity is what must be reported.
            let err = failure(storage.insert(TxnId(5), table, &Row(vec![Value::I32(5)])));
            assert_eq!(
                err.number(),
                50000,
                "clustered: {clustered}, {}",
                err.message()
            );
            assert!(
                err.message().contains("row has 1 values"),
                "clustered: {clustered}, {}",
                err.message()
            );
            assert!(
                !err.message().contains("data corruption"),
                "clustered: {clustered}, {}",
                err.message()
            );
            answers.push(err);
        }
        assert_eq!(
            (answers[0].number(), answers[0].message()),
            (answers[1].number(), answers[1].message()),
            "disk and memory answer the same, clustered: {clustered}"
        );
    }
}

#[test]
fn an_identifier_is_not_handed_out_twice_after_a_refused_statement() {
    let mut storage = empty_instance();
    let db = storage.create_database("a").expect("create the database");
    assert_eq!(db, DbId(1));
    // A shape of no column is refused before an identifier is taken.
    let empty = TableShape {
        columns: Vec::new(),
        clustered_key: None,
    };
    assert!(storage.create_table(db, &empty).is_err());
    assert_eq!(storage.control.next_table_id, 1, "no identifier taken");

    let table = storage
        .create_table(db, &two_ints(false))
        .expect("create the table");
    assert_eq!(table, TableId(1));
    // An index shape naming a column outside the table is refused before the identifier.
    assert!(storage.create_index(table, &unique_on(9)).is_err());
    assert_eq!(storage.control.next_index_id, 1);
    // A duplicate key takes the identifier and creates nothing (2601).
    for _ in 0..2 {
        storage
            .insert(TxnId(1), table, &Row(vec![Value::I32(7), Value::Null]))
            .expect("insert");
    }
    storage.commit(TxnId(1)).expect("commit");
    assert_eq!(
        storage
            .create_index(table, &unique_on(0))
            .unwrap_err()
            .number(),
        2601
    );
    assert_eq!(storage.indexes(table).expect("indexes"), Vec::new());
    assert_eq!(
        storage
            .create_index(table, &index_on(0))
            .expect("a non-unique index passes"),
        IndexId(2),
        "the identifier the refused statement took is not handed out again"
    );
}

#[test]
fn drop_table_takes_its_rows_and_its_indexes() {
    let dir = Dir::new();
    let (db, table, index) = {
        let mut storage = dir.open();
        let (db, table, index) = create_the_three(&mut storage, false);
        for value in 0..500 {
            storage
                .insert(TxnId(1), table, &Row(vec![Value::I32(value), Value::Null]))
                .expect("insert");
        }
        storage.commit(TxnId(1)).expect("commit");
        storage.drop_table(table).expect("drop the table");
        assert_eq!(storage.tables(db).expect("tables"), Vec::new());
        assert_eq!(storage.indexes(table).unwrap_err().number(), 50000);
        (db, table, index)
    };
    let mut storage = dir.open();
    assert_eq!(storage.recovery.unplaced, 500);
    assert_eq!(storage.tables(db).expect("tables"), Vec::new());
    assert!(storage.scan(&settled(9), table).is_err());
    assert!(storage.drop_index(index).is_err());
}

#[test]
fn drop_index_leaves_the_rows() {
    let mut storage = empty_instance();
    let (db, table, index) = create_the_three(&mut storage, false);
    let id = storage
        .insert(TxnId(1), table, &pair(1, 1))
        .expect("insert");
    storage.commit(TxnId(1)).expect("commit");
    storage.drop_index(index).expect("drop the index");
    assert_eq!(storage.indexes(table).expect("indexes"), Vec::new());
    assert_eq!(
        storage.tables(db).expect("tables"),
        vec![(table, two_ints(false))],
        "the table is untouched"
    );
    assert_eq!(
        storage.get(&settled(9), table, id).expect("get"),
        Some(pair(1, 1))
    );
    assert!(
        storage.drop_index(index).is_err(),
        "the index is unknown now"
    );
}

#[test]
fn disk_options_default_holds_1024_pages() {
    assert_eq!(DiskOptions::default().buffer_pages, 1024);
    assert_eq!(
        DiskOptions { buffer_pages: 2 },
        DiskOptions { buffer_pages: 2 }
    );
}

#[test]
fn ddl_survives_reopen() {
    let dir = Dir::new();
    let (db, table, index) = {
        let mut storage = dir.open();
        let ids = create_the_three(&mut storage, false);
        storage.checkpoint().expect("checkpoint");
        ids
    };

    let mut storage = dir.open();
    assert_eq!((db, table, index), (DbId(1), TableId(1), IndexId(1)));
    assert_eq!(
        catalogue_of(&storage, db, table),
        (
            vec![(db, "a".to_string())],
            vec![(table, two_ints(false))],
            vec![(index, unique_on(0))],
        )
    );
    // The identifiers are not handed out a second time.
    let (second_db, second_table, second_index) = create_the_three(&mut storage, false);
    assert_eq!(
        (second_db, second_table, second_index),
        (DbId(2), TableId(2), IndexId(2))
    );
}

#[test]
fn insert_commit_reopen_get() {
    for clustered in [false, true] {
        let dir = Dir::new();
        let (table, ids) = {
            let mut storage = dir.open();
            let db = storage.create_database("a").expect("create the database");
            let table = storage
                .create_table(db, &two_ints(clustered))
                .expect("create the table");
            // Inserted in an order the clustered key does not follow, so that the order of
            // the `scan` below tells the two stores apart.
            let mut ids = Vec::new();
            for key in [30, 10, 20] {
                ids.push(
                    storage
                        .insert(TxnId(1), table, &pair(key, key + 1))
                        .expect("insert"),
                );
            }
            storage.commit(TxnId(1)).expect("commit");
            // No checkpoint either: the clustered tree is now replayed
            // (`a_clustered_table_reopened_without_a_checkpoint_is_redone`): the two halves
            // of this loop both come back from the journal.
            (table, ids)
        };

        let mut storage = dir.open();
        for (position, key) in [30, 10, 20].into_iter().enumerate() {
            assert_eq!(
                storage.get(&settled(9), table, ids[position]).expect("get"),
                Some(pair(key, key + 1)),
                "clustered: {clustered}"
            );
        }
        let rows = storage
            .scan(&settled(9), table)
            .expect("scan");
        // A heap answers in `RowId` order, a clustered table in clustered-key order: that
        // is what says the rows came back from the store the shape asked for.
        let expected = if clustered {
            vec![
                (ids[1], pair(10, 11)),
                (ids[2], pair(20, 21)),
                (ids[0], pair(30, 31)),
            ]
        } else {
            vec![
                (ids[0], pair(30, 31)),
                (ids[1], pair(10, 11)),
                (ids[2], pair(20, 21)),
            ]
        };
        assert_eq!(rows, expected, "clustered: {clustered}");
    }
}

#[test]
fn unique_2601_on_disk() {
    for clustered in [false, true] {
        let mut storage = empty_instance();
        let db = storage.create_database("a").expect("create the database");
        let table = storage
            .create_table(db, &two_ints(clustered))
            .expect("create the table");
        // On the second column, so that the index is one of its own on both stores.
        let index = storage
            .create_index(table, &unique_on(1))
            .expect("create the index");

        // Two rows whose first column, the clustered key of the clustered half, is
        // inserted in decreasing order: the `scan` below reads back in one order or the
        // other and says which store answered.
        let first = storage
            .insert(TxnId(1), table, &pair(3, 5))
            .expect("insert");
        let second = storage
            .insert(TxnId(1), table, &pair(1, 7))
            .expect("insert");
        storage.commit(TxnId(1)).expect("commit");

        let err = storage
            .insert(TxnId(2), table, &pair(2, 5))
            .expect_err("the second row holds the key of the first");
        assert_eq!(err.number(), 2601, "clustered: {clustered}");
        assert!(err.message().contains(&index.to_string()), "{}", err.message());
        // The refused insert left no row: the check runs before the write.
        let rows = storage
            .scan(&settled(9), table)
            .expect("scan");
        let expected = if clustered {
            vec![(second, pair(1, 7)), (first, pair(3, 5))]
        } else {
            vec![(first, pair(3, 5)), (second, pair(1, 7))]
        };
        assert_eq!(rows, expected, "clustered: {clustered}");
    }
}

#[test]
fn one_begin_one_end_per_txn_over_two_tables() {
    let mut storage = empty_instance();
    let db = storage.create_database("a").expect("create the database");
    let first = storage
        .create_table(db, &two_ints(false))
        .expect("create the first table");
    let second = storage
        .create_table(db, &two_ints(false))
        .expect("create the second table");

    storage
        .insert(TxnId(3), first, &pair(1, 1))
        .expect("insert in the first table");
    storage
        .insert(TxnId(3), second, &pair(2, 2))
        .expect("insert in the second table");
    storage.commit(TxnId(3)).expect("commit");

    let records = storage.journal.wal.iter();
    let mine: Vec<WalRecordKind> = records
        .iter()
        .filter(|record| record.txn == TxnId(3))
        .map(|record| record.kind)
        .collect();
    assert_eq!(
        mine,
        vec![
            WalRecordKind::Begin,
            WalRecordKind::Insert,
            WalRecordKind::Insert,
            WalRecordKind::Commit
        ]
    );
    // Both rows are visible to a later snapshot: one status for the two tables.
    for table in [first, second] {
        let rows = storage
            .scan(&settled(9), table)
            .expect("scan");
        assert_eq!(rows.len(), 1);
    }
}

#[test]
fn stale_version_is_refused_before_uniqueness() {
    let mut storage = empty_instance();
    let db = storage.create_database("a").expect("create the database");
    let table = storage
        .create_table(db, &two_ints(false))
        .expect("create the table");
    storage
        .create_index(table, &unique_on(1))
        .expect("create the index");

    let live = storage
        .insert(TxnId(1), table, &pair(1, 5))
        .expect("insert the row whose key 5 stays live");
    let stale = storage
        .insert(TxnId(1), table, &pair(2, 6))
        .expect("insert the row that goes stale");
    storage.commit(TxnId(1)).expect("commit");
    storage.delete(TxnId(2), table, stale).expect("delete");
    storage.commit(TxnId(2)).expect("commit");

    // The update would break the unique index too: the key 5 is held by a live row.
    let err = storage
        .update(TxnId(3), table, stale, &pair(2, 5))
        .expect_err("a stale row is refused");
    assert_ne!(err.number(), 2601, "{}", err.message());
    assert!(err.message().contains("is stale"), "{}", err.message());
    // The same update on a row that is not stale does answer 2601, which is what makes the
    // order of the two checks visible.
    let other = storage
        .insert(TxnId(4), table, &pair(3, 7))
        .expect("insert a third row");
    storage.commit(TxnId(4)).expect("commit");
    let err = storage
        .update(TxnId(5), table, other, &pair(3, 5))
        .expect_err("the key 5 is taken");
    assert_eq!(err.number(), 2601, "{}", err.message());
    assert_eq!(
        storage.get(&settled(9), table, live).expect("get"),
        Some(pair(1, 5))
    );
}

#[test]
fn clustered_key_over_900_bytes_is_1946() {
    let mut storage = empty_instance();
    let db = storage.create_database("a").expect("create the database");

    let err = storage
        .create_table(db, &keyed_by(SqlType::Char(Len::Fixed(901))))
        .expect_err("a key of 901 declared bytes is refused");
    assert_eq!(err.number(), 1946);
    assert_eq!(err.severity(), 16);
    assert!(err.message().contains("901"), "{}", err.message());
    assert!(err.message().contains("900"), "{}", err.message());
    // The same shape one byte shorter is created, so 900 is the bound and not a guess.
    storage
        .create_table(db, &keyed_by(SqlType::Char(Len::Fixed(900))))
        .expect("a key of 900 declared bytes is taken");
    // `nchar` counts two bytes per character: 451 characters are 902 bytes.
    let err = storage
        .create_table(db, &keyed_by(SqlType::NChar(Len::Fixed(451))))
        .expect_err("451 characters of nchar are 902 bytes");
    assert_eq!(err.number(), 1946);
    assert!(err.message().contains("902"), "{}", err.message());
    assert_eq!(storage.tables(db).expect("tables").len(), 1);
}

#[test]
fn a_max_column_in_a_clustered_key_is_1946() {
    let mut storage = empty_instance();
    let db = storage.create_database("a").expect("create the database");

    let err = storage
        .create_table(db, &keyed_by(SqlType::VarChar(Len::Max)))
        .expect_err("a max column has no declared width");
    assert_eq!(err.number(), 1946);
    assert!(err.message().contains("unbounded"), "{}", err.message());
    assert_eq!(storage.tables(db).expect("tables"), Vec::new());
}

#[test]
fn index_seek_on_clustered_table() {
    let mut storage = empty_instance();
    let db = storage.create_database("a").expect("create the database");
    let table = storage
        .create_table(db, &two_ints(true))
        .expect("create the clustered table");
    // A shape other than the clustered key, kept up to date at each write.
    let index = storage
        .create_index(table, &index_on(1))
        .expect("a non-clustered index on a clustered table");

    let mut ids = Vec::new();
    for (key, indexed) in [(30, 5), (10, 7), (20, 5)] {
        ids.push(
            storage
                .insert(TxnId(1), table, &pair(key, indexed))
                .expect("insert"),
        );
    }
    storage.commit(TxnId(1)).expect("commit");

    let found = storage
        .seek(
            &settled(9),
            index,
            &KeyRange::Point(vec![Value::I32(5)]),
            Direction::Forward,
        )
        .expect("seek");
    assert_eq!(
        found,
        vec![(ids[0], pair(30, 5)), (ids[2], pair(20, 5))],
        "the two rows of key 5, by increasing RowId"
    );
    // The table answering the `seek` is the clustered one: its `scan` is in clustered-key
    // order, where a heap would answer in the insertion order 30, 10, 20.
    let rows = storage
        .scan(&settled(9), table)
        .expect("scan");
    assert_eq!(
        rows,
        vec![
            (ids[1], pair(10, 7)),
            (ids[2], pair(20, 5)),
            (ids[0], pair(30, 5)),
        ]
    );

    // The maintenance follows an update: the row leaves the key 5 for the key 9.
    storage
        .update(TxnId(2), table, ids[0], &pair(30, 9))
        .expect("update");
    storage.commit(TxnId(2)).expect("commit");
    let found = storage
        .seek(
            &settled(9),
            index,
            &KeyRange::Point(vec![Value::I32(5)]),
            Direction::Forward,
        )
        .expect("seek");
    assert_eq!(found, vec![(ids[2], pair(20, 5))]);
}

#[test]
fn a_clustered_table_reopened_without_a_checkpoint_is_redone() {
    let dir = Dir::new();
    let (heap, clustered, id) = {
        let mut storage = dir.open();
        let db = storage.create_database("a").expect("create the database");
        let heap = storage
            .create_table(db, &two_ints(false))
            .expect("create the heap");
        let clustered = storage
            .create_table(db, &two_ints(true))
            .expect("create the clustered table");
        storage
            .insert(TxnId(1), heap, &pair(7, 11))
            .expect("insert in the heap");
        let id = storage
            .insert(TxnId(1), clustered, &pair(7, 11))
            .expect("insert in the clustered table");
        storage.commit(TxnId(1)).expect("commit");
        (heap, clustered, id)
    };

    // No checkpoint: the rows of the heap and of the clustered table come back from the
    // journal, and the tree of the clustered table is replayed on the pages
    // [`ClusteredTable::redo_open`] formats as empty leaves.
    let mut storage = dir.open();
    let rows = storage
        .scan(&settled(9), heap)
        .expect("scan the heap");
    assert_eq!(rows.len(), 1, "the heap comes back from the journal");
    let rows = storage
        .scan(&settled(9), clustered)
        .expect("scan the clustered table");
    assert_eq!(
        rows,
        vec![(id, pair(7, 11))],
        "the tree is replayed from the journal"
    );
    assert_eq!(
        storage.get(&settled(9), clustered, id).expect("get"),
        Some(pair(7, 11))
    );
}

#[test]
fn a_reopen_hands_out_row_ids_past_the_ones_the_journal_names() {
    for clustered in [false, true] {
        let dir = Dir::new();
        let table = {
            let mut storage = dir.open();
            let db = storage.create_database("a").expect("create the database");
            let table = storage
                .create_table(db, &two_ints(clustered))
                .expect("create the table");
            for key in [1, 2, 3] {
                assert_eq!(
                    storage
                        .insert(TxnId(1), table, &pair(key, key))
                        .expect("insert"),
                    RowId(u64::try_from(key).expect("a small key"))
                );
            }
            storage.commit(TxnId(1)).expect("commit");
            if clustered {
                storage.checkpoint().expect("checkpoint");
            }
            table
        };

        // The state of the table is rebuilt from what the recovery of the `open` found:
        // the fourth row takes `RowId(4)`, not the `RowId(1)` a counter starting over
        // would hand out a second time.
        let mut storage = dir.open();
        assert_eq!(
            storage
                .insert(TxnId(2), table, &pair(4, 4))
                .expect("insert after the reopen"),
            RowId(4),
            "clustered: {clustered}"
        );
        storage.commit(TxnId(2)).expect("commit");
        let rows = storage
            .scan(&settled(9), table)
            .expect("scan");
        assert_eq!(rows.len(), 4, "clustered: {clustered}");
        // A transaction the journal has already ended may not write again: the register of
        // the instance took the winners of the recovery.
        let err = storage
            .insert(TxnId(1), table, &pair(5, 5))
            .expect_err("TxnId(1) is a winner of the recovery");
        assert_eq!(err.number(), 50000, "{}", err.message());
        assert!(err.message().contains("Committed"), "{}", err.message());
    }
}

#[test]
fn savepoint_rollback_to_partial() {
    let dir = Dir::new();
    let (db, table, first_two) = {
        let mut storage = dir.open();
        let db = storage.create_database("a").expect("create the database");
        let table = storage
            .create_table(db, &two_ints(false))
            .expect("create the table");
        let a = storage
            .insert(TxnId(1), table, &pair(1, 1))
            .expect("insert a");
        let b = storage
            .insert(TxnId(1), table, &pair(2, 2))
            .expect("insert b");
        let sp = storage.savepoint(TxnId(1)).expect("savepoint");
        let c = storage
            .insert(TxnId(1), table, &pair(3, 3))
            .expect("insert c");
        assert_eq!(c, RowId(3));
        storage
            .rollback_to(TxnId(1), sp)
            .expect("rollback to savepoint");
        storage.commit(TxnId(1)).expect("commit");
        (db, table, vec![a, b])
    };
    let _ = db;

    let mut storage = dir.open();
    let rows = storage
        .scan(&settled(9), table)
        .expect("scan");
    assert_eq!(rows.len(), 2, "{rows:?}");
    assert_eq!(rows[0], (first_two[0], pair(1, 1)));
    assert_eq!(rows[1], (first_two[1], pair(2, 2)));
    assert!(
        storage.journal.wal.iter()
            .iter()
            .any(|r| r.kind == WalRecordKind::Savepoint),
        "the savepoint is journalled"
    );
    assert!(
        storage.journal.wal.iter()
            .iter()
            .any(|r| r.kind == WalRecordKind::RollbackTo),
        "the rollback to savepoint is journalled"
    );
}

#[test]
fn vacuum_removes_dead_keeps_horizon() {
    let mut storage = empty_instance();
    let db = storage.create_database("a").expect("database");
    let table = storage.create_table(db, &two_ints(false)).expect("table");
    let a = storage.insert(TxnId(1), table, &pair(1, 1)).expect("a");
    let b = storage.insert(TxnId(1), table, &pair(2, 2)).expect("b");
    storage.commit(TxnId(1)).expect("commit 1");
    storage.delete(TxnId(2), table, a).expect("delete a");
    storage.commit(TxnId(2)).expect("commit 2");
    // A snapshot taken while TxnId(3) still runs: `xmax` does not settle 3, `active`
    // holds it, so 3's own write of b is not visible to it.
    let held = Snapshot {
        xmin: TxnId(1),
        xmax: TxnId(4),
        active: vec![TxnId(3)],
        own: TxnId(2),
    };
    storage
        .update(TxnId(3), table, b, &pair(20, 2))
        .expect("update b");
    storage.commit(TxnId(3)).expect("commit 3");

    storage.vacuum(TxnId(3)).expect("vacuum at horizon 3");
    assert_eq!(
        storage.get(&held, table, b).expect("old b visible"),
        Some(pair(2, 2)),
        "the version a snapshot still holds is kept"
    );
    storage.vacuum(TxnId(4)).expect("vacuum at horizon 4");
    assert_eq!(storage.get(&settled(9), table, a).expect("a gone"), None);
    assert_eq!(
        storage.get(&settled(9), table, b).expect("new b"),
        Some(pair(20, 2))
    );
    let c = storage
        .insert(TxnId(5), table, &pair(3, 3))
        .expect("row ids are not reused");
    assert_eq!(c, RowId(3));
}

#[test]
fn vacuum_drops_index_entries_of_dead_versions() {
    let mut storage = empty_instance();
    let db = storage.create_database("a").expect("database");
    let table = storage.create_table(db, &two_ints(false)).expect("table");
    // Indexed on column 0, the one the update moves from 2 to 20.
    let index = storage.create_index(table, &index_on(0)).expect("index");
    let b = storage
        .insert(TxnId(1), table, &pair(2, 2))
        .expect("b at key 2");
    storage.commit(TxnId(1)).expect("commit");
    storage
        .update(TxnId(2), table, b, &pair(20, 2))
        .expect("move b to 20");
    storage.commit(TxnId(2)).expect("commit");
    // A snapshot taken while TxnId(2) still runs: it reads b under its old key.
    let older = Snapshot {
        xmin: TxnId(1),
        xmax: TxnId(3),
        active: vec![TxnId(2)],
        own: TxnId(1),
    };
    let before = storage
        .seek(
            &older,
            index,
            &KeyRange::Point(vec![Value::I32(2)]),
            Direction::Forward,
        )
        .expect("seek the old key");
    assert_eq!(before, vec![(b, pair(2, 2))]);
    storage.vacuum(TxnId(3)).expect("vacuum");
    let after = storage
        .seek(
            &settled(9),
            index,
            &KeyRange::Point(vec![Value::I32(2)]),
            Direction::Forward,
        )
        .expect("seek");
    assert!(
        after.is_empty(),
        "the index lost the dead version: {after:?}"
    );
}

#[test]
fn indexes_are_rebuilt_at_open() {
    let dir = Dir::new();
    let (table, index, ids) = {
        let mut storage = dir.open();
        let db = storage.create_database("a").expect("database");
        let table = storage.create_table(db, &two_ints(false)).expect("table");
        let index = storage.create_index(table, &index_on(0)).expect("index");
        let mut ids = Vec::new();
        for key in [1i32, 2, 3] {
            ids.push(
                storage
                    .insert(TxnId(1), table, &pair(key, 0))
                    .expect("insert"),
            );
        }
        storage.commit(TxnId(1)).expect("commit");
        (table, index, ids)
    };
    let _ = table;
    // No checkpoint: the tree pages of the index stayed in the pool and are gone; the row
    // pages themselves come back from the heap and the journal.
    let mut storage = dir.open();
    let rows = storage
        .seek(
            &settled(9),
            index,
            &KeyRange::Point(vec![Value::I32(2)]),
            Direction::Forward,
        )
        .expect("seek");
    assert_eq!(rows, vec![(ids[1], pair(2, 0))], "the index is back");
}

#[test]
fn a_loser_xmax_on_data_is_cleared() {
    let dir = Dir::new();
    let (table, id) = {
        let mut storage = dir.open();
        let db = storage.create_database("a").expect("database");
        let table = storage.create_table(db, &two_ints(false)).expect("table");
        let id = storage
            .insert(TxnId(1), table, &pair(1, 1))
            .expect("insert");
        storage.commit(TxnId(1)).expect("commit 1");
        // TxnId(2) deletes the row; its page is shared with a later committed write of
        // TxnId(3) that reaches `data`, which carries the loser's `xmax`.
        storage.delete(TxnId(2), table, id).expect("delete");
        storage
            .insert(TxnId(3), table, &pair(9, 9))
            .expect("second write");
        storage.commit(TxnId(3)).expect("commit 3");
        storage.checkpoint().expect("checkpoint");
        storage.rollback(TxnId(2)).expect("rollback 2");
        // The rollback replays the undo and clears the xmax on `data`'s copy too; a build
        // that left it there is what this test would catch through the reopen below.
        (table, id)
    };
    let mut storage = dir.open();
    assert_eq!(
        storage.get(&settled(9), table, id).expect("get"),
        Some(pair(1, 1)),
        "the row of a rolled-back delete is back"
    );
    storage
        .update(TxnId(4), table, id, &pair(2, 2))
        .expect("update a row whose loser xmax is cleared");
    storage.commit(TxnId(4)).expect("commit");
}

#[test]
fn rollback_writes_one_abort_and_takes_back_both_tables() {
    let mut storage = empty_instance();
    let db = storage.create_database("a").expect("create the database");
    let heap = storage
        .create_table(db, &two_ints(false))
        .expect("create the heap");
    let clustered = storage
        .create_table(db, &two_ints(true))
        .expect("create the clustered table");
    let index = storage
        .create_index(heap, &index_on(1))
        .expect("create the index");

    storage
        .insert(TxnId(3), heap, &pair(1, 5))
        .expect("insert in the heap");
    storage
        .insert(TxnId(3), clustered, &pair(2, 5))
        .expect("insert in the clustered table");
    storage.rollback(TxnId(3)).expect("rollback");

    let mine: Vec<WalRecordKind> = storage.journal.wal.iter()
        .iter()
        .filter(|record| record.txn == TxnId(3))
        .map(|record| record.kind)
        .collect();
    assert_eq!(
        mine,
        vec![
            WalRecordKind::Begin,
            WalRecordKind::Insert,
            WalRecordKind::Insert,
            WalRecordKind::Abort
        ]
    );
    for table in [heap, clustered] {
        let rows = storage
            .scan(&settled(9), table)
            .expect("scan");
        assert_eq!(rows, Vec::new());
    }
    // The versions themselves are gone, not merely hidden: `latest_version` reads the
    // directory of the store and no longer finds the row.
    for (table, id) in [(heap, RowId(1)), (clustered, RowId(2))] {
        assert_eq!(
            storage.latest_version(table, id).expect("latest_version"),
            None
        );
    }
    // The index of the heap lost the entry of the undone insert too.
    let found = storage
        .seek(
            &settled(9),
            index,
            &KeyRange::Point(vec![Value::I32(5)]),
            Direction::Forward,
        )
        .expect("seek");
    assert_eq!(found, Vec::new());
}

#[test]
fn drop_database_takes_its_tables_and_indexes() {
    let mut storage = empty_instance();
    let (db, table, _index) = create_the_three(&mut storage, false);
    let other = storage.create_database("b").expect("create the database");
    let kept = storage
        .create_table(other, &two_ints(false))
        .expect("create the table");

    storage.drop_database(db).expect("drop the database");
    assert_eq!(
        storage.databases().expect("databases"),
        vec![(other, "b".to_string())]
    );
    assert_eq!(
        storage.tables(other).expect("tables"),
        vec![(kept, two_ints(false))]
    );
    // The dropped database, its table and the index of that table have left the
    // catalogue.
    for message in [
        storage.tables(db).unwrap_err().message(),
        storage.indexes(table).unwrap_err().message(),
        storage.drop_table(table).unwrap_err().message(),
        storage.drop_database(db).unwrap_err().message(),
    ] {
        assert!(message.contains("unknown to instance"), "{message}");
    }
}

#[test]
fn a_table_of_an_unknown_database_is_refused() {
    let mut storage = empty_instance();
    let err = storage
        .create_table(DbId(4), &two_ints(false))
        .expect_err("an unknown database is refused");
    assert!(
        err.message().contains("database 4 is unknown"),
        "{}",
        err.message()
    );
    assert_eq!(storage.control.next_table_id, 1);

    let db = storage.create_database("a").expect("create the database");
    let clustered = TableShape {
        columns: vec![TypeInfo::new(SqlType::Int, true)],
        clustered_key: Some(vec![KeyColumn {
            column: 3,
            descending: false,
        }]),
    };
    let err = storage
        .create_table(db, &clustered)
        .expect_err("a key outside the shape is refused");
    assert!(err.message().contains("column 3"), "{}", err.message());
}

#[test]
fn a_table_created_after_a_reopen_counts_on_from_the_recovery() {
    let dir = Dir::new();
    let db = {
        let mut storage = dir.open();
        let db = storage.create_database("a").expect("create the database");
        let table = storage
            .create_table(db, &two_ints(false))
            .expect("create the table");
        for key in [1, 2, 3] {
            storage
                .insert(TxnId(1), table, &pair(key, key))
                .expect("insert");
        }
        storage.commit(TxnId(1)).expect("commit");
        db
    };
    let mut storage = dir.open();
    let fresh = storage
        .create_table(db, &two_ints(false))
        .expect("create another table");
    assert_eq!(
        storage.insert(TxnId(2), fresh, &pair(4, 4)).expect("insert"),
        RowId(4)
    );
}
