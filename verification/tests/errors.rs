//! An input for each error.

use vauban_storage::disk::data::Data;
use vauban_storage::disk::definitions::{IndexEntry, TableEntry};
use vauban_storage::disk::encode::encode_row;
use vauban_storage::disk::heap_table::{HeapTable, TableTxn};
use vauban_storage::disk::journal::Journal;
use vauban_storage::disk::page::{Page, PageId, PageKind};
use vauban_storage::disk::table_model::RowUndo;
use vauban_storage::disk::version::{with_xmax, VersionHeader};
use vauban_storage::disk::wal::{CheckpointPayload, Wal, WalRecordKind};
use vauban_storage::disk::wal_payload::RowChange;
use vauban_storage::error::{Bug, Corruption, IdSpace, InternalError, KeyKind};
use vauban_storage::memory::txn_log::{TxnState, UndoEntry};
use vauban_storage::{
    Control, DbId, Direction, DiskOptions, DiskStorage, IndexId, IndexShape, KeyColumn, KeyRange,
    MemoryStorage, Row, RowId, SavepointId, Snapshot, SqlError, SqlResult, SqlString, SqlType,
    TableId, TableShape, TxnId, TxnStatus, TypeInfo, Value,
};

fn column(column: u16) -> KeyColumn {
    KeyColumn {
        column,
        descending: false,
    }
}

fn shape() -> TableShape {
    TableShape {
        columns: vec![TypeInfo::new(SqlType::Int, true)],
        clustered_key: None,
    }
}

fn index(columns: Vec<KeyColumn>, included: Vec<u16>) -> IndexShape {
    IndexShape {
        columns,
        unique: true,
        included,
    }
}

fn row(value: i32) -> Row {
    Row(vec![Value::I32(value)])
}

fn text(value: &str) -> Value {
    Value::String(SqlString {
        text: value.to_string(),
    })
}

fn snap() -> Snapshot {
    Snapshot {
        xmin: TxnId(100),
        xmax: TxnId(100),
        active: Vec::new(),
        own: TxnId(99),
    }
}

/// The bug a call was refused with.
fn bug<T: std::fmt::Debug>(r: SqlResult<T>) -> Bug {
    match r {
        Err(SqlError::Internal(InternalError::Bug(bug))) => bug,
        other => panic!("expected a bug, got {other:?}"),
    }
}

/// The bug a call on a table was refused with.
fn inner_bug<T: std::fmt::Debug>(r: Result<T, InternalError>) -> Bug {
    match r {
        Err(InternalError::Bug(bug)) => bug,
        other => panic!("expected a bug, got {other:?}"),
    }
}

/// The corruption a call reported.
fn broken<T: std::fmt::Debug>(r: Result<T, InternalError>) -> Corruption {
    match r {
        Err(InternalError::Corruption(corruption)) => corruption,
        other => panic!("expected a corruption, got {other:?}"),
    }
}

fn memory() -> (MemoryStorage, DbId, TableId) {
    let mut m = MemoryStorage::new();
    let db = m.create_database("db").unwrap();
    let t = m.create_table(db, &shape()).unwrap();
    (m, db, t)
}

fn disk() -> (DiskStorage, DbId, TableId) {
    let mut d =
        DiskStorage::open(DiskOptions::default(), Control::default(), Data::empty(), Vec::new()).expect("open");
    let db = d.create_database("db").unwrap();
    let t = d.create_table(db, &shape()).unwrap();
    (d, db, t)
}

fn reopen(d: &DiskStorage) -> Result<DiskStorage, InternalError> {
    DiskStorage::open(d.options, d.control, Data::empty(), d.journal.wal.bytes.clone())
}

#[test]
fn the_memory_engine_names_what_it_does_not_know() {
    let (mut m, db, t) = memory();
    let no_db = bug(m.drop_database(DbId(9)));
    assert!(matches!(no_db, Bug::UnknownDatabase(DbId(9))));
    assert_eq!(no_db.to_string(), "unknown database 9");
    let no_table = bug(m.drop_table(TableId(9)));
    assert!(matches!(no_table, Bug::UnknownTable(TableId(9))));
    assert_eq!(no_table.to_string(), "unknown table 9");
    let no_index = bug(m.drop_index(IndexId(9)));
    assert!(matches!(no_index, Bug::UnknownIndex(IndexId(9))));
    assert_eq!(no_index.to_string(), "unknown index 9");
    assert!(matches!(
        bug(m.delete(TxnId(1), t, RowId(7))),
        Bug::UnknownRow {
            row: RowId(7),
            ..
        }
    ));
    assert!(matches!(
        bug(m.rollback_to(TxnId(5), SavepointId(0))),
        Bug::SavepointOfUnknownTxn { .. }
    ));
    m.savepoint(TxnId(5)).unwrap();
    assert!(matches!(
        bug(m.rollback_to(TxnId(5), SavepointId(77))),
        Bug::UnknownSavepoint { .. }
    ));
    m.commit(TxnId(5)).unwrap();
    assert!(matches!(
        bug(m.savepoint(TxnId(5))),
        Bug::FinishedTxn {
            txn: TxnId(5),
            status: TxnStatus::Committed
        }
    ));
    assert!(m.tables(db).is_ok());
}

#[test]
fn the_memory_engine_refuses_a_row_another_transaction_holds() {
    let (mut m, _, t) = memory();
    let a = m.insert(TxnId(1), t, &row(1)).unwrap();
    assert!(matches!(
        bug(m.delete(TxnId(2), t, a)),
        Bug::RowBeingWritten {
            by: TxnId(1),
            status: TxnStatus::InProgress,
            ..
        }
    ));
    m.commit(TxnId(1)).unwrap();
    m.delete(TxnId(2), t, a).unwrap();
    assert!(matches!(
        bug(m.delete(TxnId(3), t, a)),
        Bug::StaleRow { by: TxnId(2), .. }
    ));
    assert!(matches!(
        bug(m.insert(TxnId(3), t, &Row(Vec::new()))),
        Bug::WrongArity {
            values: 0,
            columns: 1,
            ..
        }
    ));
}

#[test]
fn both_engines_refuse_a_shape_that_cannot_be_stored() {
    let (mut m, mdb, mt) = memory();
    let (mut d, ddb, dt) = disk();
    let none = TableShape {
        columns: Vec::new(),
        clustered_key: None,
    };
    assert!(matches!(bug(m.create_table(mdb, &none)), Bug::NoColumn));
    assert!(matches!(bug(d.create_table(ddb, &none)), Bug::NoColumn));
    let empty = TableShape {
        clustered_key: Some(Vec::new()),
        ..shape()
    };
    for found in [
        bug(m.create_table(mdb, &empty)),
        bug(d.create_table(ddb, &empty)),
    ] {
        assert!(matches!(found, Bug::EmptyKey(KeyKind::Clustered)));
    }
    let far = TableShape {
        clustered_key: Some(vec![column(3)]),
        ..shape()
    };
    for found in [bug(m.create_table(mdb, &far)), bug(d.create_table(ddb, &far))] {
        assert!(matches!(
            found,
            Bug::KeyColumnOutOfRange {
                key: KeyKind::Clustered,
                column: 3,
                columns: 1
            }
        ));
    }
    let bare = index(Vec::new(), Vec::new());
    for found in [bug(m.create_index(mt, &bare)), bug(d.create_index(dt, &bare))] {
        assert!(matches!(found, Bug::EmptyKey(KeyKind::Index)));
    }
    let wide = index(vec![column(0)], vec![4]);
    for found in [bug(m.create_index(mt, &wide)), bug(d.create_index(dt, &wide))] {
        assert!(matches!(
            found,
            Bug::IncludedColumnOutOfRange {
                column: 4,
                columns: 1
            }
        ));
    }
}

#[test]
fn both_engines_refuse_a_prefix_that_does_not_fit_the_key() {
    let (mut m, _, mt) = memory();
    let (mut d, _, dt) = disk();
    let mi = m
        .create_index(mt, &index(vec![column(0)], Vec::new()))
        .unwrap();
    let di = d
        .create_index(dt, &index(vec![column(0)], Vec::new()))
        .unwrap();
    let long = KeyRange::Point(vec![Value::I32(1), Value::I32(2)]);
    for found in [
        bug(m.seek(&snap(), mi, &long, Direction::Forward)),
        bug(d.seek(&snap(), di, &long, Direction::Forward)),
    ] {
        assert!(matches!(
            found,
            Bug::PrefixTooLong {
                values: 2,
                columns: 1
            }
        ));
    }
    let wrong = KeyRange::Point(vec![text("a")]);
    for found in [
        bug(m.seek(&snap(), mi, &wrong, Direction::Forward)),
        bug(d.seek(&snap(), di, &wrong, Direction::Forward)),
    ] {
        assert!(matches!(
            found,
            Bug::PrefixValueMismatch { position: 0, .. }
        ));
    }
}

#[test]
fn values_of_two_families_are_not_compared() {
    let (mut m, _, t) = memory();
    m.create_index(t, &index(vec![column(0)], Vec::new()))
        .unwrap();
    m.insert(TxnId(1), t, &row(1)).unwrap();
    let err = m
        .insert(TxnId(1), t, &Row(vec![text("a")]))
        .expect_err("a text among integers");
    assert!(matches!(err, SqlError::IncomparableValues), "{err:?}");
}

#[test]
fn identifiers_run_out() {
    let (mut m, db, t) = memory();
    m.next_db_id = u32::MAX;
    assert!(matches!(
        bug(m.create_database("x")),
        Bug::IdsExhausted(IdSpace::Database)
    ));
    m.next_table_id = u32::MAX;
    assert!(matches!(
        bug(m.create_table(db, &shape())),
        Bug::IdsExhausted(IdSpace::Table)
    ));
    m.next_index_id = u32::MAX;
    assert!(matches!(
        bug(m.create_index(t, &index(vec![column(0)], Vec::new()))),
        Bug::IdsExhausted(IdSpace::Index)
    ));
    m.next_savepoint_id = u64::MAX;
    assert!(matches!(
        bug(m.savepoint(TxnId(1))),
        Bug::IdsExhausted(IdSpace::Savepoint)
    ));

    let (mut d, db, t) = disk();
    d.control.next_db_id = u64::from(u32::MAX) + 1;
    assert!(matches!(
        bug(d.create_database("x")),
        Bug::IdsExhausted(IdSpace::Database)
    ));
    d.control.next_table_id = u64::from(u32::MAX) + 1;
    assert!(matches!(
        bug(d.create_table(db, &shape())),
        Bug::IdsExhausted(IdSpace::Table)
    ));
    d.control.next_index_id = u64::from(u32::MAX) + 1;
    assert!(matches!(
        bug(d.create_index(t, &index(vec![column(0)], Vec::new()))),
        Bug::IdsExhausted(IdSpace::Index)
    ));
    d.journal.registry.next_savepoint_id = u64::MAX;
    assert!(matches!(
        bug(d.savepoint(TxnId(1))),
        Bug::IdsExhausted(IdSpace::Savepoint)
    ));
}

#[test]
fn the_durable_engine_names_what_it_does_not_know() {
    let (mut d, _, t) = disk();
    let gone = bug(d.drop_database(DbId(9)));
    assert!(matches!(gone, Bug::NotInInstance(IdSpace::Database, 9)));
    assert!(matches!(
        bug(d.insert(TxnId(1), TableId(9), &row(1))),
        Bug::NotInInstance(IdSpace::Table, 9)
    ));
    assert!(matches!(
        bug(d.drop_index(IndexId(9))),
        Bug::NotInInstance(IdSpace::Index, 9)
    ));
    assert!(matches!(
        bug(d.rollback_to(TxnId(5), SavepointId(0))),
        Bug::SavepointOfUnknownTxn { .. }
    ));
    d.insert(TxnId(5), t, &row(1)).unwrap();
    assert!(matches!(
        bug(d.rollback_to(TxnId(5), SavepointId(3))),
        Bug::UnknownSavepoint { .. }
    ));
    assert!(matches!(
        inner_bug(DiskStorage::open(
            DiskOptions { buffer_pages: 0 },
            Control::default(),
            Data::empty(),
            Vec::new()
        )),
        Bug::NoFrame
    ));
}

fn table() -> (HeapTable, Journal) {
    let wal = Wal::open(Vec::new()).expect("open");
    (HeapTable::create(TableId(3), shape()), Journal::over(wal))
}

#[test]
fn a_table_runs_out_of_identifiers_serials_and_addresses() {
    let (mut t, mut j) = table();
    t.state.next_row_id = u64::MAX;
    assert!(matches!(
        inner_bug(t.insert(&mut j, TxnId(1), &row(1))),
        Bug::RowIdsExhausted(TableId(3))
    ));
    let (mut t, mut j) = table();
    t.state.next_seq = u64::MAX;
    assert!(matches!(
        inner_bug(t.insert(&mut j, TxnId(1), &row(1))),
        Bug::SerialsExhausted(TableId(3))
    ));
    let (mut t, mut j) = table();
    t.heap.next = u64::MAX;
    assert!(matches!(
        inner_bug(t.insert(&mut j, TxnId(1), &row(1))),
        Bug::HeapFull(TableId(3))
    ));
    let (mut t, mut j) = table();
    assert!(matches!(
        inner_bug(t.insert(&mut j, TxnId(u64::MAX), &row(1))),
        Bug::ReservedTxn(_)
    ));
}

#[test]
fn a_record_too_long_for_the_journal_is_refused() {
    let mut wal = Wal::open(Vec::new()).expect("open");
    let err = wal.append(WalRecordKind::Insert, TxnId(1), &vec![0; 2 * 1024 * 1024]);
    assert!(matches!(
        inner_bug(err),
        Bug::PayloadTooLong {
            kind: WalRecordKind::Insert,
            bytes: 2_097_152
        }
    ));
}

#[test]
fn an_undo_that_does_not_fit_its_row_is_reported() {
    let (mut t, mut j) = table();
    let id = t.insert(&mut j, TxnId(4), &row(1)).unwrap();
    t.commit(&mut j, TxnId(4)).unwrap();
    let undo = |t: &mut HeapTable, txn: u64, entry: RowUndo| {
        t.state.txns.insert(
            txn,
            TableTxn {
                writes: vec![entry],
            },
        );
        t.rollback_to_savepoint(TxnId(txn), 0)
    };
    assert!(matches!(
        inner_bug(undo(&mut t, 5, RowUndo::Insert(RowId(9)))),
        Bug::UnknownRow { .. }
    ));
    assert!(matches!(
        broken(undo(&mut t, 5, RowUndo::Insert(id))),
        Corruption::NotTheCreated { txn: TxnId(5), .. }
    ));
    assert!(matches!(
        broken(undo(&mut t, 5, RowUndo::Delete(id))),
        Corruption::NotTheDelete { txn: TxnId(5), .. }
    ));
    assert!(matches!(
        broken(undo(&mut t, 4, RowUndo::Update(id))),
        Corruption::NothingUnderUpdate { txn: TxnId(4), .. }
    ));

    let (mut m, _, mt) = memory();
    let id = m.insert(TxnId(1), mt, &row(1)).unwrap();
    m.commit(TxnId(1)).unwrap();
    for (txn, entry) in [
        (6, UndoEntry::Update { table: mt, row: id }),
        (7, UndoEntry::Delete { table: mt, row: id }),
    ] {
        m.txns.insert(
            txn,
            TxnState {
                status: TxnStatus::InProgress,
                writes: vec![entry],
                savepoints: Vec::new(),
            },
        );
    }
    assert!(matches!(
        m.rollback(TxnId(6)),
        Err(SqlError::Internal(InternalError::Corruption(
            Corruption::NotTheUpdate { .. }
        )))
    ));
    assert!(matches!(
        m.rollback(TxnId(7)),
        Err(SqlError::Internal(InternalError::Corruption(
            Corruption::NotTheDelete { .. }
        )))
    ));
}

#[test]
fn an_update_over_another_version_is_reported() {
    let (mut t, mut j) = table();
    let id = t.insert(&mut j, TxnId(4), &row(1)).unwrap();
    t.update(&mut j, TxnId(4), id, &row(2)).unwrap();
    // The version under the update does not carry the mark of its transaction any more.
    let rid = *t
        .heap
        .records
        .keys()
        .first()
        .expect("the first version");
    let bytes = t.heap.records.get(rid).expect("a record").clone();
    t.heap
        .records
        .insert(rid, with_xmax(&bytes, Some(TxnId(8))).expect("a version"));
    assert!(matches!(
        broken(t.rollback(&mut j, TxnId(4))),
        Corruption::NotTheReplaced {
            seq: 1,
            txn: TxnId(4),
            ..
        }
    ));
}

#[test]
fn a_journal_that_hides_an_unknown_version_does_not_open() {
    let (mut d, _, t) = disk();
    let change = RowChange {
        table: t,
        header: VersionHeader {
            row: RowId(7),
            xmin: TxnId(1),
            xmax: Some(TxnId(2)),
            seq: 3,
        },
        columns: Vec::new(),
    };
    let wal = &mut d.journal.wal;
    wal.append(WalRecordKind::Delete, TxnId(2), &change.encode())
        .unwrap();
    wal.append_durable(WalRecordKind::Commit, TxnId(2), &[])
        .unwrap();
    assert!(matches!(
        broken(reopen(&d)),
        Corruption::HiddenVersionMissing {
            row: RowId(7),
            seq: 3,
            ..
        }
    ));
}

/// An instance whose journal holds one committed row of `columns` in a table of one column.
fn holding(columns: Vec<u8>) -> (DiskStorage, TableId) {
    let (mut d, _, t) = disk();
    let change = RowChange {
        table: t,
        header: VersionHeader {
            row: RowId(1),
            xmin: TxnId(2),
            xmax: None,
            seq: 1,
        },
        columns,
    };
    let wal = &mut d.journal.wal;
    wal.append(WalRecordKind::Insert, TxnId(2), &change.encode())
        .unwrap();
    wal.append_durable(WalRecordKind::Commit, TxnId(2), &[])
        .unwrap();
    (d, t)
}

/// The corruption an engine answers.
fn unread<T: std::fmt::Debug>(r: SqlResult<T>) -> Corruption {
    match r {
        Err(SqlError::Internal(InternalError::Corruption(c))) => c,
        other => panic!("{other:?}"),
    }
}

#[test]
fn a_version_that_is_no_row_is_found_out_by_the_reads() {
    let (d, t) = holding(vec![9, 9, 9]);
    let mut d = reopen(&d).expect("the columns are not read by an open");
    let broken = Corruption::NotARow { bytes: 3 }.to_string();
    assert_eq!(unread(d.get(&snap(), t, RowId(1))).to_string(), broken);
    assert_eq!(unread(d.scan(&snap(), t)).to_string(), broken);
    assert_eq!(unread(d.latest_version(t, RowId(1))).to_string(), broken);
    assert_eq!(
        unread(d.create_index(t, &index(vec![column(0)], Vec::new()))).to_string(),
        broken
    );
    // The other rows of the table are read and written.
    let id = d.insert(TxnId(5), t, &row(7)).unwrap();
    d.commit(TxnId(5)).unwrap();
    assert_eq!(d.get(&snap(), t, id).unwrap(), Some(row(7)));
    // What is no row may be deleted: its columns are not needed.
    d.delete(TxnId(6), t, RowId(1)).unwrap();
    d.commit(TxnId(6)).unwrap();
    assert_eq!(d.scan(&snap(), t).unwrap(), vec![(id, row(7))]);
}

#[test]
fn a_row_that_lacks_a_key_column_is_found_out_by_the_seek() {
    let mut columns = Vec::new();
    encode_row(&Row(Vec::new()), &mut columns);
    let (d, t) = holding(columns);
    let mut d = reopen(&d).unwrap();
    assert_eq!(d.get(&snap(), t, RowId(1)).unwrap(), Some(Row(Vec::new())));
    assert!(matches!(
        unread(d.create_index(t, &index(vec![column(0)], Vec::new()))),
        Corruption::KeyColumnMissing {
            values: 0,
            column: 0
        }
    ));
}

#[test]
fn a_journal_that_defines_what_cannot_be_stored_does_not_open() {
    let (mut d, db, _) = disk();
    let entry = TableEntry {
        table: TableId(8),
        db,
        shape: TableShape {
            columns: Vec::new(),
            clustered_key: None,
        },
        first_page: PageId(5),
    };
    d.journal
        .wal
        .append_durable(WalRecordKind::CreateTable, TxnId(0), &entry.encode())
        .unwrap();
    assert!(matches!(
        broken(reopen(&d)),
        Corruption::BrokenDefinition { id: 8 }
    ));
    let (mut d, _, _) = disk();
    d.journal
        .wal
        .append_durable(WalRecordKind::CreateTable, TxnId(0), &[1, 2, 3])
        .unwrap();
    assert!(matches!(
        broken(reopen(&d)),
        Corruption::NotADefinition { bytes: 3 }
    ));
}

#[test]
fn a_journal_whose_index_cannot_be_built_does_not_open() {
    let (mut d, _, t) = disk();
    d.insert(TxnId(1), t, &row(1)).unwrap();
    d.insert(TxnId(1), t, &row(1)).unwrap();
    d.commit(TxnId(1)).unwrap();
    let entry = IndexEntry {
        index: IndexId(4),
        table: t,
        shape: index(vec![column(0)], Vec::new()),
        shared: false,
    };
    d.journal
        .wal
        .append_durable(WalRecordKind::CreateIndex, TxnId(0), &entry.encode())
        .unwrap();
    assert!(matches!(
        broken(reopen(&d)),
        Corruption::IndexRebuild(IndexId(4))
    ));
}

#[test]
fn damaged_pages_and_records_are_named() {
    assert!(matches!(
        broken(PageKind::from_byte(200)),
        Corruption::UnknownPageKind(200)
    ));
    let mut page = Page::empty(PageKind::Heap, PageId(3));
    page.seal();
    let fresh = page.0;
    let mut magic = fresh;
    magic[0] = 0;
    assert!(matches!(
        broken(Page(magic).verify()),
        Corruption::PageMagic {
            page: PageId(3),
            ..
        }
    ));
    let mut version = fresh;
    version[4] = 77;
    assert!(matches!(
        broken(Page(version).verify()),
        Corruption::PageVersion {
            page: PageId(3),
            version: 77
        }
    ));
    let mut torn = fresh;
    torn[5000] ^= 1;
    assert!(matches!(
        broken(Page(torn).verify()),
        Corruption::PageChecksum {
            page: PageId(3),
            ..
        }
    ));
    assert!(matches!(
        broken(WalRecordKind::from_byte(99)),
        Corruption::UnknownRecordKind(99)
    ));
    assert!(matches!(
        broken(CheckpointPayload::decode(&[0; 7])),
        Corruption::CheckpointLength(7)
    ));
    assert!(matches!(
        broken(RowChange::decode(&[0; 7])),
        Corruption::ShortChange { bytes: 7 }
    ));
    assert!(matches!(
        broken(VersionHeader::read_from(&[0; 31])),
        Corruption::VersionTooShort { bytes: 31 }
    ));
}

#[test]
fn a_poisoned_lock_is_put_in_words() {
    assert_eq!(
        Corruption::LockPoisoned.to_string(),
        "storage lock poisoned"
    );
    let err = SqlError::Internal(InternalError::Corruption(Corruption::LockPoisoned));
    assert_eq!(err.number(), 50000);
    assert!(err.message().contains("data corruption: storage lock poisoned"));
}
