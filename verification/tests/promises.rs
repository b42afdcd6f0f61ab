//! What the two engines promise over several calls, each on concrete values.

use vauban_storage::disk::data::Data;
use vauban_storage::disk::heap::{Heap, Rid};
use vauban_storage::disk::heap_table::{HeapTable, StoredVersion};
use vauban_storage::disk::journal::Journal;
use vauban_storage::disk::page::Lsn;
use vauban_storage::disk::redo::RedoHeap;
use vauban_storage::disk::version::VersionHeader;
use vauban_storage::disk::wal::{frame, Framed, Wal, WalRecord, WalRecordKind};
use vauban_storage::disk::wal_payload::RowChange;
use vauban_storage::error::{Bug, Corruption, InternalError, KeyKind};
use vauban_storage::memory::key_order::KeyOrder;
use vauban_storage::memory::read::sort_rows;
use vauban_storage::value::Decimal;
use vauban_storage::{
    plan_open, Bound, Control, Direction, DiskOptions, DiskStorage, IndexId, IndexShape,
    KeyColumn, KeyRange, MemoryStorage, OpenPlan, Row, RowId, Snapshot, SqlType, TableId,
    TableShape, TxnId, TypeInfo, Value,
};

/// A table of one nullable column of type `ty`.
fn shape(ty: SqlType) -> TableShape {
    TableShape {
        columns: vec![TypeInfo::new(ty, true)],
        clustered_key: None,
    }
}

fn on_first(unique: bool) -> IndexShape {
    IndexShape {
        columns: vec![KeyColumn {
            column: 0,
            descending: false,
        }],
        unique,
        included: Vec::new(),
    }
}

fn row(value: i32) -> Row {
    Row(vec![Value::I32(value)])
}

/// A snapshot of `own` for which everything below 100 but `active` is settled.
fn snap(own: u64, active: &[u64]) -> Snapshot {
    Snapshot {
        xmin: TxnId(active.iter().copied().min().unwrap_or(100)),
        xmax: TxnId(100),
        active: active.iter().map(|t| TxnId(*t)).collect(),
        own: TxnId(own),
    }
}

fn memory(ty: SqlType) -> (MemoryStorage, TableId, IndexId) {
    let mut m = MemoryStorage::new();
    let db = m.create_database("db").unwrap();
    let t = m.create_table(db, &shape(ty)).unwrap();
    let ix = m.create_index(t, &on_first(false)).unwrap();
    (m, t, ix)
}

fn disk() -> (DiskStorage, TableId, IndexId) {
    let mut d =
        DiskStorage::open(DiskOptions::default(), Control::default(), Data::empty(), Vec::new()).expect("open");
    let db = d.create_database("db").unwrap();
    let t = d.create_table(db, &shape(SqlType::Int)).unwrap();
    let ix = d.create_index(t, &on_first(false)).unwrap();
    (d, t, ix)
}

fn reopened(d: &DiskStorage) -> DiskStorage {
    DiskStorage::open(d.options, d.control, Data::empty(), d.journal.wal.bytes.clone()).expect("reopen")
}

/// The kinds of the records of `txn`, oldest first.
fn kinds_of(d: &DiskStorage, txn: TxnId) -> Vec<WalRecordKind> {
    d.journal
        .wal
        .iter()
        .iter()
        .filter(|record| record.txn == txn)
        .map(|record| record.kind)
        .collect()
}

#[test]
fn a_savepoint_before_the_first_write_leaves_one_begin() {
    let (mut d, t, _) = disk();
    let sp = d.savepoint(TxnId(1)).unwrap();
    d.insert(TxnId(1), t, &row(1)).unwrap();
    d.rollback_to(TxnId(1), sp).unwrap();
    let kept = d.insert(TxnId(1), t, &row(2)).unwrap();
    d.commit(TxnId(1)).unwrap();
    assert_eq!(
        kinds_of(&d, TxnId(1)),
        vec![
            WalRecordKind::Savepoint,
            WalRecordKind::Begin,
            WalRecordKind::Insert,
            WalRecordKind::RollbackTo,
            WalRecordKind::Insert,
            WalRecordKind::Commit,
        ]
    );
    assert_eq!(
        reopened(&d).scan(&snap(9, &[]), t).unwrap(),
        vec![(kept, row(2))]
    );
}

#[test]
fn a_transaction_with_a_savepoint_and_no_write_gets_no_begin_and_no_end() {
    let (mut d, _, _) = disk();
    d.savepoint(TxnId(1)).unwrap();
    d.commit(TxnId(1)).unwrap();
    assert_eq!(kinds_of(&d, TxnId(1)), vec![WalRecordKind::Savepoint]);
}

#[test]
fn the_files_of_a_directory_decide_what_an_open_does() {
    let options = DiskOptions::default();
    assert_eq!(
        plan_open(options, false, false, false).unwrap(),
        OpenPlan::Create
    );
    assert_eq!(
        plan_open(options, true, true, true).unwrap(),
        OpenPlan::Reopen
    );
    for (ctl, data, wal, missing) in [
        (false, true, true, Corruption::NoControlFile),
        (false, true, false, Corruption::NoControlFile),
        (false, false, true, Corruption::NoControlFile),
        (true, false, true, Corruption::NoDataFile),
        (true, false, false, Corruption::NoDataFile),
        (true, true, false, Corruption::NoJournalFile),
    ] {
        let err = plan_open(options, ctl, data, wal).unwrap_err();
        assert_eq!(
            format!("{err:?}"),
            format!("{:?}", InternalError::Corruption(missing))
        );
    }
    let none = DiskOptions { buffer_pages: 0 };
    for files in [false, true] {
        assert!(matches!(
            plan_open(none, files, files, files),
            Err(InternalError::Bug(Bug::NoFrame))
        ));
    }
    assert_eq!(
        Corruption::NoControlFile.to_string(),
        "the directory holds data or wal but no vauban.ctl"
    );
    assert_eq!(
        Corruption::NoDataFile.to_string(),
        "the instance has a vauban.ctl but no data"
    );
    assert_eq!(
        Corruption::NoJournalFile.to_string(),
        "the instance has a vauban.ctl but no wal"
    );
}

#[test]
fn an_amount_of_money_is_found_by_a_decimal() {
    let (mut m, t, ix) = memory(SqlType::Money);
    let half = m
        .insert(TxnId(1), t, &Row(vec![Value::Money(15_000)]))
        .unwrap();
    m.insert(TxnId(1), t, &Row(vec![Value::Money(20_000)]))
        .unwrap();
    let below = m
        .insert(TxnId(1), t, &Row(vec![Value::Money(-5_000)]))
        .unwrap();
    m.commit(TxnId(1)).unwrap();
    let one_and_a_half = Value::Decimal(Decimal {
        whole: 1,
        fraction: 50_000_000_000_000_000_000_000_000_000_000_000_000,
    });
    assert_eq!(
        m.seek(
            &snap(9, &[]),
            ix,
            &KeyRange::Point(vec![one_and_a_half]),
            Direction::Forward
        )
        .unwrap(),
        vec![(half, Row(vec![Value::Money(15_000)]))]
    );
    let minus_half = Value::Decimal(Decimal {
        whole: -1,
        fraction: 50_000_000_000_000_000_000_000_000_000_000_000_000,
    });
    assert_eq!(
        m.seek(
            &snap(9, &[]),
            ix,
            &KeyRange::Point(vec![minus_half]),
            Direction::Forward
        )
        .unwrap(),
        vec![(below, Row(vec![Value::Money(-5_000)]))]
    );
}

#[test]
fn a_version_that_ends_before_its_columns_is_corruption() {
    let header = VersionHeader {
        row: RowId(3),
        xmin: TxnId(1),
        xmax: None,
        seq: 7,
    };
    let short = StoredVersion {
        rid: Rid(0),
        header,
        bytes: vec![0; 31],
    };
    assert!(matches!(
        short.row(),
        Err(InternalError::Corruption(Corruption::NoColumns {
            row: RowId(3),
            seq: 7
        }))
    ));
    assert_eq!(
        Corruption::NoColumns {
            row: RowId(3),
            seq: 7
        }
        .to_string(),
        "version 7 of row 3 holds no columns after its prefix"
    );
}

#[test]
fn a_version_that_is_there_is_not_redone() {
    let mut heap = RedoHeap::over(Heap::create(TableId(1))).unwrap();
    let change = RowChange {
        table: TableId(1),
        header: VersionHeader {
            row: RowId(1),
            xmin: TxnId(1),
            xmax: None,
            seq: 1,
        },
        columns: vec![1, 2, 3],
    };
    assert!(heap.insert(&change).unwrap());
    let before = heap.heap.scan();
    assert!(!heap.insert(&change).unwrap());
    assert_eq!(heap.heap.scan(), before);
}

#[test]
fn rows_are_sorted_whatever_order_they_come_in() {
    let key = vec![KeyColumn {
        column: 0,
        descending: false,
    }];
    let order = KeyOrder::new(KeyKind::Clustered, &key, &shape(SqlType::Int)).unwrap();
    let wanted = vec![
        (RowId(2), row(1)),
        (RowId(9), row(1)),
        (RowId(4), row(3)),
        (RowId(1), row(5)),
    ];
    for at in [[3, 2, 1, 0], [1, 0, 3, 2], [0, 1, 2, 3], [2, 3, 0, 1]] {
        let rows: Vec<(RowId, Row)> = at.iter().map(|i: &usize| wanted[*i].clone()).collect();
        assert_eq!(sort_rows(&order, rows).unwrap(), wanted);
    }
    assert!(sort_rows(&order, vec![(RowId(1), Row(Vec::new()))]).is_err());
}

#[test]
fn what_an_update_or_a_delete_did_is_seen_once_it_committed() {
    let (mut m, t, _) = memory(SqlType::Int);
    let id = m.insert(TxnId(1), t, &row(1)).unwrap();
    m.commit(TxnId(1)).unwrap();
    m.update(TxnId(2), t, id, &row(2)).unwrap();
    m.update(TxnId(2), t, id, &row(3)).unwrap();
    m.commit(TxnId(2)).unwrap();
    assert_eq!(m.get(&snap(9, &[]), t, id).unwrap(), Some(row(3)));
    m.delete(TxnId(3), t, id).unwrap();
    m.commit(TxnId(3)).unwrap();
    assert_eq!(m.get(&snap(9, &[]), t, id).unwrap(), None);
    assert_eq!(m.get(&snap(9, &[3]), t, id).unwrap(), Some(row(3)));
}

#[test]
fn a_rollback_gives_every_row_and_every_entry_back() {
    let (mut m, t, ix) = memory(SqlType::Int);
    let a = m.insert(TxnId(1), t, &row(1)).unwrap();
    let b = m.insert(TxnId(1), t, &row(2)).unwrap();
    m.commit(TxnId(1)).unwrap();
    let everything = |m: &MemoryStorage, own: u64| {
        (
            m.scan(&snap(own, &[]), t).unwrap(),
            m.seek(&snap(own, &[]), ix, &KeyRange::Full, Direction::Forward)
                .unwrap(),
            m.latest_version(t, a).unwrap(),
            m.latest_version(t, b).unwrap(),
        )
    };
    let before = (everything(&m, 9), everything(&m, 2));
    m.update(TxnId(2), t, a, &row(7)).unwrap();
    let c = m.insert(TxnId(2), t, &row(3)).unwrap();
    m.savepoint(TxnId(2)).unwrap();
    m.delete(TxnId(2), t, a).unwrap();
    m.update(TxnId(2), t, c, &row(4)).unwrap();
    m.delete(TxnId(2), t, b).unwrap();
    m.rollback(TxnId(2)).unwrap();
    assert_eq!((everything(&m, 9), everything(&m, 2)), before);
    assert!(m.insert(TxnId(2), t, &row(5)).is_err());
    assert_eq!(m.insert(TxnId(3), t, &row(5)).unwrap(), RowId(c.0 + 1));
}

#[test]
fn a_rollback_leaves_what_others_wrote_meanwhile() {
    let (mut m, t, _) = memory(SqlType::Int);
    let a = m.insert(TxnId(1), t, &row(1)).unwrap();
    m.commit(TxnId(1)).unwrap();
    m.update(TxnId(2), t, a, &row(2)).unwrap();
    let b = m.insert(TxnId(3), t, &row(8)).unwrap();
    m.insert(TxnId(2), t, &row(9)).unwrap();
    m.rollback(TxnId(2)).unwrap();
    m.commit(TxnId(3)).unwrap();
    assert_eq!(
        m.scan(&snap(9, &[]), t).unwrap(),
        vec![(a, row(1)), (b, row(8))]
    );
}

#[test]
fn a_savepoint_is_read_again_in_both_engines() {
    let (mut m, t, ix) = memory(SqlType::Int);
    let a = m.insert(TxnId(1), t, &row(1)).unwrap();
    let sp = m.savepoint(TxnId(1)).unwrap();
    let before = (
        m.scan(&snap(1, &[1]), t).unwrap(),
        m.seek(&snap(1, &[1]), ix, &KeyRange::Full, Direction::Forward)
            .unwrap(),
    );
    m.update(TxnId(1), t, a, &row(2)).unwrap();
    let later = m.savepoint(TxnId(1)).unwrap();
    m.insert(TxnId(1), t, &row(3)).unwrap();
    m.delete(TxnId(1), t, a).unwrap();
    m.rollback_to(TxnId(1), sp).unwrap();
    let after = (
        m.scan(&snap(1, &[1]), t).unwrap(),
        m.seek(&snap(1, &[1]), ix, &KeyRange::Full, Direction::Forward)
            .unwrap(),
    );
    assert_eq!(after, before);
    assert!(m.rollback_to(TxnId(1), later).is_err());
    m.rollback_to(TxnId(1), sp).unwrap();

    let (mut d, t, ix) = disk();
    let a = d.insert(TxnId(1), t, &row(1)).unwrap();
    let sp = d.savepoint(TxnId(1)).unwrap();
    d.update(TxnId(1), t, a, &row(2)).unwrap();
    let later = d.savepoint(TxnId(1)).unwrap();
    d.insert(TxnId(1), t, &row(3)).unwrap();
    d.delete(TxnId(1), t, a).unwrap();
    d.rollback_to(TxnId(1), sp).unwrap();
    assert_eq!(d.scan(&snap(1, &[1]), t).unwrap(), vec![(a, row(1))]);
    assert_eq!(
        d.seek(&snap(1, &[1]), ix, &KeyRange::Full, Direction::Forward)
            .unwrap(),
        vec![(a, row(1))]
    );
    let records = d.journal.wal.iter().len();
    assert!(d.rollback_to(TxnId(1), later).is_err());
    assert!(d.rollback_to(TxnId(8), sp).is_err());
    assert_eq!(d.journal.wal.iter().len(), records);
    d.rollback_to(TxnId(1), sp).unwrap();
    assert_eq!(d.journal.wal.iter().len(), records + 1);
    d.commit(TxnId(1)).unwrap();
    assert_eq!(
        reopened(&d).scan(&snap(9, &[]), t).unwrap(),
        vec![(a, row(1))]
    );
}

#[test]
fn a_seek_is_the_scan_cut_to_the_range_in_both_engines() {
    let (mut m, t, ix) = memory(SqlType::Int);
    let (mut d, u, iy) = disk();
    for value in [5, 1, 3, 1, 4] {
        m.insert(TxnId(1), t, &row(value)).unwrap();
        d.insert(TxnId(1), u, &row(value)).unwrap();
    }
    m.commit(TxnId(1)).unwrap();
    d.commit(TxnId(1)).unwrap();
    let all = vec![
        (RowId(2), row(1)),
        (RowId(4), row(1)),
        (RowId(3), row(3)),
        (RowId(5), row(4)),
        (RowId(1), row(5)),
    ];
    let from_three = KeyRange::Between(
        Bound::Included(vec![Value::I32(3)]),
        Bound::Excluded(vec![Value::I32(5)]),
    );
    for range in [
        KeyRange::Full,
        KeyRange::Point(Vec::new()),
        KeyRange::Between(Bound::Unbounded, Bound::Unbounded),
    ] {
        let forward = m
            .seek(&snap(9, &[]), ix, &range, Direction::Forward)
            .unwrap();
        assert_eq!(forward, all);
        let mut backward = m
            .seek(&snap(9, &[]), ix, &range, Direction::Backward)
            .unwrap();
        backward.reverse();
        assert_eq!(backward, all);
        let forward = d
            .seek(&snap(9, &[]), iy, &range, Direction::Forward)
            .unwrap();
        assert_eq!(forward, all);
        let again = reopened(&d)
            .seek(&snap(9, &[]), iy, &range, Direction::Forward)
            .unwrap();
        assert_eq!(again, all);
    }
    assert_eq!(
        m.seek(&snap(9, &[]), ix, &from_three, Direction::Forward)
            .unwrap(),
        all[2..4].to_vec()
    );
    assert_eq!(
        d.seek(&snap(9, &[]), iy, &from_three, Direction::Forward)
            .unwrap(),
        all[2..4].to_vec()
    );
}

#[test]
fn a_vacuum_leaves_what_the_indexes_serve_and_a_second_one_does_nothing() {
    let (mut m, t, ix) = memory(SqlType::Int);
    let a = m.insert(TxnId(1), t, &row(1)).unwrap();
    let b = m.insert(TxnId(1), t, &row(2)).unwrap();
    m.commit(TxnId(1)).unwrap();
    m.update(TxnId(2), t, a, &row(3)).unwrap();
    m.delete(TxnId(2), t, b).unwrap();
    m.commit(TxnId(2)).unwrap();
    m.update(TxnId(7), t, a, &row(4)).unwrap();
    m.commit(TxnId(7)).unwrap();
    let late = Snapshot {
        xmin: TxnId(5),
        xmax: TxnId(6),
        active: Vec::new(),
        own: TxnId(6),
    };
    let read = |m: &MemoryStorage, s: &Snapshot| {
        (
            m.scan(s, t).unwrap(),
            m.seek(s, ix, &KeyRange::Full, Direction::Forward).unwrap(),
        )
    };
    let before = (read(&m, &late), read(&m, &snap(9, &[])));
    m.vacuum(TxnId(5)).unwrap();
    assert_eq!((read(&m, &late), read(&m, &snap(9, &[]))), before);
    assert_eq!(read(&m, &late).0, vec![(a, row(3))]);
    let once = format!("{m:?}");
    m.vacuum(TxnId(5)).unwrap();
    assert_eq!(format!("{m:?}"), once);
    assert_eq!(m.insert(TxnId(8), t, &row(5)).unwrap(), RowId(b.0 + 1));
}

#[test]
fn a_row_whose_update_was_rolled_back_outlives_two_vacuums() {
    let (mut m, t, _) = memory(SqlType::Int);
    let id = m.insert(TxnId(1), t, &row(1)).unwrap();
    m.commit(TxnId(1)).unwrap();
    m.update(TxnId(2), t, id, &row(2)).unwrap();
    m.delete(TxnId(2), t, id).unwrap();
    m.rollback(TxnId(2)).unwrap();
    m.vacuum(TxnId(5)).unwrap();
    m.vacuum(TxnId(5)).unwrap();
    assert_eq!(m.get(&snap(9, &[]), t, id).unwrap(), Some(row(1)));
}

#[test]
fn a_record_without_a_prefix_is_found_out_by_the_reads_and_by_the_resume() {
    let mut heap = Heap::create(TableId(1));
    heap.insert(&[7; 31]).unwrap();
    let mut table = HeapTable::open(heap, shape(SqlType::Int));
    let journal = Journal::over(Wal::open(Vec::new()).unwrap());
    let short = |e: InternalError| {
        matches!(
            e,
            InternalError::Corruption(Corruption::VersionTooShort { bytes: 31 })
        )
    };
    let reader = snap(9, &[]);
    assert!(short(table.get(&journal, &reader, RowId(1)).unwrap_err()));
    assert!(short(table.scan(&journal, &reader).unwrap_err()));
    assert!(short(table.versions(None).unwrap_err()));
    assert!(short(table.resume(&journal, 1, 1).unwrap_err()));
}

#[test]
fn a_savepoint_is_read_again_whatever_others_wrote() {
    // Transaction 1 takes a savepoint; 5 updates, 6 deletes and 7 inserts, and they commit.
    let reader = Snapshot {
        xmin: TxnId(1),
        xmax: TxnId(5),
        active: Vec::new(),
        own: TxnId(4),
    };
    let (mut m, t, _) = memory(SqlType::Int);
    let (mut d, u, _) = disk();
    let mut ids = Vec::new();
    for value in [1, 2, 3] {
        ids.push(m.insert(TxnId(2), t, &row(value)).unwrap());
        d.insert(TxnId(2), u, &row(value)).unwrap();
    }
    m.commit(TxnId(2)).unwrap();
    d.commit(TxnId(2)).unwrap();
    m.update(TxnId(4), t, ids[0], &row(10)).unwrap();
    d.update(TxnId(4), u, ids[0], &row(10)).unwrap();
    let before = m.scan(&reader, t).unwrap();
    assert_eq!(before, d.scan(&reader, u).unwrap());
    let sp = m.savepoint(TxnId(4)).unwrap();
    let sq = d.savepoint(TxnId(4)).unwrap();
    for (txn, value) in [(5, 20), (6, 30)] {
        let id = ids[txn as usize - 4];
        m.update(TxnId(txn), t, id, &row(value)).unwrap();
        d.update(TxnId(txn), u, id, &row(value)).unwrap();
    }
    m.insert(TxnId(7), t, &row(40)).unwrap();
    d.insert(TxnId(7), u, &row(40)).unwrap();
    m.commit(TxnId(5)).unwrap();
    d.commit(TxnId(5)).unwrap();
    m.rollback(TxnId(6)).unwrap();
    d.rollback(TxnId(6)).unwrap();
    // The row of 5 is replaced in its turn, and one is inserted.
    m.update(TxnId(4), t, ids[1], &row(21)).unwrap();
    d.update(TxnId(4), u, ids[1], &row(21)).unwrap();
    m.insert(TxnId(4), t, &row(50)).unwrap();
    d.insert(TxnId(4), u, &row(50)).unwrap();
    m.rollback_to(TxnId(4), sp).unwrap();
    d.rollback_to(TxnId(4), sq).unwrap();
    assert_eq!(m.scan(&reader, t).unwrap(), before);
    assert_eq!(d.scan(&reader, u).unwrap(), before);
    d.commit(TxnId(4)).unwrap();
    assert_eq!(reopened(&d).scan(&reader, u).unwrap(), before);
}

#[test]
fn a_record_is_framed_by_its_own_bytes() {
    let record = WalRecord {
        kind: WalRecordKind::Begin,
        lsn: Lsn(1),
        prev_lsn: Lsn(0),
        txn: TxnId(3),
        payload: vec![1, 2, 3],
    };
    let mut bytes = record.encode();
    let len = bytes.len() as u64;
    for extra in 0..3u64 {
        for remaining in [len, len + 1, len + 1000] {
            match frame(&bytes, 0, remaining) {
                Framed::Whole { record: read, len: took } => {
                    assert_eq!(read, record);
                    assert_eq!(took, len);
                }
                other => panic!("{other:?} with {extra} more bytes"),
            }
        }
        bytes.push(9);
    }
}

#[test]
fn a_full_heap_answers_for_a_version_it_holds() {
    let mut heap = Heap::create(TableId(1));
    heap.next = u64::MAX - 1;
    let mut redo = RedoHeap::over(heap).unwrap();
    let change = |row: u64| RowChange {
        table: TableId(1),
        header: VersionHeader {
            row: RowId(row),
            xmin: TxnId(1),
            xmax: None,
            seq: row,
        },
        columns: vec![1],
    };
    assert!(redo.insert(&change(1)).unwrap());
    assert!(!redo.insert(&change(1)).unwrap());
    assert!(matches!(
        redo.insert(&change(2)),
        Err(InternalError::Bug(Bug::HeapFull(TableId(1))))
    ));
}

#[test]
fn an_undo_that_meets_no_row_loses_the_row() {
    let mut table = HeapTable::create(TableId(1), shape(SqlType::Int));
    let mut journal = Journal::over(Wal::open(Vec::new()).unwrap());
    let id = table.insert(&mut journal, TxnId(1), &row(1)).unwrap();
    // The columns of the version are damaged behind the table.
    let rid = *table.state.directory.get(id.0).unwrap();
    let mut bytes = table.heap.get(rid).unwrap().clone();
    bytes.truncate(33);
    table.heap.replace(rid, bytes);
    assert!(matches!(
        table.rollback(&mut journal, TxnId(1)),
        Err(InternalError::Corruption(Corruption::NotARow { bytes: 1 }))
    ));
    // The record is gone, and what leads to the row leads to nothing.
    assert_eq!(table.heap.scan(), Vec::<u64>::new());
    let lost = Corruption::NoRecord {
        table: TableId(1),
        row: id,
    }
    .to_string();
    assert_eq!(lost, "row 1 of table 1 points at an address that holds no record");
    let err = table.latest_version(id).unwrap_err();
    assert!(matches!(
        err,
        InternalError::Corruption(Corruption::NoRecord { row, .. }) if row == id
    ));
    assert!(matches!(
        table.delete(&mut journal, TxnId(2), id),
        Err(InternalError::Corruption(Corruption::NoRecord { .. }))
    ));
    // A rebuild of the directory forgets it.
    table.resume(&journal, 5, 5).unwrap();
    assert_eq!(table.latest_version(id).unwrap(), None);
}

/// What a snapshot past every transaction sees of `table`.
fn seen(storage: &DiskStorage, table: TableId) -> Vec<(RowId, Row)> {
    let now = Snapshot {
        xmin: TxnId(100),
        xmax: TxnId(100),
        active: Vec::new(),
        own: TxnId(99),
    };
    storage.scan(&now, table).unwrap()
}

#[test]
fn an_open_over_what_a_checkpoint_wrote_skips_what_is_there() {
    let options = DiskOptions { buffer_pages: 8 };
    let mut storage =
        DiskStorage::open(options, Control::default(), Data::empty(), Vec::new()).unwrap();
    let db = storage.create_database("d").unwrap();
    let table = storage.create_table(db, &shape(SqlType::Int)).unwrap();
    let kept = storage.insert(TxnId(1), table, &row(1)).unwrap();
    let gone = storage.insert(TxnId(1), table, &row(2)).unwrap();
    storage.commit(TxnId(1)).unwrap();
    let data = storage.flushed(Data::empty()).unwrap();
    storage.checkpoint().unwrap();
    // A definition, a change and an update come after the checkpoint.
    storage.create_index(table, &on_first(false)).unwrap();
    storage.delete(TxnId(2), table, gone).unwrap();
    storage.update(TxnId(2), table, kept, &row(3)).unwrap();
    storage.commit(TxnId(2)).unwrap();
    let journal = storage.journal.wal.bytes.clone();

    let alone =
        DiskStorage::open(options, storage.control, Data::empty(), journal.clone()).unwrap();
    let over = DiskStorage::open(options, storage.control, data, journal).unwrap();
    assert_eq!((alone.recovery.applied, alone.recovery.skipped), (4, 0));
    assert_eq!((over.recovery.applied, over.recovery.skipped), (2, 2));
    assert_eq!(seen(&over, table), vec![(kept, row(3))]);
    assert_eq!(seen(&over, table), seen(&alone, table));
    assert_eq!(over.indexes(table).unwrap(), alone.indexes(table).unwrap());
    assert_eq!(over.tables(db).unwrap(), storage.tables(db).unwrap());
}

#[test]
fn a_table_written_in_keeps_what_its_data_held() {
    let options = DiskOptions { buffer_pages: 8 };
    let mut storage =
        DiskStorage::open(options, Control::default(), Data::empty(), Vec::new()).unwrap();
    let db = storage.create_database("d").unwrap();
    let table = storage.create_table(db, &shape(SqlType::Int)).unwrap();
    storage.insert(TxnId(1), table, &row(1)).unwrap();
    storage.commit(TxnId(1)).unwrap();
    let held = storage.flushed(Data::empty()).unwrap();
    storage.insert(TxnId(2), table, &row(2)).unwrap();
    let data = storage.flushed(held).unwrap();
    let key = u64::from(table.0);
    assert_eq!(data.heaps.get(key).unwrap().scan().len(), 1);
    storage.commit(TxnId(2)).unwrap();
    let data = storage.flushed(data).unwrap();
    assert_eq!(data.heaps.get(key).unwrap().scan().len(), 2);
    // A dropped table leaves nothing behind.
    storage.drop_table(table).unwrap();
    let data = storage.flushed(data).unwrap();
    assert!(data.heaps.get(key).is_none());
    assert_eq!(data.catalogue.tables.len(), 0);
    assert_eq!(data.catalogue.databases.len(), 1);
}

#[test]
fn a_short_record_of_the_data_file_is_corruption() {
    let options = DiskOptions { buffer_pages: 8 };
    let mut storage =
        DiskStorage::open(options, Control::default(), Data::empty(), Vec::new()).unwrap();
    let db = storage.create_database("d").unwrap();
    let table = storage.create_table(db, &shape(SqlType::Int)).unwrap();
    let mut data = storage.flushed(Data::empty()).unwrap();
    let mut heap = Heap::create(table);
    heap.insert(&[1, 2, 3]).unwrap();
    data.heaps.insert(u64::from(table.0), heap);
    let journal = storage.journal.wal.bytes.clone();
    assert!(matches!(
        DiskStorage::open(options, storage.control, data, journal),
        Err(InternalError::Corruption(Corruption::VersionTooShort {
            bytes: 3
        }))
    ));
}
