//! The promises of the two engines, each on concrete values.

use vauban_storage::disk::data::Data;
use vauban_storage::disk::encode::{decode_row, encode_row};
use vauban_storage::disk::heap_table::HeapTable;
use vauban_storage::disk::page::{Page, PageId, PageKind};
use vauban_storage::disk::recover::{Recovery, Scan};
use vauban_storage::disk::redo::{redo, RedoHeap};
use vauban_storage::disk::wal::{Wal, WalRecordKind};
use vauban_storage::error::{Bug, Corruption, InternalError};
use vauban_storage::ordmap::OrdMap;
use vauban_storage::{
    Control, Direction, DiskOptions, DiskStorage, IndexShape, KeyColumn, KeyRange, MemoryStorage,
    Row, RowId, Snapshot, SqlError, SqlString, SqlType, TableId, TableShape, TxnId, TypeInfo,
    Value,
};

/// A table of one nullable `int` column.
fn shape() -> TableShape {
    TableShape {
        columns: vec![TypeInfo::new(SqlType::Int, true)],
        clustered_key: None,
    }
}

fn unique() -> IndexShape {
    IndexShape {
        columns: vec![KeyColumn {
            column: 0,
            descending: false,
        }],
        unique: true,
        included: Vec::new(),
    }
}

fn row(value: i32) -> Row {
    Row(vec![Value::I32(value)])
}

/// A snapshot of `own` for which everything below 100 but `active` is settled.
fn snap(own: u64, active: &[u64]) -> Snapshot {
    Snapshot {
        xmin: TxnId(active.iter().copied().min().unwrap_or(100)),
        xmax: TxnId(100),
        active: active.iter().map(|t| TxnId(*t)).collect(),
        own: TxnId(own),
    }
}

fn memory() -> (MemoryStorage, TableId) {
    let mut m = MemoryStorage::new();
    let db = m.create_database("db").unwrap();
    let t = m.create_table(db, &shape()).unwrap();
    (m, t)
}

fn disk() -> (DiskStorage, TableId) {
    let mut d =
        DiskStorage::open(DiskOptions::default(), Control::default(), Data::empty(), Vec::new()).expect("open");
    let db = d.create_database("db").unwrap();
    let t = d.create_table(db, &shape()).unwrap();
    (d, t)
}

fn reopened(d: &DiskStorage) -> DiskStorage {
    DiskStorage::open(d.options, d.control, Data::empty(), d.journal.wal.bytes.clone()).expect("reopen")
}

#[test]
fn a_write_is_hidden_until_it_commits() {
    let (mut m, t) = memory();
    let id = m.insert(TxnId(1), t, &row(1)).unwrap();
    assert_eq!(m.get(&snap(2, &[1]), t, id).unwrap(), None);
    assert_eq!(m.get(&snap(1, &[1]), t, id).unwrap(), Some(row(1)));
    m.commit(TxnId(1)).unwrap();
    assert_eq!(m.get(&snap(2, &[]), t, id).unwrap(), Some(row(1)));
    m.update(TxnId(3), t, id, &row(2)).unwrap();
    assert_eq!(m.get(&snap(2, &[3]), t, id).unwrap(), Some(row(1)));
    assert_eq!(m.get(&snap(3, &[3]), t, id).unwrap(), Some(row(2)));
    m.delete(TxnId(3), t, id).unwrap();
    assert_eq!(m.get(&snap(2, &[3]), t, id).unwrap(), Some(row(1)));
    assert_eq!(m.get(&snap(3, &[3]), t, id).unwrap(), None);
}

#[test]
fn an_aborted_write_leaves_no_trace() {
    let (mut m, t) = memory();
    let kept = m.insert(TxnId(1), t, &row(1)).unwrap();
    m.commit(TxnId(1)).unwrap();
    let gone = m.insert(TxnId(2), t, &row(2)).unwrap();
    m.update(TxnId(2), t, kept, &row(3)).unwrap();
    m.update(TxnId(2), t, kept, &row(4)).unwrap();
    m.delete(TxnId(2), t, kept).unwrap();
    m.rollback(TxnId(2)).unwrap();
    assert_eq!(m.scan(&snap(9, &[]), t).unwrap(), vec![(kept, row(1))]);
    assert_eq!(m.scan(&snap(2, &[]), t).unwrap(), vec![(kept, row(1))]);
    assert_eq!(m.latest_version(t, gone).unwrap(), None);
    assert_eq!(
        m.latest_version(t, kept).unwrap(),
        Some((TxnId(1), row(1)))
    );
    // The identifier is not handed out again.
    assert_eq!(m.insert(TxnId(3), t, &row(5)).unwrap(), RowId(3));
}

#[test]
fn a_rollback_to_a_savepoint_undoes_what_comes_after_it() {
    let (mut m, t) = memory();
    let a = m.insert(TxnId(1), t, &row(1)).unwrap();
    let sp = m.savepoint(TxnId(1)).unwrap();
    m.update(TxnId(1), t, a, &row(2)).unwrap();
    let b = m.insert(TxnId(1), t, &row(3)).unwrap();
    m.rollback_to(TxnId(1), sp).unwrap();
    m.rollback_to(TxnId(1), sp).unwrap();
    m.commit(TxnId(1)).unwrap();
    assert_eq!(m.scan(&snap(9, &[]), t).unwrap(), vec![(a, row(1))]);
    assert_eq!(m.latest_version(t, b).unwrap(), None);
}

#[test]
fn a_vacuum_under_a_running_transaction_leaves_it_undoable() {
    let (mut m, t) = memory();
    let id = m.insert(TxnId(1), t, &row(1)).unwrap();
    m.commit(TxnId(1)).unwrap();
    m.update(TxnId(2), t, id, &row(2)).unwrap();
    m.commit(TxnId(2)).unwrap();
    m.update(TxnId(3), t, id, &row(3)).unwrap();
    m.vacuum(TxnId(3)).unwrap();
    assert_eq!(m.get(&snap(9, &[3]), t, id).unwrap(), Some(row(2)));
    m.rollback(TxnId(3)).unwrap();
    assert_eq!(m.get(&snap(9, &[]), t, id).unwrap(), Some(row(2)));
}

#[test]
fn an_accepted_write_is_unique() {
    let (mut m, t) = memory();
    m.create_index(t, &unique()).unwrap();
    m.insert(TxnId(1), t, &row(1)).unwrap();
    let err = m.insert(TxnId(1), t, &row(1)).unwrap_err();
    assert!(matches!(err, SqlError::DuplicateKey { .. }), "{err:?}");
    assert_eq!(err.number(), 2601);
    m.insert(TxnId(1), t, &row(2)).unwrap();
}

#[test]
fn an_empty_point_is_the_whole_index() {
    let (mut m, t) = memory();
    let index = m.create_index(t, &unique()).unwrap();
    let a = m.insert(TxnId(1), t, &row(2)).unwrap();
    let b = m.insert(TxnId(1), t, &row(1)).unwrap();
    m.commit(TxnId(1)).unwrap();
    assert_eq!(
        m.seek(
            &snap(9, &[]),
            index,
            &KeyRange::Point(Vec::new()),
            Direction::Forward
        )
        .unwrap(),
        vec![(b, row(1)), (a, row(2))]
    );
    assert_eq!(
        m.seek(
            &snap(9, &[]),
            index,
            &KeyRange::Point(Vec::new()),
            Direction::Backward
        )
        .unwrap(),
        vec![(a, row(2)), (b, row(1))]
    );
}

#[test]
fn committed_rows_survive_and_others_do_not() {
    let (mut d, t) = disk();
    let a = d.insert(TxnId(1), t, &row(1)).unwrap();
    let b = d.insert(TxnId(1), t, &row(2)).unwrap();
    d.commit(TxnId(1)).unwrap();
    d.update(TxnId(2), t, a, &row(3)).unwrap();
    d.commit(TxnId(2)).unwrap();
    d.delete(TxnId(3), t, b).unwrap();
    let c = d.insert(TxnId(3), t, &row(4)).unwrap();
    d.insert(TxnId(4), t, &row(5)).unwrap();
    d.rollback(TxnId(4)).unwrap();
    let before = d.scan(&snap(9, &[3]), t).unwrap();
    assert_eq!(before, vec![(a, row(3)), (b, row(2))]);

    let mut n = reopened(&d);
    assert_eq!(n.scan(&snap(9, &[3]), t).unwrap(), before);
    // The interrupted transaction is over.
    assert_eq!(n.scan(&snap(9, &[]), t).unwrap(), before);
    assert_eq!(n.get(&snap(3, &[]), t, c).unwrap(), None);
    let err = n.insert(TxnId(3), t, &row(6)).unwrap_err();
    assert!(matches!(
        err,
        SqlError::Internal(InternalError::Bug(Bug::FinishedTxn { .. }))
    ));

    // Work goes on, and the next crash keeps it too.
    n.update(TxnId(5), t, b, &row(7)).unwrap();
    n.commit(TxnId(5)).unwrap();
    let again = reopened(&n);
    assert_eq!(
        again.scan(&snap(9, &[]), t).unwrap(),
        vec![(a, row(3)), (b, row(7))]
    );
}

#[test]
fn a_torn_append_is_dropped() {
    let (mut d, t) = disk();
    let a = d.insert(TxnId(1), t, &row(1)).unwrap();
    d.commit(TxnId(1)).unwrap();
    let whole = d.journal.wal.bytes.clone();
    d.insert(TxnId(2), t, &row(2)).unwrap();
    let longer = d.journal.wal.bytes.clone();
    for cut in whole.len()..longer.len() {
        let n = DiskStorage::open(d.options, d.control, Data::empty(), longer[..cut].to_vec()).expect("open");
        assert_eq!(n.scan(&snap(9, &[]), t).unwrap(), vec![(a, row(1))]);
    }
}

#[test]
fn what_a_vacuum_removed_comes_back_unseen() {
    let (mut d, t) = disk();
    let a = d.insert(TxnId(1), t, &row(1)).unwrap();
    d.commit(TxnId(1)).unwrap();
    d.update(TxnId(2), t, a, &row(2)).unwrap();
    d.commit(TxnId(2)).unwrap();
    d.vacuum(TxnId(3)).unwrap();
    let held = |s: &DiskStorage| {
        s.tables
            .get(u64::from(t.0))
            .expect("the table")
            .store
            .versions(None)
            .expect("the versions")
            .len()
    };
    assert_eq!(held(&d), 1);
    let n = reopened(&d);
    assert_eq!(held(&n), 2);
    assert_eq!(n.scan(&snap(9, &[]), t).unwrap(), vec![(a, row(2))]);
    assert_eq!(
        n.scan(&snap(9, &[]), t).unwrap(),
        d.scan(&snap(9, &[]), t).unwrap()
    );
}

#[test]
fn an_undone_savepoint_is_left_out_of_the_redo_in_every_table() {
    let (mut d, t) = disk();
    let (db, _) = d.databases().unwrap()[0];
    let u = d.create_table(db, &shape()).unwrap();
    let a = d.insert(TxnId(1), t, &row(1)).unwrap();
    let outer = d.savepoint(TxnId(1)).unwrap();
    d.insert(TxnId(1), u, &row(2)).unwrap();
    let inner = d.savepoint(TxnId(1)).unwrap();
    d.update(TxnId(1), t, a, &row(3)).unwrap();
    d.rollback_to(TxnId(1), inner).unwrap();
    d.insert(TxnId(1), u, &row(4)).unwrap();
    d.rollback_to(TxnId(1), outer).unwrap();
    // The inner one is forgotten.
    assert!(d.rollback_to(TxnId(1), inner).is_err());
    let b = d.insert(TxnId(1), u, &row(5)).unwrap();
    d.commit(TxnId(1)).unwrap();
    let n = reopened(&d);
    for s in [&d, &n] {
        assert_eq!(s.scan(&snap(9, &[]), t).unwrap(), vec![(a, row(1))]);
        assert_eq!(s.scan(&snap(9, &[]), u).unwrap(), vec![(b, row(5))]);
    }
}

#[test]
fn a_redo_may_be_repeated() {
    let (mut d, t) = disk();
    let a = d.insert(TxnId(1), t, &row(1)).unwrap();
    d.update(TxnId(1), t, a, &row(2)).unwrap();
    d.commit(TxnId(1)).unwrap();
    let records = d.journal.wal.iter();
    let recover = || -> Recovery {
        Scan::of(&records)
            .expect("scan")
            .into_recovery(1, OrdMap::new())
    };
    let mut heaps: OrdMap<RedoHeap> = OrdMap::new();
    let heap = vauban_storage::disk::heap::Heap::create(t);
    heaps.insert(u64::from(t.0), RedoHeap::over(heap).expect("walk"));
    let mut first = recover();
    redo(&records, &mut first, &mut heaps).expect("redo");
    assert_eq!((first.applied, first.skipped), (2, 0));
    let once = format!("{:?}", heaps.get(u64::from(t.0)).expect("heap").heap);
    let mut second = recover();
    redo(&records, &mut second, &mut heaps).expect("redo again");
    assert_eq!((second.applied, second.skipped), (0, 2));
    let twice = format!("{:?}", heaps.get(u64::from(t.0)).expect("heap").heap);
    assert_eq!(once, twice);
}

#[test]
fn text_reads_back_and_bad_text_is_refused() {
    let written = Row(vec![
        Value::String(SqlString {
            text: "h\u{e9}llo \u{1F600}".to_string(),
        }),
        Value::Null,
        Value::I32(-7),
    ]);
    let mut bytes = Vec::new();
    encode_row(&written, &mut bytes);
    assert_eq!(decode_row(&bytes).expect("read back"), written);

    // A byte that starts no character where the accented letter stood.
    let at = bytes.iter().position(|b| *b == 0xC3).expect("the letter");
    bytes[at] = 0xFF;
    let err = decode_row(&bytes).expect_err("no text");
    assert!(
        matches!(err, InternalError::Corruption(Corruption::NotARow { .. })),
        "{err:?}"
    );
}

#[test]
fn a_database_keeps_its_name_over_a_reopen() {
    let mut d =
        DiskStorage::open(DiskOptions::default(), Control::default(), Data::empty(), Vec::new()).expect("open");
    let db = d.create_database("caf\u{e9}").unwrap();
    let n = reopened(&d);
    assert_eq!(n.databases().unwrap(), vec![(db, "caf\u{e9}".to_string())]);
}

#[test]
fn a_name_that_is_no_text_is_no_definition() {
    let mut wal = Wal::open(Vec::new()).expect("open");
    wal.append_durable(
        WalRecordKind::CreateDatabase,
        TxnId(0),
        &[1, 0, 0, 0, 0xFF],
    )
    .expect("append");
    let err = DiskStorage::open(DiskOptions::default(), Control::default(), Data::empty(), wal.bytes)
        .expect_err("the name is no text");
    assert!(
        matches!(
            err,
            InternalError::Corruption(Corruption::NotADefinition { .. })
        ),
        "{err:?}"
    );
}

#[test]
fn a_fresh_table_still_has_to_be_resumed() {
    let table = HeapTable::create(TableId(1), shape());
    assert!(table.state_needs_resume());
}

#[test]
fn a_sealed_page_reads_back() {
    let mut page = Page::empty(PageKind::Heap, PageId(3));
    page.seal();
    assert!(page.verify().is_ok());
    page.write_u64(4000, 1);
    assert!(page.verify().is_err());
    page.seal();
    assert!(page.verify().is_ok());
    assert_eq!(page.read_u64(4000), 1);
}

#[test]
fn the_versions_of_a_row_form_a_chain() {
    let (mut m, t) = memory();
    let id = m.insert(TxnId(1), t, &row(1)).unwrap();
    m.commit(TxnId(1)).unwrap();
    m.update(TxnId(2), t, id, &row(2)).unwrap();
    m.update(TxnId(2), t, id, &row(3)).unwrap();
    m.commit(TxnId(2)).unwrap();
    m.delete(TxnId(3), t, id).unwrap();
    let links = |m: &MemoryStorage| -> Vec<(u64, Option<u64>)> {
        m.tables
            .get(u64::from(t.0))
            .expect("the table")
            .rows
            .get(id.0)
            .expect("the row")
            .iter()
            .map(|v| (v.xmin.0, v.xmax.map(|x| x.0)))
            .collect()
    };
    assert_eq!(
        links(&m),
        vec![(1, Some(2)), (2, Some(2)), (2, Some(3))]
    );
    m.vacuum(TxnId(3)).unwrap();
    assert_eq!(links(&m), vec![(2, Some(3))]);
    m.rollback(TxnId(3)).unwrap();
    assert_eq!(links(&m), vec![(2, None)]);
}

#[test]
fn a_seek_finds_what_a_scan_sees() {
    let (mut m, t) = memory();
    let by_value = IndexShape {
        unique: false,
        ..unique()
    };
    let index = m.create_index(t, &by_value).unwrap();
    let mut ids = Vec::new();
    for value in [5, 3, 5, 1] {
        ids.push(m.insert(TxnId(1), t, &row(value)).unwrap());
    }
    m.commit(TxnId(1)).unwrap();
    m.update(TxnId(2), t, ids[0], &row(4)).unwrap();
    m.delete(TxnId(2), t, ids[3]).unwrap();
    let full = KeyRange::Full;
    // A reader for whom the second transaction runs, then one for whom it is over.
    for (reader, expected) in [
        (
            snap(9, &[2]),
            vec![
                (ids[3], row(1)),
                (ids[1], row(3)),
                (ids[0], row(5)),
                (ids[2], row(5)),
            ],
        ),
        (
            snap(2, &[2]),
            vec![(ids[1], row(3)), (ids[0], row(4)), (ids[2], row(5))],
        ),
    ] {
        let found = m.seek(&reader, index, &full, Direction::Forward).unwrap();
        assert_eq!(found, expected);
        let mut scanned = m.scan(&reader, t).unwrap();
        let mut sought = found;
        scanned.sort_by_key(|r| r.0);
        sought.sort_by_key(|r| r.0);
        assert_eq!(scanned, sought);
    }
    assert_eq!(
        m.seek(
            &snap(9, &[2]),
            index,
            &KeyRange::Point(vec![Value::I32(4)]),
            Direction::Forward
        )
        .unwrap(),
        Vec::new()
    );
}
