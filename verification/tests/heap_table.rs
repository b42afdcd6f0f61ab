//! One table kept as a heap of versions, with the journal its writes go to.

use vauban_storage::disk::encode::{decode_row, encode_row};
use vauban_storage::disk::heap::Rid;
use vauban_storage::disk::heap_table::HeapTable;
use vauban_storage::disk::journal::Journal;
use vauban_storage::disk::page::Lsn;
use vauban_storage::disk::version::{
    encode_version, with_xmax, VersionHeader, NO_XMAX, VERSION_PREFIX_LEN,
};
use vauban_storage::disk::wal::{Wal, WalRecord, WalRecordKind};
use vauban_storage::disk::wal_payload::RowChange;
use vauban_storage::error::InternalError;
use vauban_storage::ids::{RowId, TableId, TxnId};
use vauban_storage::row::Row;
use vauban_storage::shape::TableShape;
use vauban_storage::snapshot::{Snapshot, TxnStatus};
use vauban_storage::value::{Len, SqlString, SqlType, TypeInfo, Value};

/// The table the tests of this file work on.
const TABLE: TableId = TableId(9);

/// A table and the journal its writes go to.
struct Table {
    journal: Journal,
    table: HeapTable,
}

impl Table {
    /// A table of one nullable `int` column, no clustered key.
    fn new() -> Table {
        Table::shaped(int_shape())
    }

    fn shaped(shape: TableShape) -> Table {
        let wal = Wal::open(Vec::new()).expect("open an empty journal");
        Table {
            journal: Journal::over(wal),
            table: HeapTable::create(TABLE, shape),
        }
    }

    fn insert(&mut self, txn: TxnId, row: &Row) -> Result<RowId, InternalError> {
        self.table.insert(&mut self.journal, txn, row)
    }

    fn update(&mut self, txn: TxnId, id: RowId, row: &Row) -> Result<(), InternalError> {
        self.table.update(&mut self.journal, txn, id, row)
    }

    fn delete(&mut self, txn: TxnId, id: RowId) -> Result<(), InternalError> {
        self.table.delete(&mut self.journal, txn, id)
    }

    fn commit(&mut self, txn: TxnId) -> Result<(), InternalError> {
        self.table.commit(&mut self.journal, txn)
    }

    fn rollback(&mut self, txn: TxnId) -> Result<(), InternalError> {
        self.table.rollback(&mut self.journal, txn)
    }

    fn get(&self, snap: &Snapshot, id: RowId) -> Result<Option<Row>, InternalError> {
        self.table.get(&self.journal, snap, id)
    }

    fn scan(&self, snap: &Snapshot) -> Result<Vec<(RowId, Row)>, InternalError> {
        self.table.scan(&self.journal, snap)
    }

    fn latest_version(&self, id: RowId) -> Result<Option<(TxnId, Row)>, InternalError> {
        self.table.latest_version(id)
    }

    fn status(&self, txn: TxnId) -> TxnStatus {
        self.journal.txn_status(txn)
    }

    /// Where the most recent version of `id` sits.
    fn place(&self, id: RowId) -> Rid {
        *self.table.state.directory.get(id.0).expect("a known row")
    }

    /// The records of the journal.
    fn records(&self) -> Vec<WalRecord> {
        self.journal.wal.iter()
    }

    /// The records another journal reads in the bytes of this one.
    fn records_on_disk(&self) -> Vec<WalRecord> {
        Wal::open(self.journal.wal.bytes.clone())
            .expect("open the journal")
            .iter()
    }
}

/// The kind of each record, in order.
fn kinds(records: &[WalRecord]) -> Vec<WalRecordKind> {
    records.iter().map(|record| record.kind).collect()
}

/// The shape of the tables of one nullable `int` column.
fn int_shape() -> TableShape {
    TableShape {
        columns: vec![TypeInfo::new(SqlType::Int, true)],
        clustered_key: None,
    }
}

/// A row of one `int`.
fn row(value: i32) -> Row {
    Row(vec![Value::I32(value)])
}

/// A snapshot of `own` seeing what is below `xmax` but the transactions of `active`.
fn snap(own: u64, xmax: u64, active: &[u64]) -> Snapshot {
    Snapshot {
        xmin: TxnId(active.iter().copied().min().unwrap_or(xmax)),
        xmax: TxnId(xmax),
        active: active.iter().map(|t| TxnId(*t)).collect(),
        own: TxnId(own),
    }
}

/// The message of an error the test expects to be a caller bug.
fn bug_message(error: InternalError) -> String {
    match error {
        InternalError::Bug(bug) => bug.to_string(),
        other => panic!("expected a Bug, got {other:?}"),
    }
}

/// The `(row, seq, xmin, xmax)` of the versions the heap holds, in chain order.
fn chain(table: &Table) -> Vec<(u64, u64, u64, Option<u64>)> {
    table
        .table
        .versions(None)
        .expect("read the versions")
        .iter()
        .map(|version| {
            (
                version.row.0,
                version.seq,
                version.xmin.0,
                version.xmax.map(|x| x.0),
            )
        })
        .collect()
}

#[test]
fn a_version_is_a_thirty_two_byte_prefix_then_the_columns() {
    let header = VersionHeader {
        row: RowId(7),
        xmin: TxnId(3),
        xmax: None,
        seq: 42,
    };
    let bytes = encode_version(&header, &row(11));
    let mut columns = Vec::new();
    encode_row(&row(11), &mut columns);
    assert_eq!(VERSION_PREFIX_LEN, 32);
    assert_eq!(bytes.len(), VERSION_PREFIX_LEN + columns.len());
    assert_eq!(&bytes[VERSION_PREFIX_LEN..], columns.as_slice());
    assert_eq!(&bytes[0..8], &7u64.to_le_bytes());
    assert_eq!(&bytes[8..16], &3u64.to_le_bytes());
    assert_eq!(&bytes[16..24], &NO_XMAX.to_le_bytes());
    assert_eq!(&bytes[24..32], &42u64.to_le_bytes());
    assert_eq!(VersionHeader::read_from(&bytes).expect("read back"), header);
}

#[test]
fn with_xmax_changes_the_prefix_and_keeps_the_columns() {
    let header = VersionHeader {
        row: RowId(7),
        xmin: TxnId(3),
        xmax: None,
        seq: 42,
    };
    let bytes = encode_version(&header, &row(11));
    let patched = with_xmax(&bytes, Some(TxnId(5))).expect("patch the xmax");
    assert_eq!(patched.len(), bytes.len());
    assert_eq!(&patched[VERSION_PREFIX_LEN..], &bytes[VERSION_PREFIX_LEN..]);
    let read = VersionHeader::read_from(&patched).expect("read back");
    assert_eq!(read.xmax, Some(TxnId(5)));
    assert_eq!(read.row, header.row);
    assert_eq!(read.xmin, header.xmin);
    assert_eq!(read.seq, header.seq);
    assert_eq!(with_xmax(&patched, None).expect("clear the xmax"), bytes);
}

#[test]
fn decode_version_refuses_a_record_shorter_than_the_prefix() {
    let short = vec![0u8; VERSION_PREFIX_LEN - 1];
    assert!(matches!(
        VersionHeader::read_from(&short),
        Err(InternalError::Corruption(_))
    ));
    assert!(matches!(
        with_xmax(&short, None),
        Err(InternalError::Corruption(_))
    ));
}

#[test]
fn own_insert_visible_before_commit() {
    let mut table = Table::new();
    let id = table.insert(TxnId(4), &row(1)).expect("insert");

    let own = snap(4, 5, &[4]);
    assert_eq!(table.get(&own, id).expect("get"), Some(row(1)));
    assert_eq!(table.scan(&own).expect("scan"), vec![(id, row(1))]);

    // Another transaction, with 4 still active: nothing to see.
    let other = snap(7, 8, &[4]);
    assert_eq!(table.get(&other, id).expect("get"), None);
    assert!(table.scan(&other).expect("scan").is_empty());
}

#[test]
fn commit_makes_row_visible_to_others() {
    let mut table = Table::new();
    let id = table.insert(TxnId(4), &row(1)).expect("insert");
    let after = snap(9, 100, &[]);
    assert_eq!(table.get(&after, id).expect("before commit"), None);

    table.commit(TxnId(4)).expect("commit");
    assert_eq!(table.get(&after, id).expect("after commit"), Some(row(1)));
    assert_eq!(table.scan(&after).expect("scan"), vec![(id, row(1))]);
    assert_eq!(table.status(TxnId(4)), TxnStatus::Committed);
}

#[test]
fn rollback_undoes_insert() {
    let mut table = Table::new();
    let id = table.insert(TxnId(4), &row(1)).expect("insert");
    table.rollback(TxnId(4)).expect("rollback");

    assert_eq!(table.get(&snap(4, 5, &[4]), id).expect("get"), None);
    assert_eq!(table.get(&snap(9, 100, &[]), id).expect("get"), None);
    assert_eq!(table.latest_version(id).expect("latest"), None);
    assert!(chain(&table).is_empty());
    assert!(table.table.heap.scan().is_empty());

    // The RowId is not handed out again.
    let next = table.insert(TxnId(5), &row(2)).expect("insert");
    assert_eq!(id, RowId(1));
    assert_eq!(next, RowId(2));
}

#[test]
fn seq_is_not_reused_after_a_rollback() {
    let mut table = Table::new();
    table.insert(TxnId(4), &row(1)).expect("insert");
    table.rollback(TxnId(4)).expect("rollback");
    let id = table.insert(TxnId(5), &row(2)).expect("insert");
    assert_eq!(chain(&table), vec![(id.0, 2, 5, None)]);
}

#[test]
fn update_keeps_row_id_and_old_version() {
    let mut table = Table::new();
    let id = table.insert(TxnId(4), &row(1)).expect("insert");
    table.commit(TxnId(4)).expect("commit");

    table.update(TxnId(6), id, &row(2)).expect("update");
    assert_eq!(
        chain(&table),
        vec![(id.0, 1, 4, Some(6)), (id.0, 2, 6, None)]
    );

    // The writer sees the new content, a snapshot that has not settled 6 the old one.
    assert_eq!(table.get(&snap(6, 7, &[6]), id).expect("get"), Some(row(2)));
    let reader = snap(8, 9, &[6]);
    assert_eq!(table.get(&reader, id).expect("get"), Some(row(1)));
    assert_eq!(table.scan(&reader).expect("scan"), vec![(id, row(1))]);
    assert_eq!(
        table.latest_version(id).expect("latest"),
        Some((TxnId(6), row(2)))
    );
}

#[test]
fn rid_of_a_row_may_move_on_update() {
    let mut table = Table::new();
    let id = table.insert(TxnId(4), &row(1)).expect("insert");
    let first = table.place(id);
    table.commit(TxnId(4)).expect("commit");
    table.update(TxnId(6), id, &row(2)).expect("update");

    // The RowId is the one the insert handed out; the address of its current version is
    // not, since the heap writes a new record for the new version.
    assert_eq!(id, RowId(1));
    assert_ne!(table.place(id), first);
    assert_eq!(table.get(&snap(6, 7, &[6]), id).expect("get"), Some(row(2)));
}

#[test]
fn two_updates_by_same_txn_ok() {
    let mut table = Table::new();
    let id = table.insert(TxnId(4), &row(1)).expect("insert");
    table.commit(TxnId(4)).expect("commit");

    table.update(TxnId(6), id, &row(2)).expect("first update");
    table.update(TxnId(6), id, &row(3)).expect("second update");
    assert_eq!(
        table.latest_version(id).expect("latest"),
        Some((TxnId(6), row(3)))
    );
    assert_eq!(
        chain(&table),
        vec![
            (id.0, 1, 4, Some(6)),
            (id.0, 2, 6, Some(6)),
            (id.0, 3, 6, None),
        ]
    );
    assert_eq!(table.get(&snap(6, 7, &[6]), id).expect("get"), Some(row(3)));
    assert_eq!(table.get(&snap(8, 9, &[6]), id).expect("get"), Some(row(1)));
}

#[test]
fn rollback_undoes_update() {
    let mut table = Table::new();
    let id = table.insert(TxnId(4), &row(1)).expect("insert");
    table.commit(TxnId(4)).expect("commit");
    table.update(TxnId(6), id, &row(2)).expect("update");
    table.rollback(TxnId(6)).expect("rollback");

    assert_eq!(chain(&table), vec![(id.0, 1, 4, None)]);
    assert_eq!(table.get(&snap(8, 9, &[]), id).expect("get"), Some(row(1)));
    assert_eq!(
        table.latest_version(id).expect("latest"),
        Some((TxnId(4), row(1)))
    );
}

#[test]
fn delete_visibility() {
    let mut table = Table::new();
    let id = table.insert(TxnId(4), &row(1)).expect("insert");
    table.commit(TxnId(4)).expect("commit");

    table.delete(TxnId(6), id).expect("delete");
    // Hidden from the writer at once, still there for a snapshot that has not settled 6.
    assert_eq!(table.get(&snap(6, 7, &[6]), id).expect("get"), None);
    assert!(table.scan(&snap(6, 7, &[6])).expect("scan").is_empty());
    assert_eq!(table.get(&snap(8, 9, &[6]), id).expect("get"), Some(row(1)));
    assert_eq!(
        table.latest_version(id).expect("latest"),
        Some((TxnId(6), row(1)))
    );

    table.rollback(TxnId(6)).expect("rollback");
    assert_eq!(table.get(&snap(6, 7, &[6]), id).expect("get"), Some(row(1)));
    assert_eq!(chain(&table), vec![(id.0, 1, 4, None)]);

    // Committed this time: hidden from a snapshot taken after it.
    table.delete(TxnId(7), id).expect("delete");
    table.commit(TxnId(7)).expect("commit");
    assert_eq!(table.get(&snap(8, 9, &[]), id).expect("get"), None);
    assert_eq!(chain(&table), vec![(id.0, 1, 4, Some(7))]);
}

#[test]
fn update_on_uncommitted_other_is_bug() {
    let mut table = Table::new();
    let id = table.insert(TxnId(4), &row(1)).expect("insert");
    table.commit(TxnId(4)).expect("commit");
    table.delete(TxnId(6), id).expect("delete by T1");

    let before = chain(&table);
    let message = bug_message(table.update(TxnId(7), id, &row(2)).expect_err("T2 update"));
    assert!(message.contains("is stale"), "{message}");
    assert_eq!(chain(&table), before);

    // The same refusal for a row another transaction inserted and has not committed.
    let fresh = table.insert(TxnId(6), &row(3)).expect("insert by T1");
    let before = chain(&table);
    let message = bug_message(
        table
            .update(TxnId(7), fresh, &row(4))
            .expect_err("T2 update"),
    );
    assert!(
        message.contains("being written by transaction 6"),
        "{message}"
    );
    assert_eq!(chain(&table), before);
}

#[test]
fn scan_lists_visible_rows_in_row_id_order() {
    let mut table = Table::new();
    let mut ids = Vec::new();
    for value in 1..=5 {
        ids.push(table.insert(TxnId(4), &row(value)).expect("insert"));
    }
    table.delete(TxnId(4), ids[1]).expect("delete");
    table.update(TxnId(4), ids[3], &row(40)).expect("update");
    table.commit(TxnId(4)).expect("commit");

    assert_eq!(
        table.scan(&snap(9, 100, &[])).expect("scan"),
        vec![
            (ids[0], row(1)),
            (ids[2], row(3)),
            (ids[3], row(40)),
            (ids[4], row(5)),
        ]
    );
}

#[test]
fn latest_version_is_the_tail_of_the_chain() {
    let mut table = Table::new();
    assert_eq!(table.latest_version(RowId(1)).expect("unknown row"), None);
    let id = table.insert(TxnId(4), &row(1)).expect("insert");
    assert_eq!(
        table.latest_version(id).expect("latest"),
        Some((TxnId(4), row(1)))
    );
    table.commit(TxnId(4)).expect("commit");
    table.delete(TxnId(6), id).expect("delete");
    // The deleter, not the creator: `txn` reads this to find the writer of a conflict.
    assert_eq!(
        table.latest_version(id).expect("latest"),
        Some((TxnId(6), row(1)))
    );
}

#[test]
fn a_long_row_goes_through_overflow_and_reads_back() {
    let shape = TableShape {
        columns: vec![TypeInfo::new(SqlType::VarChar(Len::Max), true)],
        clustered_key: None,
    };
    let mut table = Table::shaped(shape);
    let long = Row(vec![Value::String(SqlString { text: "v".repeat(20_000) })]);
    let id = table.insert(TxnId(4), &long).expect("insert");
    table.commit(TxnId(4)).expect("commit");
    assert_eq!(table.get(&snap(9, 100, &[]), id).expect("get"), Some(long));
}

#[test]
fn wrong_arity_and_unknown_row_are_bugs() {
    let mut table = Table::new();
    let wide = Row(vec![Value::I32(1), Value::I32(2)]);
    let message = bug_message(table.insert(TxnId(4), &wide).expect_err("arity"));
    assert!(message.contains("table 9 has 1 columns"), "{message}");
    assert!(chain(&table).is_empty());

    let message = bug_message(
        table
            .update(TxnId(4), RowId(3), &row(1))
            .expect_err("unknown"),
    );
    assert!(message.contains("unknown row 3"), "{message}");
    let message = bug_message(table.delete(TxnId(4), RowId(3)).expect_err("unknown"));
    assert!(message.contains("unknown row 3"), "{message}");
}

#[test]
fn reserved_txn_id_is_a_bug() {
    let mut table = Table::new();
    let reserved = TxnId(NO_XMAX);
    for message in [
        bug_message(table.insert(reserved, &row(1)).expect_err("insert")),
        bug_message(
            table
                .update(reserved, RowId(1), &row(1))
                .expect_err("update"),
        ),
        bug_message(table.delete(reserved, RowId(1)).expect_err("delete")),
        bug_message(table.commit(reserved).expect_err("commit")),
        bug_message(table.rollback(reserved).expect_err("rollback")),
    ] {
        assert!(message.contains("reserved id"), "{message}");
    }
    assert!(chain(&table).is_empty());
}

#[test]
fn a_second_commit_is_a_bug() {
    let mut table = Table::new();
    let id = table.insert(TxnId(4), &row(1)).expect("insert");
    table.commit(TxnId(4)).expect("commit");
    for message in [
        bug_message(table.commit(TxnId(4)).expect_err("second commit")),
        bug_message(table.rollback(TxnId(4)).expect_err("rollback after commit")),
        bug_message(
            table
                .insert(TxnId(4), &row(2))
                .expect_err("insert after commit"),
        ),
        bug_message(
            table
                .update(TxnId(4), id, &row(2))
                .expect_err("update after commit"),
        ),
        bug_message(table.delete(TxnId(4), id).expect_err("delete after commit")),
    ] {
        assert!(message.contains("is already Committed"), "{message}");
    }
    assert_eq!(chain(&table), vec![(id.0, 1, 4, None)]);
}

#[test]
fn commit_fsyncs_wal() {
    let mut table = Table::new();
    let id = table.insert(TxnId(4), &row(1)).expect("insert");
    table.commit(TxnId(4)).expect("commit");

    // The instance is still open and `data` was not synced: what the file holds is what
    // the commit put there.
    let records = table.records_on_disk();
    assert_eq!(
        kinds(&records),
        vec![
            WalRecordKind::Begin,
            WalRecordKind::Insert,
            WalRecordKind::Commit
        ]
    );
    assert_eq!(
        records.iter().map(|record| record.txn).collect::<Vec<_>>(),
        vec![TxnId(4); 3]
    );
    assert_eq!(
        records.iter().map(|record| record.lsn).collect::<Vec<_>>(),
        vec![Lsn(1), Lsn(2), Lsn(3)]
    );
    // `Begin` and `Commit` carry an empty payload; the `Insert` carries the version.
    assert!(records[0].payload.is_empty());
    assert!(records[2].payload.is_empty());
    let change = RowChange::decode(&records[1].payload).expect("decode the insert payload");
    assert_eq!(change.table, TABLE);
    assert_eq!(change.header.row, id);
    assert_eq!(change.header.xmin, TxnId(4));
    assert_eq!(change.header.xmax, None);
    assert_eq!(change.header.seq, 1);
    assert_eq!(decode_row(&change.columns).expect("decode"), row(1));
    // The commit moved the durable LSN to its own record.
    assert_eq!(table.journal.wal.durable_lsn(), Lsn(3));
}

#[test]
fn rollback_appends_abort() {
    let mut table = Table::new();
    let id = table.insert(TxnId(4), &row(1)).expect("insert");
    table.rollback(TxnId(4)).expect("rollback");

    assert_eq!(
        kinds(&table.records_on_disk()),
        vec![
            WalRecordKind::Begin,
            WalRecordKind::Insert,
            WalRecordKind::Abort
        ]
    );
    // The `Abort` is flushed like a `Commit`, so a `Begin` left without either is a
    // transaction a crash interrupted, for the recovery.
    assert_eq!(table.journal.wal.durable_lsn(), Lsn(3));
    assert!(chain(&table).is_empty());
    assert_eq!(table.get(&snap(9, 100, &[]), id).expect("get"), None);
    assert_eq!(table.status(TxnId(4)), TxnStatus::Aborted);
}

#[test]
fn an_update_and_a_delete_are_journalled_with_their_versions() {
    let mut table = Table::new();
    let id = table.insert(TxnId(4), &row(1)).expect("insert");
    table.commit(TxnId(4)).expect("commit 4");
    table.update(TxnId(5), id, &row(2)).expect("update");
    table.delete(TxnId(5), id).expect("delete");
    table.commit(TxnId(5)).expect("commit 5");

    let records = table.records();
    assert_eq!(
        kinds(&records),
        vec![
            WalRecordKind::Begin,
            WalRecordKind::Insert,
            WalRecordKind::Commit,
            WalRecordKind::Begin,
            WalRecordKind::Update,
            WalRecordKind::Delete,
            WalRecordKind::Commit,
        ]
    );
    // The `Update` names the version it creates: seq 2, written by 5, with its content.
    let update = RowChange::decode(&records[4].payload).expect("decode the update payload");
    assert_eq!(update.header.row, id);
    assert_eq!(update.header.xmin, TxnId(5));
    assert_eq!(update.header.xmax, None);
    assert_eq!(update.header.seq, 2);
    assert_eq!(decode_row(&update.columns).expect("decode"), row(2));
    // The `Delete` names the version it hides: seq 2, created by 5, hidden by 5, and it
    // carries no column.
    let delete = RowChange::decode(&records[5].payload).expect("decode the delete payload");
    assert_eq!(delete.header.row, id);
    assert_eq!(delete.header.xmin, TxnId(5));
    assert_eq!(delete.header.xmax, Some(TxnId(5)));
    assert_eq!(delete.header.seq, 2);
    assert!(delete.columns.is_empty());
}

#[test]
fn a_commit_without_a_write_appends_no_record() {
    let mut table = Table::new();
    table
        .commit(TxnId(4))
        .expect("commit a transaction that wrote nothing");
    assert!(table.records().is_empty());
    assert_eq!(table.journal.wal.last_lsn(), Lsn(0));

    // The second commit is the bug the trait names, and it appends nothing either.
    let err = table.commit(TxnId(4)).expect_err("second commit");
    assert!(bug_message(err).contains("is already Committed"));
    assert!(table.records().is_empty());

    // A rollback of a transaction that wrote nothing is the same.
    table
        .rollback(TxnId(7))
        .expect("rollback a transaction that wrote nothing");
    assert!(table.records().is_empty());
}

#[test]
fn a_row_whose_record_is_past_the_payload_limit_is_a_bug() {
    let shape = TableShape {
        columns: vec![TypeInfo::new(SqlType::VarChar(Len::Max), true)],
        clustered_key: None,
    };
    let mut table = Table::shaped(shape);
    let long = Row(vec![Value::String(SqlString { text: "v".repeat(2 * 1024 * 1024) })]);

    let message = bug_message(table.insert(TxnId(4), &long).expect_err("2 MiB of text"));
    assert!(message.contains("payload bytes"), "{message}");
    // The record is appended before the heap is changed, so the heap is untouched and the
    // next insert goes through.
    assert!(chain(&table).is_empty());
    let short = Row(vec![Value::String(SqlString { text: "v".to_string() })]);
    let id = table.insert(TxnId(4), &short).expect("a row that fits");
    assert_eq!(id, RowId(1));
    // The `Begin` of 4 was appended before the refused record, and 4 is still running.
    assert_eq!(
        kinds(&table.records()),
        vec![WalRecordKind::Begin, WalRecordKind::Insert]
    );
    assert_eq!(table.status(TxnId(4)), TxnStatus::InProgress);
}

#[test]
fn open_serves_the_rows_but_hands_out_row_id_one_again() {
    let mut table = Table::new();
    let id = table.insert(TxnId(4), &row(1)).expect("insert");
    table.commit(TxnId(4)).expect("commit");

    let Table { journal, table } = table;
    let mut reopened = Table {
        journal,
        table: HeapTable::open(table.heap, int_shape()),
    };
    let after = snap(9, 100, &[]);
    // The heap is walked, so the row is served; the directory is empty, so what goes through it
    // is not.
    assert_eq!(reopened.get(&after, id).expect("get"), Some(row(1)));
    assert_eq!(reopened.scan(&after).expect("scan"), vec![(id, row(1))]);
    assert_eq!(reopened.table.latest_version(id).expect("latest"), None);
    assert!(matches!(
        reopened.update(TxnId(6), id, &row(2)),
        Err(InternalError::Bug(_))
    ));
    assert!(matches!(
        reopened.delete(TxnId(6), id),
        Err(InternalError::Bug(_))
    ));

    // The counter starts at 1 again: the id of the row already there is handed out twice.
    let again = reopened.insert(TxnId(6), &row(3)).expect("insert");
    reopened.commit(TxnId(6)).expect("commit");
    assert_eq!(again, RowId(1));
    assert_eq!(again, id);
    assert_eq!(
        reopened.scan(&after).expect("scan"),
        vec![(id, row(1)), (id, row(3))]
    );
}
