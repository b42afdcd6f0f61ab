//! Errors of the storage layer: what was refused and why, with the text a caller reads.

use vstd::prelude::*;

use crate::disk::page::{Lsn, PageId};
use crate::disk::wal::{FrameFault, WalRecordKind};
use crate::ids::{DbId, IndexId, RowId, SavepointId, TableId, TxnId};
use crate::snapshot::TxnStatus;
use crate::value::{SqlType, Value};

verus! {

/// Which key of a table an error speaks of.
#[derive(Debug, Clone, Copy, PartialEq, Eq, Structural)]
pub enum KeyKind {
    /// The clustered key of a table.
    Clustered,
    /// The key of an index.
    Index,
}

/// Which counter of identifiers an error speaks of.
#[derive(Debug, Clone, Copy, PartialEq, Eq, Structural)]
pub enum IdSpace {
    /// The identifiers of databases.
    Database,
    /// The identifiers of tables.
    Table,
    /// The identifiers of indexes.
    Index,
    /// The identifiers of savepoints.
    Savepoint,
}

/// A violated precondition: what the caller got wrong.
#[derive(Debug)]
pub enum Bug {
    /// No database has that identifier.
    UnknownDatabase(DbId),
    /// No table has that identifier.
    UnknownTable(TableId),
    /// No index has that identifier.
    UnknownIndex(IndexId),
    /// The transaction already committed or rolled back.
    FinishedTxn {
        /// The transaction.
        txn: TxnId,
        /// How it ended.
        status: TxnStatus,
    },
    /// The table holds no such row.
    UnknownRow {
        /// The table.
        table: TableId,
        /// The row.
        row: RowId,
    },
    /// The latest version of the row was replaced or deleted.
    StaleRow {
        /// The table.
        table: TableId,
        /// The row.
        row: RowId,
        /// The transaction that replaced or deleted it.
        by: TxnId,
    },
    /// The latest version of the row belongs to another transaction that has not committed.
    RowBeingWritten {
        /// The table.
        table: TableId,
        /// The row.
        row: RowId,
        /// The transaction that wrote it.
        by: TxnId,
        /// The status of that transaction.
        status: TxnStatus,
    },
    /// The row does not have one value per column.
    WrongArity {
        /// The table.
        table: TableId,
        /// Values of the row.
        values: usize,
        /// Columns of the table.
        columns: usize,
    },
    /// The shape of a table lists no column.
    NoColumn,
    /// A key lists no column.
    EmptyKey(KeyKind),
    /// A key names a column the table does not have.
    KeyColumnOutOfRange {
        /// The key.
        key: KeyKind,
        /// The column it names.
        column: u16,
        /// Columns of the table.
        columns: usize,
    },
    /// An index includes a column the table does not have.
    IncludedColumnOutOfRange {
        /// The column it names.
        column: u16,
        /// Columns of the table.
        columns: usize,
    },
    /// A counter of identifiers is at its last value.
    IdsExhausted(IdSpace),
    /// A savepoint was named for a transaction the storage does not know.
    SavepointOfUnknownTxn {
        /// The transaction.
        txn: TxnId,
        /// The savepoint.
        savepoint: SavepointId,
    },
    /// The savepoint is unknown, invalidated or owned by another transaction.
    UnknownSavepoint {
        /// The transaction.
        txn: TxnId,
        /// The savepoint.
        savepoint: SavepointId,
    },
    /// A database, a table or an index is unknown to the instance.
    NotInInstance(IdSpace, u32),
    /// The options of an instance ask for a buffer pool of no frame.
    NoFrame,
    /// A table has no row identifier left to hand out.
    RowIdsExhausted(TableId),
    /// A table has no version serial left to hand out.
    SerialsExhausted(TableId),
    /// The heap of a table has no address left to hand out.
    HeapFull(TableId),
    /// The transaction identifier is the one that stands for no transaction.
    ReservedTxn(TxnId),
    /// A journal record cannot hold that payload.
    PayloadTooLong {
        /// The kind of the record.
        kind: WalRecordKind,
        /// Bytes of the payload.
        bytes: usize,
    },
    /// The numbers of the journal are at their last value.
    LsnsExhausted,
    /// A key prefix holds more values than the key has columns.
    PrefixTooLong {
        /// Values of the prefix.
        values: usize,
        /// Columns of the key.
        columns: usize,
    },
    /// A value of a key prefix is not one the column holds.
    PrefixValueMismatch {
        /// Position of the value in the prefix.
        position: usize,
        /// The value.
        value: Value,
        /// The type of the column.
        ty: SqlType,
    },
}

/// A broken invariant of the stored data, reported rather than repaired.
#[derive(Debug)]
pub enum Corruption {
    /// A row is shorter than the key columns of its table ask for.
    KeyColumnMissing {
        /// Values of the row.
        values: usize,
        /// Position of the key column.
        column: usize,
    },
    /// The chain of a row does not end with the update being undone.
    NotTheUpdate {
        /// The table.
        table: TableId,
        /// The row.
        row: RowId,
        /// The transaction being undone.
        txn: TxnId,
    },
    /// The chain of a row does not end with the delete being undone.
    NotTheDelete {
        /// The table.
        table: TableId,
        /// The row.
        row: RowId,
        /// The transaction being undone.
        txn: TxnId,
    },
    /// A page carries a kind byte that is no kind.
    UnknownPageKind(u8),
    /// A page does not start with the magic.
    PageMagic {
        /// The identifier the page carries.
        page: PageId,
        /// The bytes it starts with.
        magic: (u8, u8, u8, u8),
    },
    /// A page declares a format version this build does not read.
    PageVersion {
        /// The identifier the page carries.
        page: PageId,
        /// The version it declares.
        version: u8,
    },
    /// The checksum of a page disagrees with its bytes.
    PageChecksum {
        /// The identifier the page carries.
        page: PageId,
        /// The checksum it carries.
        stored: u32,
        /// The checksum of its bytes.
        computed: u32,
    },
    /// A directory holds a data file or a journal but no control file.
    NoControlFile,
    /// A directory holds a control file but no data file.
    NoDataFile,
    /// A directory holds a control file and a data file but no journal.
    NoJournalFile,
    /// A control block has another size.
    ControlLength(usize),
    /// A control block does not start with the magic.
    ControlMagic,
    /// A control block declares a format version this build does not read.
    ControlVersion(u32),
    /// The checksum of a control block disagrees with its bytes.
    ControlChecksum {
        /// The checksum it carries.
        stored: u32,
        /// The checksum of its bytes.
        computed: u32,
    },
    /// A byte is no kind of journal record.
    UnknownRecordKind(u8),
    /// A checkpoint record carries a payload of another length.
    CheckpointLength(usize),
    /// A whole journal record is one this build will not read.
    Frame(FrameFault),
    /// A journal record cannot be read while a record whose checksum agrees starts after it.
    Interior {
        /// Where the unreadable record starts.
        at: u64,
        /// Why it cannot be read.
        reason: FrameFault,
        /// Where the record after it starts.
        sealed: u64,
    },
    /// A journal record does not continue the numbering.
    BrokenChain {
        /// Where the record starts.
        offset: u64,
        /// The number it carries.
        lsn: Lsn,
        /// The number of the record before it.
        last: Lsn,
        /// The number it names as the record before it.
        prev: Lsn,
    },
    /// The columns of a version are not the bytes of a row.
    NotARow {
        /// How many bytes there are.
        bytes: usize,
    },
    /// A row points at an address that holds no record.
    NoRecord {
        /// The table.
        table: TableId,
        /// The row.
        row: RowId,
    },
    /// The record of a version ends before its columns.
    NoColumns {
        /// The row.
        row: RowId,
        /// The version.
        seq: u64,
    },
    /// A heap record is shorter than the prefix of a version.
    VersionTooShort {
        /// How many bytes there are.
        bytes: usize,
    },
    /// The payload of a row record does not hold its fixed part.
    ShortChange {
        /// How many bytes there are.
        bytes: usize,
    },
    /// The journal defines a table or an index that cannot be stored.
    BrokenDefinition {
        /// The identifier of the table or of the index.
        id: u64,
    },
    /// An index cannot be built over the rows the recovery left.
    IndexRebuild(IndexId),
    /// The payload of a definition record is none.
    NotADefinition {
        /// How many bytes there are.
        bytes: usize,
    },
    /// The payload of a savepoint record does not hold a savepoint identifier.
    ShortSavepoint {
        /// The byte of the kind of the record.
        kind: u8,
        /// The number of the record.
        lsn: Lsn,
        /// How many bytes there are.
        bytes: usize,
    },
    /// The chain of a row does not end with a version the transaction being undone created and
    /// left current.
    NotTheCreated {
        /// The table.
        table: TableId,
        /// The row.
        row: RowId,
        /// The transaction being undone.
        txn: TxnId,
    },
    /// A row has no version left under the update being undone.
    NothingUnderUpdate {
        /// The table.
        table: TableId,
        /// The row.
        row: RowId,
        /// The transaction being undone.
        txn: TxnId,
    },
    /// The version under the update being undone does not carry the mark of its transaction.
    NotTheReplaced {
        /// The table.
        table: TableId,
        /// The row.
        row: RowId,
        /// The version.
        seq: u64,
        /// The transaction being undone.
        txn: TxnId,
    },
    /// The journal hides a version the heap does not hold.
    HiddenVersionMissing {
        /// The table.
        table: TableId,
        /// The row.
        row: RowId,
        /// The version.
        seq: u64,
    },
    /// The lock around the storage was left poisoned.
    LockPoisoned,
}

/// An error that does not come from the data of the caller.
#[derive(Debug)]
pub enum InternalError {
    /// The caller broke a precondition.
    Bug(Bug),
    /// The stored data broke an invariant.
    Corruption(Corruption),
}

/// The error a storage operation answers.
#[derive(Debug)]
pub enum SqlError {
    /// A bug or a corruption.
    Internal(InternalError),
    /// A live row already holds the key of a `unique` index.
    DuplicateKey {
        /// The table.
        table: TableId,
        /// The index.
        index: IndexId,
        /// The key.
        key: Vec<Value>,
    },
    /// The declared width of a clustered key is past the limit: the bytes it asks for, `None`
    /// when it has no bound.
    ClusteredKeyTooWide(Option<usize>),
    /// Two values of different families were compared.
    IncomparableValues,
}

impl SqlError {
    /// Whether the error is the bug `bug`.
    pub open spec fn is_bug(self, bug: Bug) -> bool {
        self == SqlError::Internal(InternalError::Bug(bug))
    }
}

impl SqlError {
    /// Whether the error is the corruption `corruption`.
    pub open spec fn is_corruption(self, corruption: Corruption) -> bool {
        self == SqlError::Internal(InternalError::Corruption(corruption))
    }
}

/// The answer of a storage operation.
pub type SqlResult<T> = Result<T, SqlError>;

/// The error of a violated precondition.
pub fn bug<T>(reason: Bug) -> (r: SqlResult<T>)
    ensures
        r matches Err(e) && e.is_bug(reason),
{
    Err(SqlError::Internal(InternalError::Bug(reason)))
}

/// The error of a broken invariant.
pub fn corruption<T>(reason: Corruption) -> (r: SqlResult<T>)
    ensures
        r matches Err(e) && e.is_corruption(reason),
{
    Err(SqlError::Internal(InternalError::Corruption(reason)))
}

} // verus!
