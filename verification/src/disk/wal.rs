//! The write-ahead journal of an on-disk instance: an append-only run of logical records.
//!
//! The journal is **logical**: a record names what changed (a row inserted in a table, a
//! transaction committed), not the bytes of a page. What the payload of a row record holds is
//! [`super::wal_payload`]; here the record format, the log sequence numbers and what is read
//! back from damaged bytes.
//!
//! # Record format, little-endian
//!
//! | Offset | Size | Field |
//! |---|---|---|
//! | 0 | 4 | `length`: bytes of the record **after** this field, checksum included |
//! | 4 | 1 | `version` = 1 |
//! | 5 | 1 | [`WalRecordKind`] |
//! | 6 | 8 | `lsn` ([`Lsn`]) |
//! | 14 | 8 | `prev_lsn`, `0` in the first record of the journal |
//! | 22 | 8 | `txn` ([`TxnId`]), `0` when the record belongs to no transaction |
//! | 30 | `length` − 30 | payload, opaque to this file |
//! | end − 4 | 4 | CRC-32 of the record but these four bytes, `length` included |
//!
//! # Log sequence numbers
//!
//! The `lsn` is a counter carried by the record, not its offset: the first record of a fresh
//! journal is `Lsn(1)`, and each record that follows adds 1. `prev_lsn` repeats the number of
//! the record before it, per record and not per transaction.
//!
//! # What reading damaged bytes gives
//!
//! The records are read from the start. What becomes of a record that cannot be read depends on
//! what lies after it: when the bytes of the record are not all there, its `length` frames no
//! record or its checksum disagrees, and **no record with an agreeing checksum starts anywhere
//! after it**, the tail was written by an append that did not finish and is dropped; when such a
//! record does start after it, the damage is an interior one and is reported with both offsets.
//! A record whose checksum agrees but which this build will not read (an unknown `version`, an
//! unknown kind, a number that does not continue the chain) is reported wherever it stands.

use vstd::prelude::*;

use super::bytes::{
    le_bytes, le_value, lemma_byte_ranges, lemma_le_len, lemma_le_round_trip, lemma_le_write_back,
    put_bytes, put_u32, put_u64, read_u32, read_u64,
};
use super::crc::{crc32, crc_of};
use super::page::{Lsn, PageId};
use crate::error::{Bug, Corruption, InternalError};
use crate::ids::TxnId;

verus! {

/// Value written in the `version` field of a record by this build.
pub const RECORD_VERSION: u8 = 1;

/// Size of the `length` field that opens a record, in bytes.
pub const LENGTH_LEN: usize = 4;

/// Size of the fixed fields that follow `length`: version, kind, `lsn`, `prev_lsn`, `txn`.
pub const HEADER_LEN: usize = 26;

/// Size of the checksum that closes a record, in bytes.
pub const CHECKSUM_LEN: usize = 4;

/// Bytes a record occupies on disk beside its payload: `length`, fixed fields and checksum.
pub const FRAME_LEN: usize = 34;

/// Largest record this build writes or reads, in bytes on disk, payload included: 1 MiB.
pub const MAX_RECORD_LEN: usize = 1048576;

/// Largest payload a record may carry: [`MAX_RECORD_LEN`] less the frame around it.
pub const MAX_PAYLOAD_LEN: usize = 1048542;

/// Smallest value the `length` field may carry: a record with an empty payload.
pub const MIN_LENGTH: u64 = 30;

/// What a record says happened, stored as one byte at offset 5.
///
/// The byte values are part of the on-disk format: a new kind takes a free value, an existing
/// one keeps its own. `0` is not a kind, so a run of zero bytes does not read as one.
#[derive(Debug, Clone, Copy, PartialEq, Eq, PartialOrd, Ord, Hash, Structural)]
pub enum WalRecordKind {
    /// First record of a transaction.
    Begin,
    /// A row version was inserted.
    Insert,
    /// A row version was replaced.
    Update,
    /// A row version was deleted.
    Delete,
    /// The transaction committed.
    Commit,
    /// The transaction was rolled back.
    Abort,
    /// Checkpoint: the pages of the committed transactions are on disk.
    Checkpoint,
    /// A database was created.
    CreateDatabase,
    /// A database was dropped.
    DropDatabase,
    /// A table was created.
    CreateTable,
    /// A table was dropped.
    DropTable,
    /// An index was created.
    CreateIndex,
    /// An index was dropped.
    DropIndex,
    /// A savepoint was taken.
    Savepoint,
    /// The transaction was rolled back to a savepoint.
    RollbackTo,
}

impl WalRecordKind {
    /// The byte of the kind.
    pub open spec fn byte(self) -> u8 {
        match self {
            WalRecordKind::Begin => 1,
            WalRecordKind::Insert => 2,
            WalRecordKind::Update => 3,
            WalRecordKind::Delete => 4,
            WalRecordKind::Commit => 5,
            WalRecordKind::Abort => 6,
            WalRecordKind::Checkpoint => 7,
            WalRecordKind::CreateDatabase => 8,
            WalRecordKind::DropDatabase => 9,
            WalRecordKind::CreateTable => 10,
            WalRecordKind::DropTable => 11,
            WalRecordKind::CreateIndex => 12,
            WalRecordKind::DropIndex => 13,
            WalRecordKind::Savepoint => 14,
            WalRecordKind::RollbackTo => 15,
        }
    }

    /// The kind of a byte.
    pub open spec fn of(raw: u8) -> Option<WalRecordKind> {
        match raw {
            1 => Some(WalRecordKind::Begin),
            2 => Some(WalRecordKind::Insert),
            3 => Some(WalRecordKind::Update),
            4 => Some(WalRecordKind::Delete),
            5 => Some(WalRecordKind::Commit),
            6 => Some(WalRecordKind::Abort),
            7 => Some(WalRecordKind::Checkpoint),
            8 => Some(WalRecordKind::CreateDatabase),
            9 => Some(WalRecordKind::DropDatabase),
            10 => Some(WalRecordKind::CreateTable),
            11 => Some(WalRecordKind::DropTable),
            12 => Some(WalRecordKind::CreateIndex),
            13 => Some(WalRecordKind::DropIndex),
            14 => Some(WalRecordKind::Savepoint),
            15 => Some(WalRecordKind::RollbackTo),
            _ => None,
        }
    }

    /// Reads a kind from its stored byte.
    ///
    /// # Errors
    ///
    /// A corruption naming the byte for a byte that is no kind.
    pub fn from_byte(raw: u8) -> (r: Result<Self, InternalError>)
        ensures
            match r {
                Ok(kind) => WalRecordKind::of(raw) == Some(kind) && kind.byte() == raw,
                Err(e) => WalRecordKind::of(raw) is None && e == InternalError::Corruption(
                    Corruption::UnknownRecordKind(raw),
                ),
            },
    {
        match raw {
            1 => Ok(WalRecordKind::Begin),
            2 => Ok(WalRecordKind::Insert),
            3 => Ok(WalRecordKind::Update),
            4 => Ok(WalRecordKind::Delete),
            5 => Ok(WalRecordKind::Commit),
            6 => Ok(WalRecordKind::Abort),
            7 => Ok(WalRecordKind::Checkpoint),
            8 => Ok(WalRecordKind::CreateDatabase),
            9 => Ok(WalRecordKind::DropDatabase),
            10 => Ok(WalRecordKind::CreateTable),
            11 => Ok(WalRecordKind::DropTable),
            12 => Ok(WalRecordKind::CreateIndex),
            13 => Ok(WalRecordKind::DropIndex),
            14 => Ok(WalRecordKind::Savepoint),
            15 => Ok(WalRecordKind::RollbackTo),
            other => Err(InternalError::Corruption(Corruption::UnknownRecordKind(other))),
        }
    }

    /// The byte written at offset 5 of a record.
    pub fn as_byte(self) -> (r: u8)
        ensures
            r == self.byte(),
            WalRecordKind::of(r) == Some(self),
    {
        match self {
            WalRecordKind::Begin => 1,
            WalRecordKind::Insert => 2,
            WalRecordKind::Update => 3,
            WalRecordKind::Delete => 4,
            WalRecordKind::Commit => 5,
            WalRecordKind::Abort => 6,
            WalRecordKind::Checkpoint => 7,
            WalRecordKind::CreateDatabase => 8,
            WalRecordKind::DropDatabase => 9,
            WalRecordKind::CreateTable => 10,
            WalRecordKind::DropTable => 11,
            WalRecordKind::CreateIndex => 12,
            WalRecordKind::DropIndex => 13,
            WalRecordKind::Savepoint => 14,
            WalRecordKind::RollbackTo => 15,
        }
    }
}

/// One record of the journal.
///
/// The payload is opaque here: what a kind puts in it is written by the module that emits that
/// kind.
#[derive(Debug, Clone, PartialEq, Eq)]
pub struct WalRecord {
    /// What happened.
    pub kind: WalRecordKind,
    /// Number of this record, from 1 upwards.
    pub lsn: Lsn,
    /// Number of the record before it, `Lsn(0)` in the first record of the journal.
    pub prev_lsn: Lsn,
    /// Transaction the record belongs to, `TxnId(0)` when it belongs to none.
    pub txn: TxnId,
    /// Payload, `length` − 30 bytes on disk.
    pub payload: Vec<u8>,
}

/// What a [`WalRecord`] stands for.
#[verifier::ext_equal]
pub struct RecordModel {
    /// What happened.
    pub kind: WalRecordKind,
    /// Number of this record.
    pub lsn: Lsn,
    /// Number of the record before it.
    pub prev_lsn: Lsn,
    /// Transaction the record belongs to.
    pub txn: TxnId,
    /// Payload.
    pub payload: Seq<u8>,
}

impl View for WalRecord {
    type V = RecordModel;

    open spec fn view(&self) -> RecordModel {
        RecordModel {
            kind: self.kind,
            lsn: self.lsn,
            prev_lsn: self.prev_lsn,
            txn: self.txn,
            payload: self.payload@,
        }
    }
}

impl DeepView for WalRecord {
    type V = RecordModel;

    open spec fn deep_view(&self) -> RecordModel {
        self@
    }
}

impl RecordModel {
    /// The bytes of the record but its checksum.
    pub open spec fn body(self) -> Seq<u8> {
        le_bytes(30 + self.payload.len(), 4) + seq![RECORD_VERSION, self.kind.byte()] + le_bytes(
            self.lsn.0 as nat,
            8,
        ) + le_bytes(self.prev_lsn.0 as nat, 8) + le_bytes(self.txn.0 as nat, 8) + self.payload
    }

    /// The bytes of the record.
    pub open spec fn encoded(self) -> Seq<u8> {
        self.body() + le_bytes(crc_of(self.body()) as nat, 4)
    }
}

impl WalRecord {
    /// The bytes of the record, checksum included, as the format table describes them.
    pub fn encode(&self) -> (r: Vec<u8>)
        requires
            self.payload@.len() <= MAX_PAYLOAD_LEN,
        ensures
            r@ == self@.encoded(),
    {
        let length: usize = HEADER_LEN + self.payload.len() + CHECKSUM_LEN;
        let mut bytes: Vec<u8> = Vec::with_capacity(LENGTH_LEN + length);
        put_u32(&mut bytes, length as u32);
        bytes.push(RECORD_VERSION);
        bytes.push(self.kind.as_byte());
        put_u64(&mut bytes, self.lsn.0);
        put_u64(&mut bytes, self.prev_lsn.0);
        put_u64(&mut bytes, self.txn.0);
        put_bytes(&mut bytes, self.payload.as_slice());
        assert(bytes@ =~= self@.body());
        let checksum: u32 = crc32(bytes.as_slice());
        put_u32(&mut bytes, checksum);
        bytes
    }

    /// A copy of the record.
    pub fn duplicate(&self) -> (r: WalRecord)
        ensures
            r@ == self@,
    {
        WalRecord {
            kind: self.kind,
            lsn: self.lsn,
            prev_lsn: self.prev_lsn,
            txn: self.txn,
            payload: crate::value::duplicate_bytes(&self.payload),
        }
    }
}

/// Why the bytes at an offset are no record this build reads.
#[derive(Debug, Clone, Copy, PartialEq, Eq, Structural)]
pub enum FrameFault {
    /// Fewer bytes than a length field.
    ShortLength {
        /// Where the record would start.
        offset: u64,
        /// Bytes there are from there.
        remaining: u64,
    },
    /// A length that frames no record.
    OutOfBounds {
        /// Where the record would start.
        offset: u64,
        /// The length it announces.
        length: u64,
    },
    /// Fewer bytes than the record announces.
    Torn {
        /// Where the record starts.
        offset: u64,
        /// Bytes it announces, length field included.
        len: u64,
        /// Bytes there are from there.
        remaining: u64,
    },
    /// A checksum that disagrees with the bytes.
    Checksum {
        /// Where the record starts.
        offset: u64,
        /// The checksum it carries.
        stored: u32,
        /// The checksum of its bytes.
        computed: u32,
    },
    /// A format version this build does not read.
    Version {
        /// Where the record starts.
        offset: u64,
        /// The version it declares.
        version: u8,
    },
    /// A kind this build does not know.
    Kind {
        /// Where the record starts.
        offset: u64,
        /// The byte it carries.
        kind: u8,
    },
}

/// What the bytes at a given offset amount to, as [`frame`] read them.
#[derive(Debug)]
pub enum Framed {
    /// A whole record whose checksum, version and kind check out; `len` is its size on disk.
    Whole {
        /// The record itself.
        record: WalRecord,
        /// Bytes it occupies, `length` field included.
        len: u64,
    },
    /// A record whose bytes are all there but whose checksum disagrees.
    Damaged {
        /// The mismatch.
        reason: FrameFault,
    },
    /// A whole record with an agreeing checksum that this build will not read.
    Rejected {
        /// What this build refused.
        reason: FrameFault,
    },
    /// Fewer bytes than the record announces.
    Torn {
        /// What was announced against what is there.
        reason: FrameFault,
    },
    /// A `length` field that frames no record.
    Unframed {
        /// The length that was read.
        reason: FrameFault,
    },
}

/// What a [`Framed`] stands for.
pub enum FramedModel {
    /// A whole record.
    Whole {
        /// The record.
        record: RecordModel,
        /// Bytes it occupies.
        len: nat,
    },
    /// A record whose checksum disagrees.
    Damaged(FrameFault),
    /// A whole record this build will not read.
    Rejected(FrameFault),
    /// Fewer bytes than the record announces.
    Torn(FrameFault),
    /// A length that frames no record.
    Unframed(FrameFault),
}

impl View for Framed {
    type V = FramedModel;

    open spec fn view(&self) -> FramedModel {
        match *self {
            Framed::Whole { record, len } => FramedModel::Whole { record: record@, len: len as nat },
            Framed::Damaged { reason } => FramedModel::Damaged(reason),
            Framed::Rejected { reason } => FramedModel::Rejected(reason),
            Framed::Torn { reason } => FramedModel::Torn(reason),
            Framed::Unframed { reason } => FramedModel::Unframed(reason),
        }
    }
}

/// The length a region announces.
pub open spec fn announced(region: Seq<u8>) -> nat {
    le_value(region.take(4))
}

/// The record a region of `announced(region) + 4` bytes holds, its kind being `kind`.
pub open spec fn record_in(region: Seq<u8>, kind: WalRecordKind) -> RecordModel {
    RecordModel {
        kind,
        lsn: Lsn(le_value(region.subrange(6, 14)) as u64),
        prev_lsn: Lsn(le_value(region.subrange(14, 22)) as u64),
        txn: TxnId(le_value(region.subrange(22, 30)) as u64),
        payload: region.subrange(30, announced(region) as int),
    }
}

/// What the bytes of a region amount to; `offset` is where the region starts in the journal.
pub open spec fn frame_of(region: Seq<u8>, offset: u64) -> FramedModel {
    let remaining = region.len() as u64;
    if region.len() < 4 {
        FramedModel::Torn(FrameFault::ShortLength { offset, remaining })
    } else {
        let length = announced(region);
        let len = length + 4;
        if length < MIN_LENGTH || len > MAX_RECORD_LEN {
            FramedModel::Unframed(FrameFault::OutOfBounds { offset, length: length as u64 })
        } else if region.len() < len {
            FramedModel::Torn(FrameFault::Torn { offset, len: len as u64, remaining })
        } else {
            let stored = le_value(region.subrange(length as int, len as int)) as u32;
            let computed = crc_of(region.take(length as int));
            if stored != computed {
                FramedModel::Damaged(FrameFault::Checksum { offset, stored, computed })
            } else if region[4] != RECORD_VERSION {
                FramedModel::Rejected(FrameFault::Version { offset, version: region[4] })
            } else {
                match WalRecordKind::of(region[5]) {
                    None => FramedModel::Rejected(FrameFault::Kind { offset, kind: region[5] }),
                    Some(kind) => FramedModel::Whole { record: record_in(region, kind), len },
                }
            }
        }
    }
}

/// What the bytes from `offset` of the journal on amount to, `remaining` bounding the region: as many
/// of them are looked at as the length announces.
pub open spec fn frame_within(bytes: Seq<u8>, offset: u64, remaining: u64) -> FramedModel {
    let length = announced(bytes);
    let len = length + 4;
    if remaining < 4 {
        FramedModel::Torn(FrameFault::ShortLength { offset, remaining })
    } else if length < MIN_LENGTH || len > MAX_RECORD_LEN {
        FramedModel::Unframed(FrameFault::OutOfBounds { offset, length: length as u64 })
    } else if remaining < len {
        FramedModel::Torn(FrameFault::Torn { offset, len: len as u64, remaining })
    } else {
        frame_of(bytes.take(len as int), offset)
    }
}

/// Whether the bytes that are looked at are there.
pub open spec fn reads_through(bytes: Seq<u8>, remaining: u64) -> bool {
    let length = announced(bytes);
    let len = length + 4;
    remaining >= 4 ==> {
        &&& bytes.len() >= 4
        &&& length >= MIN_LENGTH && len <= MAX_RECORD_LEN && remaining >= len ==> bytes.len() >= len
    }
}

/// A region that is there is framed by its own bytes alone.
pub proof fn lemma_framed_by_region(bytes: Seq<u8>, offset: u64, remaining: u64)
    requires
        remaining <= bytes.len(),
    ensures
        reads_through(bytes, remaining),
        frame_within(bytes, offset, remaining) == frame_of(bytes.take(remaining as int), offset),
{
    let region = bytes.take(remaining as int);
    if remaining >= 4 {
        assert(region.take(4) =~= bytes.take(4));
        let length = announced(bytes);
        let len = length + 4;
        if length >= MIN_LENGTH && len <= MAX_RECORD_LEN && remaining >= len {
            let whole = bytes.take(len as int);
            assert(whole.take(4) =~= bytes.take(4));
            assert(whole.subrange(length as int, len as int) =~= region.subrange(
                length as int,
                len as int,
            ));
            assert(whole.take(length as int) =~= region.take(length as int));
            assert(whole.subrange(6, 14) =~= region.subrange(6, 14));
            assert(whole.subrange(14, 22) =~= region.subrange(14, 22));
            assert(whole.subrange(22, 30) =~= region.subrange(22, 30));
            assert(whole.subrange(30, length as int) =~= region.subrange(30, length as int));
        }
    }
}

/// Reads the record that starts at `offset` of the journal, given the bytes from there;
/// `remaining` bounds how many of them belong to the region. The bytes must reach as far as the
/// record is read.
pub fn frame(bytes: &[u8], offset: u64, remaining: u64) -> (r: Framed)
    requires
        reads_through(bytes@, remaining),
    ensures
        r@ == frame_within(bytes@, offset, remaining),
        remaining <= bytes@.len() ==> r@ == frame_of(bytes@.take(remaining as int), offset),
{
    proof {
        if remaining <= bytes@.len() {
            lemma_framed_by_region(bytes@, offset, remaining);
        }
    }
    let ghost region = bytes@.take((announced(bytes@) + 4) as int);
    if remaining < LENGTH_LEN as u64 {
        return Framed::Torn { reason: FrameFault::ShortLength { offset, remaining } };
    }
    proof {
        lemma_byte_ranges();
        lemma_le_write_back(bytes@.take(4));
        assert(bytes@.take(4) =~= bytes@.subrange(0, 4));
    }
    let length: u64 = read_u32(bytes, 0) as u64;
    let len: u64 = LENGTH_LEN as u64 + length;
    if length < MIN_LENGTH || len > MAX_RECORD_LEN as u64 {
        return Framed::Unframed { reason: FrameFault::OutOfBounds { offset, length } };
    }
    if remaining < len {
        return Framed::Torn { reason: FrameFault::Torn { offset, len, remaining } };
    }
    let split: usize = length as usize;
    proof {
        assert(region.take(4) =~= bytes@.take(4));
        assert(bytes@.subrange(split as int, split + 4) =~= region.subrange(
            length as int,
            len as int,
        ));
        lemma_le_write_back(region.subrange(length as int, len as int));
    }
    let stored: u32 = read_u32(bytes, split);
    let body: &[u8] = vstd::slice::slice_subrange(bytes, 0, split);
    assert(body@ =~= region.take(length as int));
    let computed: u32 = crc32(body);
    if stored != computed {
        return Framed::Damaged { reason: FrameFault::Checksum { offset, stored, computed } };
    }
    let version: u8 = bytes[LENGTH_LEN];
    if version != RECORD_VERSION {
        return Framed::Rejected { reason: FrameFault::Version { offset, version } };
    }
    let kind_byte: u8 = bytes[LENGTH_LEN + 1];
    let kind: WalRecordKind = match WalRecordKind::from_byte(kind_byte) {
        Ok(kind) => kind,
        Err(_) => {
            return Framed::Rejected { reason: FrameFault::Kind { offset, kind: kind_byte } };
        },
    };
    proof {
        assert(bytes@.subrange(6, 14) =~= region.subrange(6, 14));
        assert(bytes@.subrange(14, 22) =~= region.subrange(14, 22));
        assert(bytes@.subrange(22, 30) =~= region.subrange(22, 30));
    }
    let mut payload: Vec<u8> = Vec::new();
    put_bytes(&mut payload, vstd::slice::slice_subrange(bytes, LENGTH_LEN + HEADER_LEN, split));
    assert(payload@ =~= region.subrange(30, length as int));
    Framed::Whole {
        record: WalRecord {
            kind,
            lsn: Lsn(read_u64(bytes, LENGTH_LEN + 2)),
            prev_lsn: Lsn(read_u64(bytes, LENGTH_LEN + 10)),
            txn: TxnId(read_u64(bytes, LENGTH_LEN + 18)),
            payload,
        },
        len,
    }
}

/// A record that was encoded reads back whole, whatever follows it.
pub proof fn law_encoded_record_reads_back(record: RecordModel, rest: Seq<u8>, offset: u64)
    requires
        record.payload.len() <= MAX_PAYLOAD_LEN,
    ensures
        record.encoded().len() == FRAME_LEN + record.payload.len(),
        frame_of(record.encoded() + rest, offset) == (FramedModel::Whole {
            record,
            len: record.encoded().len(),
        }),
{
    let n = record.payload.len();
    let length = (30 + n) as nat;
    let region = record.encoded() + rest;
    let body = record.body();
    lemma_byte_ranges();
    lemma_le_round_trip(length, 4);
    lemma_le_round_trip(record.lsn.0 as nat, 8);
    lemma_le_round_trip(record.prev_lsn.0 as nat, 8);
    lemma_le_round_trip(record.txn.0 as nat, 8);
    lemma_le_round_trip(crc_of(body) as nat, 4);
    assert(region.take(4) =~= le_bytes(length, 4));
    assert(body.len() == length);
    assert(region.subrange(length as int, length as int + 4) =~= le_bytes(crc_of(body) as nat, 4));
    assert(region.take(length as int) =~= body);
    assert(region[4] == RECORD_VERSION);
    assert(region[5] == record.kind.byte());
    assert(region.subrange(6, 14) =~= le_bytes(record.lsn.0 as nat, 8));
    assert(region.subrange(14, 22) =~= le_bytes(record.prev_lsn.0 as nat, 8));
    assert(region.subrange(22, 30) =~= le_bytes(record.txn.0 as nat, 8));
    assert(region.subrange(30, length as int) =~= record.payload);
}

/// A record that was encoded is framed whole by any region that holds it, and its own bytes alone are
/// looked at, whatever follows.
pub proof fn law_encoded_record_is_framed(
    record: RecordModel,
    rest: Seq<u8>,
    offset: u64,
    remaining: u64,
)
    requires
        record.payload.len() <= MAX_PAYLOAD_LEN,
        remaining >= record.encoded().len(),
    ensures
        reads_through(record.encoded() + rest, remaining),
        frame_within(record.encoded() + rest, offset, remaining) == (FramedModel::Whole {
            record,
            len: (FRAME_LEN + record.payload.len()) as nat,
        }),
{
    let bytes = record.encoded() + rest;
    law_encoded_record_reads_back(record, rest, offset);
    law_encoded_record_reads_back(record, Seq::empty(), offset);
    assert(record.encoded() + Seq::<u8>::empty() =~= record.encoded());
    let length = announced(bytes);
    assert(length + 4 == record.encoded().len());
    assert(bytes.take((length + 4) as int) =~= record.encoded());
}

/// A region that reads as a whole record starts with the bytes of that record.
pub proof fn law_whole_record_was_encoded(region: Seq<u8>, offset: u64)
    ensures
        frame_of(region, offset) matches FramedModel::Whole { record, len } ==> {
            &&& record.payload.len() <= MAX_PAYLOAD_LEN
            &&& len == record.encoded().len()
            &&& len <= region.len()
            &&& region.take(len as int) == record.encoded()
        },
{
    if let FramedModel::Whole { record, len } = frame_of(region, offset) {
        let length = announced(region);
        let body = region.take(length as int);
        lemma_byte_ranges();
        lemma_le_write_back(region.take(4));
        lemma_le_write_back(region.subrange(6, 14));
        lemma_le_write_back(region.subrange(14, 22));
        lemma_le_write_back(region.subrange(22, 30));
        lemma_le_write_back(region.subrange(length as int, len as int));
        assert(record.kind.byte() == region[5]);
        assert(record.body() =~= body);
        assert(record.encoded() =~= region.take(len as int));
    }
}

/// Bytes the payload of a [`WalRecordKind::Checkpoint`] record occupies: three `u64`.
pub const CHECKPOINT_PAYLOAD_LEN: usize = 24;

/// The payload of a [`WalRecordKind::Checkpoint`] record.
///
/// # Layout, little-endian
///
/// | Offset | Size | Field |
/// |---|---|---|
/// | 0 | 8 | `redo_lsn` |
/// | 8 | 8 | `next_page_id` |
/// | 16 | 8 | `next_row_id` |
///
/// `redo_lsn` is the number of the checkpoint record itself. It marks where the checkpoint
/// happened; it is not by itself the number a redo may start from: a transaction that began
/// before the record and committed after it has its row records behind `redo_lsn`.
#[derive(Debug, Clone, Copy, PartialEq, Eq, Structural)]
pub struct CheckpointPayload {
    /// Number of the checkpoint record itself.
    pub redo_lsn: Lsn,
    /// `next_page_id` of the control block when the record was written.
    pub next_page_id: PageId,
    /// `next_row_id` of the control block when the record was written.
    pub next_row_id: u64,
}

impl CheckpointPayload {
    /// The 24 bytes of the payload.
    pub open spec fn encoded(self) -> Seq<u8> {
        le_bytes(self.redo_lsn.0 as nat, 8) + le_bytes(self.next_page_id.0 as nat, 8) + le_bytes(
            self.next_row_id as nat,
            8,
        )
    }

    /// The 24 bytes of the payload, as the layout table describes them.
    pub fn encode(&self) -> (r: Vec<u8>)
        ensures
            r@ == self.encoded(),
            r@.len() == CHECKPOINT_PAYLOAD_LEN,
    {
        let mut bytes: Vec<u8> = Vec::with_capacity(CHECKPOINT_PAYLOAD_LEN);
        put_u64(&mut bytes, self.redo_lsn.0);
        put_u64(&mut bytes, self.next_page_id.0);
        put_u64(&mut bytes, self.next_row_id);
        proof {
            lemma_le_len(self.redo_lsn.0 as nat, 8);
            lemma_le_len(self.next_page_id.0 as nat, 8);
            lemma_le_len(self.next_row_id as nat, 8);
            assert(bytes@ =~= self.encoded());
        }
        bytes
    }

    /// Reads a payload back.
    ///
    /// # Errors
    ///
    /// A corruption naming the length that was read for a payload that is not
    /// [`CHECKPOINT_PAYLOAD_LEN`] bytes long.
    pub fn decode(bytes: &[u8]) -> (r: Result<Self, InternalError>)
        ensures
            match r {
                Ok(payload) => bytes@.len() == CHECKPOINT_PAYLOAD_LEN && payload.encoded()
                    == bytes@,
                Err(e) => bytes@.len() != CHECKPOINT_PAYLOAD_LEN && e == InternalError::Corruption(
                    Corruption::CheckpointLength(bytes@.len() as usize),
                ),
            },
    {
        if bytes.len() != CHECKPOINT_PAYLOAD_LEN {
            return Err(InternalError::Corruption(Corruption::CheckpointLength(bytes.len())));
        }
        let payload = CheckpointPayload {
            redo_lsn: Lsn(read_u64(bytes, 0)),
            next_page_id: PageId(read_u64(bytes, 8)),
            next_row_id: read_u64(bytes, 16),
        };
        proof {
            lemma_le_write_back(bytes@.subrange(0, 8));
            lemma_le_write_back(bytes@.subrange(8, 16));
            lemma_le_write_back(bytes@.subrange(16, 24));
            assert(payload.encoded() =~= bytes@);
        }
        Ok(payload)
    }
}

/// Two checkpoint payloads with the same bytes are the same: what is decoded from the bytes of a
/// payload is that payload.
pub proof fn law_checkpoint_payload_reads_back(a: CheckpointPayload, b: CheckpointPayload)
    requires
        a.encoded() == b.encoded(),
    ensures
        a == b,
{
    let s = a.encoded();
    lemma_byte_ranges();
    lemma_le_round_trip(a.redo_lsn.0 as nat, 8);
    lemma_le_round_trip(a.next_page_id.0 as nat, 8);
    lemma_le_round_trip(a.next_row_id as nat, 8);
    lemma_le_round_trip(b.redo_lsn.0 as nat, 8);
    lemma_le_round_trip(b.next_page_id.0 as nat, 8);
    lemma_le_round_trip(b.next_row_id as nat, 8);
    assert(s.subrange(0, 8) =~= le_bytes(a.redo_lsn.0 as nat, 8));
    assert(s.subrange(0, 8) =~= le_bytes(b.redo_lsn.0 as nat, 8));
    assert(s.subrange(8, 16) =~= le_bytes(a.next_page_id.0 as nat, 8));
    assert(s.subrange(8, 16) =~= le_bytes(b.next_page_id.0 as nat, 8));
    assert(s.subrange(16, 24) =~= le_bytes(a.next_row_id as nat, 8));
    assert(s.subrange(16, 24) =~= le_bytes(b.next_row_id as nat, 8));
}

/// Whether the region starts with a record whose checksum agrees, whether this build reads it or
/// not.
pub open spec fn sealed(bytes: Seq<u8>, at: int) -> bool {
    match frame_of(bytes.skip(at), at as u64) {
        FramedModel::Whole { .. } => true,
        FramedModel::Rejected(_) => true,
        _ => false,
    }
}

/// Whether `s` is the first offset after `at` where a record whose checksum agrees starts.
pub open spec fn first_sealed(bytes: Seq<u8>, at: int, s: int) -> bool {
    &&& at < s < bytes.len()
    &&& sealed(bytes, s)
    &&& forall|c: int| at < c < s ==> !#[trigger] sealed(bytes, c)
}

/// Whether the bytes at `offset` are a whole record that continues the chain after record number
/// `last`.
pub open spec fn continues(bytes: Seq<u8>, offset: int, last: u64) -> bool {
    &&& 0 <= offset < bytes.len()
    &&& frame_of(bytes.skip(offset), offset as u64) matches FramedModel::Whole { record, len }
    &&& record.lsn.0 == last + 1
    &&& record.prev_lsn.0 == last
}

/// The record at an offset where a whole record starts.
pub open spec fn record_at(bytes: Seq<u8>, offset: int) -> RecordModel {
    frame_of(bytes.skip(offset), offset as u64)->Whole_record
}

/// The size of the record at an offset where a whole record starts.
pub open spec fn len_at(bytes: Seq<u8>, offset: int) -> nat {
    frame_of(bytes.skip(offset), offset as u64)->Whole_len
}

/// The records read from `offset` on, each continuing the chain after record number `last`.
pub open spec fn records_from(bytes: Seq<u8>, offset: int, last: u64) -> Seq<RecordModel>
    decreases bytes.len() - offset,
{
    if continues(bytes, offset, last) && len_at(bytes, offset) > 0 {
        seq![record_at(bytes, offset)] + records_from(
            bytes,
            offset + len_at(bytes, offset),
            (last + 1) as u64,
        )
    } else {
        Seq::empty()
    }
}

/// Where the reading of the records from `offset` on stops.
pub open spec fn end_from(bytes: Seq<u8>, offset: int, last: u64) -> int
    decreases bytes.len() - offset,
{
    if continues(bytes, offset, last) && len_at(bytes, offset) > 0 {
        end_from(bytes, offset + len_at(bytes, offset), (last + 1) as u64)
    } else {
        offset
    }
}

/// The records a journal holds.
pub open spec fn journal_records(bytes: Seq<u8>) -> Seq<RecordModel> {
    records_from(bytes, 0, 0)
}

/// Where the records of a journal end.
pub open spec fn journal_end(bytes: Seq<u8>) -> int {
    end_from(bytes, 0, 0)
}

/// Whether what stops the reading of a journal is the tail of an append that did not finish:
/// nothing at all, or bytes that are no whole record with no agreeing checksum after them.
pub open spec fn tail_ok(bytes: Seq<u8>) -> bool {
    let end = journal_end(bytes);
    end == bytes.len() || (!sealed(bytes, end) && forall|s: int|
        end < s < bytes.len() ==> !#[trigger] sealed(bytes, s))
}

/// The error of a journal whose reading stops on something else.
pub open spec fn scan_error(bytes: Seq<u8>, e: InternalError) -> bool {
    let end = journal_end(bytes);
    let last = journal_records(bytes).len();
    match frame_of(bytes.skip(end), end as u64) {
        FramedModel::Whole { record, .. } => e == InternalError::Corruption(
            Corruption::BrokenChain {
                offset: end as u64,
                lsn: record.lsn,
                last: Lsn(last as u64),
                prev: record.prev_lsn,
            },
        ),
        FramedModel::Rejected(fault) => e == InternalError::Corruption(Corruption::Frame(fault)),
        FramedModel::Damaged(fault) | FramedModel::Torn(fault) | FramedModel::Unframed(fault) =>
            exists|s: int| #[trigger]
            first_sealed(bytes, end, s) && e == InternalError::Corruption(
                Corruption::Interior { at: end as u64, reason: fault, sealed: s as u64 },
            ),
    }
}

/// What a scan found at the end of a journal.
#[derive(Debug, Clone, Copy, PartialEq, Eq, Structural)]
pub struct Tail {
    /// Offset just past the last record that checks out, where the next append goes.
    pub end: u64,
    /// Number of that record, `Lsn(0)` when the journal holds none.
    pub last_lsn: Lsn,
    /// How many records the scan read.
    pub records: u64,
}

/// Reading a record moves forward by at least the frame of one and stays inside the bytes.
pub proof fn lemma_len_at(bytes: Seq<u8>, offset: int)
    requires
        0 <= offset <= bytes.len(),
        frame_of(bytes.skip(offset), offset as u64) is Whole,
    ensures
        len_at(bytes, offset) >= FRAME_LEN,
        offset + len_at(bytes, offset) <= bytes.len(),
{
    law_whole_record_was_encoded(bytes.skip(offset), offset as u64);
    law_encoded_record_reads_back(record_at(bytes, offset), Seq::empty(), 0);
}

/// Reads the records of a journal in order and reports where the good ones end.
///
/// # Errors
///
/// A corruption for a record that is whole but that this build will not read or that does not
/// continue the chain, and for a record that cannot be read while a record whose checksum agrees
/// starts after it.
pub fn scan(bytes: &[u8]) -> (r: Result<Tail, InternalError>)
    ensures
        match r {
            Ok(tail) => {
                &&& tail_ok(bytes@)
                &&& tail.end == journal_end(bytes@)
                &&& tail.records == journal_records(bytes@).len()
                &&& tail.last_lsn == Lsn(tail.records)
                &&& tail.end <= bytes@.len()
            },
            Err(e) => !tail_ok(bytes@) && scan_error(bytes@, e),
        },
{
    let size: usize = bytes.len();
    let mut offset: usize = 0;
    let mut last: u64 = 0;
    while offset < size
        invariant
            size == bytes@.len(),
            scanned_to(bytes@, offset as int, last),
        decreases size - offset,
    {
        let rest: &[u8] = vstd::slice::slice_subrange(bytes, offset, size);
        assert(rest@ =~= bytes@.skip(offset as int));
        assert(rest@.take((size - offset) as int) =~= rest@);
        let framed: Framed = frame(rest, offset as u64, (size - offset) as u64);
        let next: Option<u64> = match &framed {
            Framed::Whole { record, len } => if record.lsn.0 == last + 1 && record.prev_lsn.0
                == last {
                Some(*len)
            } else {
                None
            },
            _ => None,
        };
        match next {
            Some(len) => {
                proof {
                    lemma_scan_on(bytes@, offset as int, last);
                }
                last = last + 1;
                offset = offset + len as usize;
            },
            None => {
                return stop_at(bytes, offset, last, framed);
            },
        }
    }
    proof {
        lemma_scan_stops(bytes@, offset as int, last);
    }
    Ok(Tail { end: offset as u64, last_lsn: Lsn(last), records: last })
}

/// Whether a scan that has read `last` records is at `offset`.
spec fn scanned_to(bytes: Seq<u8>, offset: int, last: u64) -> bool {
    &&& 0 <= offset <= bytes.len()
    &&& last <= offset
    &&& end_from(bytes, offset, last) == journal_end(bytes)
    &&& journal_records(bytes).len() == last + records_from(bytes, offset, last).len()
}

/// A record that continues the chain is read.
proof fn lemma_scan_on(bytes: Seq<u8>, offset: int, last: u64)
    requires
        scanned_to(bytes, offset, last),
        continues(bytes, offset, last),
    ensures
        last < u64::MAX,
        offset + len_at(bytes, offset) <= bytes.len(),
        len_at(bytes, offset) > 0,
        scanned_to(bytes, offset + len_at(bytes, offset), (last + 1) as u64),
{
    lemma_len_at(bytes, offset);
}

/// Where no record continues the chain the journal ends.
proof fn lemma_scan_stops(bytes: Seq<u8>, offset: int, last: u64)
    requires
        scanned_to(bytes, offset, last),
        !continues(bytes, offset, last),
    ensures
        journal_end(bytes) == offset,
        journal_records(bytes).len() == last,
{
}

/// What a scan reports where no record continues the chain.
///
/// # Errors
///
/// Those of [`scan`].
fn stop_at(bytes: &[u8], offset: usize, last: u64, framed: Framed) -> (r: Result<
    Tail,
    InternalError,
>)
    requires
        offset < bytes@.len(),
        scanned_to(bytes@, offset as int, last),
        !continues(bytes@, offset as int, last),
        framed@ == frame_of(bytes@.skip(offset as int), offset as u64),
    ensures
        match r {
            Ok(tail) => {
                &&& tail_ok(bytes@)
                &&& tail.end == journal_end(bytes@)
                &&& tail.records == journal_records(bytes@).len()
                &&& tail.last_lsn == Lsn(tail.records)
                &&& tail.end <= bytes@.len()
            },
            Err(e) => !tail_ok(bytes@) && scan_error(bytes@, e),
        },
{
    proof {
        lemma_scan_stops(bytes@, offset as int, last);
    }
    match framed {
        Framed::Whole { record, len: _ } => {
            assert(sealed(bytes@, offset as int));
            Err(
                InternalError::Corruption(
                    Corruption::BrokenChain {
                        offset: offset as u64,
                        lsn: record.lsn,
                        last: Lsn(last),
                        prev: record.prev_lsn,
                    },
                ),
            )
        },
        Framed::Rejected { reason } => {
            assert(sealed(bytes@, offset as int));
            Err(InternalError::Corruption(Corruption::Frame(reason)))
        },
        Framed::Damaged { reason } | Framed::Torn { reason } | Framed::Unframed { reason } => {
            // None of the three leaves a boundary to resume on, so what follows is looked for
            // offset by offset.
            assert(!sealed(bytes@, offset as int));
            match sealed_record_after(bytes, offset) {
                Some(found) => {
                    assert(first_sealed(bytes@, offset as int, found as int));
                    Err(interior(offset as u64, reason, found as u64))
                },
                None => Ok(Tail { end: offset as u64, last_lsn: Lsn(last), records: last }),
            }
        },
    }
}

/// Offset of the first record whose checksum agrees that starts after `at`, if there is one.
///
/// Each offset from `at + 1` on is tried in turn. A record this build will not read counts: the
/// question is whether something was written whole behind `at`, not whether this build can use
/// it.
pub fn sealed_record_after(bytes: &[u8], at: usize) -> (r: Option<usize>)
    requires
        at < bytes@.len(),
    ensures
        match r {
            Some(s) => first_sealed(bytes@, at as int, s as int),
            None => forall|s: int| at < s < bytes@.len() ==> !#[trigger] sealed(bytes@, s),
        },
{
    let size: usize = bytes.len();
    let mut candidate: usize = at + 1;
    while candidate < size
        invariant
            size == bytes@.len(),
            at < candidate <= size,
            forall|c: int| at < c < candidate ==> !#[trigger] sealed(bytes@, c),
        decreases size - candidate,
    {
        let rest: &[u8] = vstd::slice::slice_subrange(bytes, candidate, size);
        assert(rest@ =~= bytes@.skip(candidate as int));
        assert(rest@.take((size - candidate) as int) =~= rest@);
        match frame(rest, candidate as u64, (size - candidate) as u64) {
            Framed::Whole { .. } | Framed::Rejected { .. } => {
                return Some(candidate);
            },
            Framed::Damaged { .. } | Framed::Torn { .. } | Framed::Unframed { .. } => {},
        }
        candidate = candidate + 1;
    }
    None
}

/// The error of a record at `at` that cannot be read while a record whose checksum agrees starts
/// at `sealed`.
fn interior(at: u64, reason: FrameFault, sealed: u64) -> (r: InternalError)
    ensures
        r == InternalError::Corruption(Corruption::Interior { at, reason, sealed }),
{
    InternalError::Corruption(Corruption::Interior { at, reason, sealed })
}

/// A whole record reads the same whatever follows it.
pub proof fn lemma_frame_stable(region: Seq<u8>, more: Seq<u8>, offset: u64)
    requires
        frame_of(region, offset) is Whole,
    ensures
        frame_of(region + more, offset) == frame_of(region, offset),
{
    let record = frame_of(region, offset)->Whole_record;
    let len = frame_of(region, offset)->Whole_len;
    law_whole_record_was_encoded(region, offset);
    let rest = region.skip(len as int) + more;
    assert(region + more =~= record.encoded() + rest);
    law_encoded_record_reads_back(record, rest, offset);
}

proof fn lemma_append_from(bytes: Seq<u8>, record: RecordModel, offset: int, last: u64)
    requires
        0 <= offset <= bytes.len(),
        last <= offset,
        end_from(bytes, offset, last) == bytes.len(),
        record.payload.len() <= MAX_PAYLOAD_LEN,
        record.lsn.0 == last + records_from(bytes, offset, last).len() + 1,
        record.prev_lsn.0 == last + records_from(bytes, offset, last).len(),
    ensures
        records_from(bytes + record.encoded(), offset, last) == records_from(
            bytes,
            offset,
            last,
        ).push(record),
        end_from(bytes + record.encoded(), offset, last) == (bytes + record.encoded()).len(),
    decreases bytes.len() - offset,
{
    let enc = record.encoded();
    let longer = bytes + enc;
    law_encoded_record_reads_back(record, Seq::empty(), 0);
    if continues(bytes, offset, last) {
        lemma_len_at(bytes, offset);
        let len = len_at(bytes, offset);
        lemma_frame_stable(bytes.skip(offset), enc, offset as u64);
        assert(longer.skip(offset) =~= bytes.skip(offset) + enc);
        assert(continues(longer, offset, last));
        assert(last + 1 <= offset + len);
        let tail = records_from(bytes, offset + len, (last + 1) as u64);
        assert(records_from(bytes, offset, last) =~= seq![record_at(bytes, offset)] + tail);
        lemma_append_from(bytes, record, offset + len, (last + 1) as u64);
        assert(seq![record_at(bytes, offset)] + tail.push(record) =~= (seq![
            record_at(bytes, offset),
        ] + tail).push(record));
    } else {
        assert(offset == bytes.len());
        assert(longer.skip(offset) =~= enc + Seq::<u8>::empty());
        law_encoded_record_reads_back(record, Seq::empty(), offset as u64);
        assert(continues(longer, offset, last));
        let len = len_at(longer, offset);
        assert(offset + len == longer.len());
        assert(!continues(longer, offset + len, (last + 1) as u64));
        assert(records_from(longer, offset + len, (last + 1) as u64) == Seq::<RecordModel>::empty());
        assert(end_from(longer, offset + len, (last + 1) as u64) == offset + len);
        assert(records_from(longer, offset, last) =~= Seq::empty().push(record));
        assert(records_from(bytes, offset, last) =~= Seq::empty());
    }
}

/// A journal that reads to its end, with one more record that continues its numbering, reads to
/// its end and holds that record after the ones it held.
pub proof fn law_appended_record_reads_back(bytes: Seq<u8>, record: RecordModel)
    requires
        journal_end(bytes) == bytes.len(),
        record.payload.len() <= MAX_PAYLOAD_LEN,
        record.lsn.0 == journal_records(bytes).len() + 1,
        record.prev_lsn.0 == journal_records(bytes).len(),
    ensures
        journal_records(bytes + record.encoded()) == journal_records(bytes).push(record),
        journal_end(bytes + record.encoded()) == (bytes + record.encoded()).len(),
        tail_ok(bytes + record.encoded()),
{
    lemma_append_from(bytes, record, 0, 0);
}

proof fn lemma_truncated_from(bytes: Seq<u8>, offset: int, last: u64)
    requires
        0 <= offset <= bytes.len(),
        last <= offset,
    ensures
        offset <= end_from(bytes, offset, last) <= bytes.len(),
        records_from(bytes, offset, last).len() <= end_from(bytes, offset, last) - offset,
        records_from(bytes.take(end_from(bytes, offset, last)), offset, last) == records_from(
            bytes,
            offset,
            last,
        ),
        end_from(bytes.take(end_from(bytes, offset, last)), offset, last) == end_from(
            bytes,
            offset,
            last,
        ),
    decreases bytes.len() - offset,
{
    let end = end_from(bytes, offset, last);
    if continues(bytes, offset, last) {
        lemma_len_at(bytes, offset);
        let len = len_at(bytes, offset);
        lemma_truncated_from(bytes, offset + len, (last + 1) as u64);
        let cut = bytes.take(end);
        let record = record_at(bytes, offset);
        law_whole_record_was_encoded(bytes.skip(offset), offset as u64);
        let rest = cut.skip(offset + len);
        assert(cut.skip(offset) =~= record.encoded() + rest) by {
            assert(bytes.skip(offset).take(len as int) =~= record.encoded());
        }
        law_encoded_record_reads_back(record, rest, offset as u64);
        assert(continues(cut, offset, last));
    } else {
        let cut = bytes.take(end);
        assert(!continues(cut, offset, last));
    }
}

/// Dropping the tail of a journal keeps its records: what is left reads to its end.
pub proof fn law_truncation_keeps_the_records(bytes: Seq<u8>)
    ensures
        0 <= journal_end(bytes) <= bytes.len(),
        journal_records(bytes).len() <= journal_end(bytes),
        journal_records(bytes.take(journal_end(bytes))) == journal_records(bytes),
        journal_end(bytes.take(journal_end(bytes))) == journal_end(bytes),
{
    lemma_truncated_from(bytes, 0, 0);
}

/// The journal of an instance: its bytes, the number of the last record and the number of the
/// last record made durable.
///
/// A record is written at the end and is not rewritten afterwards. Dropping a `Wal` does not
/// flush it.
#[derive(Debug)]
pub struct Wal {
    /// The bytes of the journal.
    pub bytes: Vec<u8>,
    /// Number of the last record, `Lsn(0)` when the journal holds none.
    pub last_lsn: Lsn,
    /// Number of the last record a flush covered, `Lsn(0)` when none.
    pub durable_lsn: Lsn,
}

impl Wal {
    /// The records the journal holds.
    pub open spec fn log(&self) -> Seq<RecordModel> {
        journal_records(self.bytes@)
    }

    /// Whether the journal is consistent: its bytes read to their end, the numbers are those of
    /// its records.
    pub open spec fn wf(&self) -> bool {
        &&& journal_end(self.bytes@) == self.bytes@.len()
        &&& self.last_lsn.0 == self.log().len()
        &&& self.durable_lsn.0 <= self.last_lsn.0
    }

    /// The record an append of `payload` writes.
    pub open spec fn next_record(&self, kind: WalRecordKind, txn: TxnId, payload: Seq<u8>) -> RecordModel {
        RecordModel {
            kind,
            lsn: Lsn((self.last_lsn.0 + 1) as u64),
            prev_lsn: self.last_lsn,
            txn,
            payload,
        }
    }

    /// Whether an append of a payload of `len` bytes is refused.
    pub open spec fn append_refused(&self, len: nat) -> bool {
        len > MAX_PAYLOAD_LEN || self.last_lsn.0 == u64::MAX
    }

    /// The error of an append that is refused.
    pub open spec fn append_error(&self, kind: WalRecordKind, len: nat, e: InternalError) -> bool {
        if len > MAX_PAYLOAD_LEN {
            e == InternalError::Bug(Bug::PayloadTooLong { kind, bytes: len as usize })
        } else {
            e == InternalError::Bug(Bug::LsnsExhausted)
        }
    }

    /// Whether `after` is this journal with one more record.
    pub open spec fn appended(&self, after: &Wal, record: RecordModel) -> bool {
        &&& after.wf()
        &&& after.bytes@ == self.bytes@ + record.encoded()
        &&& after.log() == self.log().push(record)
        &&& after.last_lsn == record.lsn
    }

    /// Opens the journal whose bytes are `bytes`: the records are read in order, their
    /// checksum, version, kind and numbering checked. A tail that an unfinished append left
    /// behind is dropped.
    ///
    /// # Errors
    ///
    /// A corruption for a record that is whole but that this build will not read or that does
    /// not continue the chain, and for a record that cannot be read while a record whose
    /// checksum agrees starts after it.
    pub fn open(bytes: Vec<u8>) -> (r: Result<Self, InternalError>)
        ensures
            match r {
                Ok(wal) => {
                    &&& tail_ok(bytes@)
                    &&& wal.wf()
                    &&& wal.bytes@ == bytes@.take(journal_end(bytes@))
                    &&& wal.log() == journal_records(bytes@)
                    &&& wal.durable_lsn == wal.last_lsn
                },
                Err(e) => !tail_ok(bytes@) && scan_error(bytes@, e),
            },
    {
        let tail: Tail = match scan(bytes.as_slice()) {
            Ok(tail) => tail,
            Err(e) => {
                return Err(e);
            },
        };
        proof {
            law_truncation_keeps_the_records(bytes@);
        }
        let mut kept: Vec<u8> = bytes;
        kept.truncate(tail.end as usize);
        assert(kept@ =~= bytes@.take(journal_end(bytes@)));
        Ok(Wal { bytes: kept, last_lsn: tail.last_lsn, durable_lsn: tail.last_lsn })
    }

    /// Offset where the next record goes: the end of the last record.
    pub fn append_offset(&self) -> (r: usize)
        ensures
            r == self.bytes@.len(),
    {
        self.bytes.len()
    }

    /// Number of the last record, `Lsn(0)` when the journal holds none.
    pub fn last_lsn(&self) -> (r: Lsn)
        ensures
            r == self.last_lsn,
    {
        self.last_lsn
    }

    /// Number of the last record a flush covered, `Lsn(0)` when none.
    pub fn durable_lsn(&self) -> (r: Lsn)
        ensures
            r == self.durable_lsn,
    {
        self.durable_lsn
    }

    /// How many records the journal holds.
    pub fn records(&self) -> (r: u64)
        requires
            self.wf(),
        ensures
            r == self.log().len(),
    {
        self.last_lsn.0
    }

    /// Appends a record of kind `kind` for the transaction `txn` and returns its number.
    ///
    /// `txn` is `TxnId(0)` for a record that belongs to no transaction. The record is not
    /// durable until [`Wal::flush`].
    ///
    /// # Errors
    ///
    /// A bug for a payload longer than [`MAX_PAYLOAD_LEN`] and when the numbers are exhausted;
    /// nothing is written then.
    pub fn append(&mut self, kind: WalRecordKind, txn: TxnId, payload: &[u8]) -> (r: Result<
        Lsn,
        InternalError,
    >)
        requires
            old(self).wf(),
        ensures
            final(self).wf(),
            match r {
                Ok(lsn) => {
                    let record = old(self).next_record(kind, txn, payload@);
                    &&& !old(self).append_refused(payload@.len())
                    &&& lsn == record.lsn
                    &&& old(self).appended(final(self), record)
                    &&& final(self).durable_lsn == old(self).durable_lsn
                },
                Err(e) => {
                    &&& old(self).append_refused(payload@.len())
                    &&& old(self).append_error(kind, payload@.len(), e)
                    &&& *final(self) == *old(self)
                },
            },
    {
        if payload.len() > MAX_PAYLOAD_LEN {
            return Err(InternalError::Bug(Bug::PayloadTooLong { kind, bytes: payload.len() }));
        }
        let lsn: Lsn = match self.last_lsn.0.checked_add(1) {
            Some(next) => Lsn(next),
            None => {
                return Err(InternalError::Bug(Bug::LsnsExhausted));
            },
        };
        let mut copy: Vec<u8> = Vec::with_capacity(payload.len());
        put_bytes(&mut copy, payload);
        assert(copy@ =~= payload@);
        let record = WalRecord { kind, lsn, prev_lsn: self.last_lsn, txn, payload: copy };
        let encoded: Vec<u8> = record.encode();
        proof {
            law_appended_record_reads_back(self.bytes@, record@);
        }
        put_bytes(&mut self.bytes, encoded.as_slice());
        self.last_lsn = lsn;
        Ok(lsn)
    }

    /// Appends a [`WalRecordKind::Checkpoint`] record whose payload names the number of that
    /// very record, along with the two counters, and answers the number.
    ///
    /// # Errors
    ///
    /// A bug when the numbers are exhausted.
    pub fn append_checkpoint(&mut self, next_page_id: PageId, next_row_id: u64) -> (r: Result<
        Lsn,
        InternalError,
    >)
        requires
            old(self).wf(),
        ensures
            final(self).wf(),
            match r {
                Ok(lsn) => {
                    let payload = CheckpointPayload { redo_lsn: lsn, next_page_id, next_row_id };
                    let record = old(self).next_record(
                        WalRecordKind::Checkpoint,
                        TxnId(0),
                        payload.encoded(),
                    );
                    &&& lsn == record.lsn
                    &&& old(self).last_lsn.0 < u64::MAX
                    &&& old(self).appended(final(self), record)
                    &&& final(self).durable_lsn == old(self).durable_lsn
                },
                Err(e) => {
                    &&& old(self).last_lsn.0 == u64::MAX
                    &&& e == InternalError::Bug(Bug::LsnsExhausted)
                    &&& *final(self) == *old(self)
                },
            },
    {
        // A journal at the last number is refused by `append` below.
        let expected: Lsn = match self.last_lsn.0.checked_add(1) {
            Some(next) => Lsn(next),
            None => self.last_lsn,
        };
        let payload = CheckpointPayload { redo_lsn: expected, next_page_id, next_row_id };
        let bytes: Vec<u8> = payload.encode();
        self.append(WalRecordKind::Checkpoint, TxnId(0), bytes.as_slice())
    }

    /// Notes that the records written so far are durable: [`Wal::durable_lsn`] moves to the last
    /// of them.
    pub fn flush(&mut self)
        requires
            old(self).wf(),
        ensures
            final(self).wf(),
            final(self).bytes@ == old(self).bytes@,
            final(self).last_lsn == old(self).last_lsn,
            final(self).durable_lsn == old(self).last_lsn,
    {
        self.durable_lsn = self.last_lsn;
    }

    /// Appends a record and flushes the journal before returning its number.
    ///
    /// # Errors
    ///
    /// Those of [`Wal::append`].
    pub fn append_durable(&mut self, kind: WalRecordKind, txn: TxnId, payload: &[u8]) -> (r: Result<
        Lsn,
        InternalError,
    >)
        requires
            old(self).wf(),
        ensures
            final(self).wf(),
            match r {
                Ok(lsn) => {
                    let record = old(self).next_record(kind, txn, payload@);
                    &&& !old(self).append_refused(payload@.len())
                    &&& lsn == record.lsn
                    &&& old(self).appended(final(self), record)
                    &&& final(self).durable_lsn == lsn
                },
                Err(e) => {
                    &&& old(self).append_refused(payload@.len())
                    &&& old(self).append_error(kind, payload@.len(), e)
                    &&& *final(self) == *old(self)
                },
            },
    {
        match self.append(kind, txn, payload) {
            Ok(lsn) => {
                self.flush();
                Ok(lsn)
            },
            Err(e) => Err(e),
        }
    }

    /// The records of the journal in the order they were appended, which is the order of their
    /// numbers.
    pub fn iter(&self) -> (r: Vec<WalRecord>)
        requires
            self.wf(),
        ensures
            r.deep_view() == self.log(),
    {
        let ghost s = self.bytes@;
        let size: usize = self.bytes.len();
        let bytes: &[u8] = self.bytes.as_slice();
        let mut out: Vec<WalRecord> = Vec::new();
        let mut offset: usize = 0;
        let ghost mut last: u64 = 0;
        assert(out.deep_view() + records_from(s, 0, 0) =~= journal_records(s));
        while offset < size
            invariant
                s == self.bytes@,
                bytes@ == s,
                size == s.len(),
                offset <= size,
                last <= offset,
                end_from(s, offset as int, last) == size,
                out.deep_view() + records_from(s, offset as int, last) == journal_records(s),
            decreases size - offset,
        {
            let rest: &[u8] = vstd::slice::slice_subrange(bytes, offset, size);
            assert(rest@ =~= s.skip(offset as int));
            assert(rest@.take((size - offset) as int) =~= rest@);
            assert(continues(s, offset as int, last));
            proof {
                lemma_len_at(s, offset as int);
            }
            match frame(rest, offset as u64, (size - offset) as u64) {
                Framed::Whole { record, len } => {
                    let ghost before = out.deep_view();
                    let ghost one = seq![record@];
                    let ghost more = records_from(s, offset + len, (last + 1) as u64);
                    out.push(record);
                    offset = offset + len as usize;
                    proof {
                        assert(before + (one + more) =~= (before + one) + more);
                        assert(out.deep_view() =~= before + one);
                        last = (last + 1) as u64;
                    }
                },
                _ => {
                    assert(false);
                    offset = size;
                },
            }
        }
        assert(!continues(s, offset as int, last));
        assert(out.deep_view() + Seq::<RecordModel>::empty() =~= out.deep_view());
        out
    }
}

} // verus!
