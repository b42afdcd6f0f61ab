//! The control block: the counters of an instance, in 128 bytes.
//!
//! | Offset | Size | Field |
//! |---|---|---|
//! | 0 | 8 | the magic `VAUBANDB` |
//! | 8 | 4 | format version, [`CONTROL_VERSION`] |
//! | 12 | 4 | zero |
//! | 16 | 8 | `next_page_id` |
//! | 24 | 8 | `next_db_id` |
//! | 32 | 8 | `next_table_id` |
//! | 40 | 8 | `next_index_id` |
//! | 48 | 8 | `next_row_id` |
//! | 56 | 8 | `latest_checkpoint_lsn` |
//! | 64 | 8 | `durable_lsn` |
//! | 72 | 52 | zero |
//! | 124 | 4 | CRC-32 of the bytes before it |
//!
//! Integers are little-endian. The checks come in this order: the size, the magic, the version,
//! the checksum.

use vstd::prelude::*;

use super::bytes::{
    le_bytes, le_value, lemma_byte_ranges, lemma_le_len, lemma_le_round_trip, put_bytes, put_u32,
    put_u64, read_u32, read_u64,
};
use super::crc::{crc32, crc_of};
use super::page::{Lsn, PageId};
use crate::error::{Corruption, InternalError};

verus! {

/// Size of a control block.
pub const CONTROL_LEN: usize = 128;

/// Format version written and read by this build.
pub const CONTROL_VERSION: u32 = 2;

/// Bytes the checksum covers.
pub const CONTROL_BODY_LEN: usize = 124;

/// The counters of an instance, kept over a close.
#[derive(Debug, Clone, Copy, PartialEq, Eq, Structural)]
pub struct Control {
    /// The next page to hand out.
    pub next_page_id: PageId,
    /// The next database to hand out.
    pub next_db_id: u64,
    /// The next table to hand out.
    pub next_table_id: u64,
    /// The next index to hand out.
    pub next_index_id: u64,
    /// The next row to hand out.
    pub next_row_id: u64,
    /// The number of the last checkpoint record.
    pub latest_checkpoint_lsn: Lsn,
    /// The number of the last record known to be durable at a checkpoint.
    pub durable_lsn: Lsn,
}

impl Default for Control {
    /// The counters of a fresh instance.
    fn default() -> (r: Self)
        ensures
            r == (Control {
                next_page_id: PageId(0),
                next_db_id: 1,
                next_table_id: 1,
                next_index_id: 1,
                next_row_id: 1,
                latest_checkpoint_lsn: Lsn(0),
                durable_lsn: Lsn(0),
            }),
    {
        Control {
            next_page_id: PageId(0),
            next_db_id: 1,
            next_table_id: 1,
            next_index_id: 1,
            next_row_id: 1,
            latest_checkpoint_lsn: Lsn(0),
            durable_lsn: Lsn(0),
        }
    }
}

/// The magic at the start of a control block.
pub open spec fn control_magic() -> Seq<u8> {
    seq![0x56u8, 0x41u8, 0x55u8, 0x42u8, 0x41u8, 0x4Eu8, 0x44u8, 0x42u8]
}

/// The integer of `n` bytes at `at`.
pub open spec fn field(bytes: Seq<u8>, at: int, n: int) -> nat {
    le_value(bytes.subrange(at, at + n))
}

/// Whether the bytes are a control block this build reads.
pub open spec fn control_ok(bytes: Seq<u8>) -> bool {
    &&& bytes.len() == CONTROL_LEN
    &&& bytes.take(8) == control_magic()
    &&& field(bytes, 8, 4) == CONTROL_VERSION
    &&& field(bytes, 124, 4) == crc_of(bytes.take(124))
}

/// The error of bytes that are no control block this build reads.
pub open spec fn control_error(bytes: Seq<u8>, e: InternalError) -> bool {
    e == InternalError::Corruption(
        if bytes.len() != CONTROL_LEN {
            Corruption::ControlLength(bytes.len() as usize)
        } else if bytes.take(8) != control_magic() {
            Corruption::ControlMagic
        } else if field(bytes, 8, 4) != CONTROL_VERSION {
            Corruption::ControlVersion(field(bytes, 8, 4) as u32)
        } else {
            Corruption::ControlChecksum {
                stored: field(bytes, 124, 4) as u32,
                computed: crc_of(bytes.take(124)),
            }
        },
    )
}

/// The counters the bytes of a control block carry.
pub open spec fn control_of(bytes: Seq<u8>) -> Control {
    Control {
        next_page_id: PageId(field(bytes, 16, 8) as u64),
        next_db_id: field(bytes, 24, 8) as u64,
        next_table_id: field(bytes, 32, 8) as u64,
        next_index_id: field(bytes, 40, 8) as u64,
        next_row_id: field(bytes, 48, 8) as u64,
        latest_checkpoint_lsn: Lsn(field(bytes, 56, 8) as u64),
        durable_lsn: Lsn(field(bytes, 64, 8) as u64),
    }
}

impl Control {
    /// The bytes the checksum covers.
    pub open spec fn body(self) -> Seq<u8> {
        control_magic() + le_bytes(CONTROL_VERSION as nat, 4) + le_bytes(0, 4) + le_bytes(
            self.next_page_id.0 as nat,
            8,
        ) + le_bytes(self.next_db_id as nat, 8) + le_bytes(self.next_table_id as nat, 8) + le_bytes(
            self.next_index_id as nat,
            8,
        ) + le_bytes(self.next_row_id as nat, 8) + le_bytes(self.latest_checkpoint_lsn.0 as nat, 8)
            + le_bytes(self.durable_lsn.0 as nat, 8) + Seq::new(52, |i: int| 0u8)
    }

    /// The bytes of the block.
    pub open spec fn encoded(self) -> Seq<u8> {
        self.body() + le_bytes(crc_of(self.body()) as nat, 4)
    }

    /// The 128 bytes of the block, as the layout table describes them.
    pub fn to_bytes(&self) -> (r: Vec<u8>)
        ensures
            r@ == self.encoded(),
            r@.len() == CONTROL_LEN,
    {
        let mut bytes: Vec<u8> = Vec::with_capacity(CONTROL_LEN);
        let magic: [u8; 8] = [0x56, 0x41, 0x55, 0x42, 0x41, 0x4E, 0x44, 0x42];
        put_bytes(&mut bytes, magic.as_slice());
        assert(bytes@ =~= control_magic());
        put_u32(&mut bytes, CONTROL_VERSION);
        put_u32(&mut bytes, 0);
        put_u64(&mut bytes, self.next_page_id.0);
        put_u64(&mut bytes, self.next_db_id);
        put_u64(&mut bytes, self.next_table_id);
        put_u64(&mut bytes, self.next_index_id);
        put_u64(&mut bytes, self.next_row_id);
        put_u64(&mut bytes, self.latest_checkpoint_lsn.0);
        put_u64(&mut bytes, self.durable_lsn.0);
        let rest: [u8; 52] = [0u8; 52];
        put_bytes(&mut bytes, rest.as_slice());
        proof {
            assert(rest@ =~= Seq::new(52, |i: int| 0u8));
            assert(bytes@ =~= self.body());
            lemma_body_len(*self);
            lemma_le_len(crc_of(self.body()) as nat, 4);
        }
        let checksum: u32 = crc32(bytes.as_slice());
        put_u32(&mut bytes, checksum);
        bytes
    }

    /// Reads a control block back.
    ///
    /// # Errors
    ///
    /// A corruption for the first of the checks that fails.
    pub fn from_bytes(bytes: &[u8]) -> (r: Result<Self, InternalError>)
        ensures
            match r {
                Ok(control) => control_ok(bytes@) && control == control_of(bytes@),
                Err(e) => !control_ok(bytes@) && control_error(bytes@, e),
            },
    {
        if bytes.len() != CONTROL_LEN {
            return Err(InternalError::Corruption(Corruption::ControlLength(bytes.len())));
        }
        let magic: [u8; 8] = [0x56, 0x41, 0x55, 0x42, 0x41, 0x4E, 0x44, 0x42];
        for i in 0..8usize
            invariant
                bytes@.len() == CONTROL_LEN,
                magic@ =~= control_magic(),
                forall|k: int| 0 <= k < i ==> bytes@[k] == #[trigger] magic@[k],
        {
            if bytes[i] != magic[i] {
                assert(bytes@.take(8)[i as int] != control_magic()[i as int]);
                return Err(InternalError::Corruption(Corruption::ControlMagic));
            }
        }
        assert(bytes@.take(8) =~= control_magic()) by {
            assert forall|k: int| 0 <= k < 8 implies bytes@.take(8)[k] == control_magic()[k] by {
                assert(magic@[k] == control_magic()[k]);
            }
        }
        let version: u32 = read_u32(bytes, 8);
        if version != CONTROL_VERSION {
            return Err(InternalError::Corruption(Corruption::ControlVersion(version)));
        }
        let stored: u32 = read_u32(bytes, CONTROL_BODY_LEN);
        let body: &[u8] = vstd::slice::slice_subrange(bytes, 0, CONTROL_BODY_LEN);
        assert(body@ =~= bytes@.take(124));
        let computed: u32 = crc32(body);
        if stored != computed {
            return Err(
                InternalError::Corruption(Corruption::ControlChecksum { stored, computed }),
            );
        }
        Ok(
            Control {
                next_page_id: PageId(read_u64(bytes, 16)),
                next_db_id: read_u64(bytes, 24),
                next_table_id: read_u64(bytes, 32),
                next_index_id: read_u64(bytes, 40),
                next_row_id: read_u64(bytes, 48),
                latest_checkpoint_lsn: Lsn(read_u64(bytes, 56)),
                durable_lsn: Lsn(read_u64(bytes, 64)),
            },
        )
    }
}

proof fn lemma_body_len(c: Control)
    ensures
        c.body().len() == CONTROL_BODY_LEN,
{
    lemma_le_len(CONTROL_VERSION as nat, 4);
    lemma_le_len(0, 4);
    lemma_le_len(c.next_page_id.0 as nat, 8);
    lemma_le_len(c.next_db_id as nat, 8);
    lemma_le_len(c.next_table_id as nat, 8);
    lemma_le_len(c.next_index_id as nat, 8);
    lemma_le_len(c.next_row_id as nat, 8);
    lemma_le_len(c.latest_checkpoint_lsn.0 as nat, 8);
    lemma_le_len(c.durable_lsn.0 as nat, 8);
}

/// What is read from the bytes of a control block is that block.
pub proof fn law_control_block_reads_back(c: Control)
    ensures
        control_ok(c.encoded()),
        control_of(c.encoded()) == c,
{
    let s = c.encoded();
    let crc = crc_of(c.body());
    lemma_body_len(c);
    lemma_byte_ranges();
    lemma_le_round_trip(CONTROL_VERSION as nat, 4);
    lemma_le_round_trip(0, 4);
    lemma_le_round_trip(c.next_page_id.0 as nat, 8);
    lemma_le_round_trip(c.next_db_id as nat, 8);
    lemma_le_round_trip(c.next_table_id as nat, 8);
    lemma_le_round_trip(c.next_index_id as nat, 8);
    lemma_le_round_trip(c.next_row_id as nat, 8);
    lemma_le_round_trip(c.latest_checkpoint_lsn.0 as nat, 8);
    lemma_le_round_trip(c.durable_lsn.0 as nat, 8);
    lemma_le_round_trip(crc as nat, 4);
    assert(s.take(8) =~= control_magic());
    assert(s.take(124) =~= c.body());
    assert(s.subrange(8, 12) =~= le_bytes(CONTROL_VERSION as nat, 4));
    assert(s.subrange(16, 24) =~= le_bytes(c.next_page_id.0 as nat, 8));
    assert(s.subrange(24, 32) =~= le_bytes(c.next_db_id as nat, 8));
    assert(s.subrange(32, 40) =~= le_bytes(c.next_table_id as nat, 8));
    assert(s.subrange(40, 48) =~= le_bytes(c.next_index_id as nat, 8));
    assert(s.subrange(48, 56) =~= le_bytes(c.next_row_id as nat, 8));
    assert(s.subrange(56, 64) =~= le_bytes(c.latest_checkpoint_lsn.0 as nat, 8));
    assert(s.subrange(64, 72) =~= le_bytes(c.durable_lsn.0 as nat, 8));
    assert(s.subrange(124, 128) =~= le_bytes(crc as nat, 4));
}

} // verus!
