//! Payload of the row records of the journal: what `Insert`, `Update` and `Delete` records carry
//! after the fixed fields [`super::wal`] writes.
//!
//! A record of the journal is logical: it names the table, the logical row and the version the
//! write produced, not the place it landed on.
//!
//! # Layout, little-endian
//!
//! | Offset | Size | Field |
//! |---|---|---|
//! | 0 | 4 | `table` |
//! | 4 | 32 | the prefix of the version, as [`VersionHeader`] writes it |
//! | 36 | rest | the columns; empty in a `Delete` |
//!
//! # What each kind carries
//!
//! | Kind | `xmin` | `xmax` | `seq` | Columns |
//! |---|---|---|---|---|
//! | `Insert` | the writing transaction | unset | the version created | the row inserted |
//! | `Update` | the writing transaction | unset | the version created | the new content of the row |
//! | `Delete` | the transaction that created the version being hidden | the writing transaction | the version hidden | empty |

use vstd::prelude::*;

use super::bytes::{
    le_bytes, le_value, lemma_byte_ranges, lemma_le_round_trip, put_bytes, put_u32, read_u32,
};
use super::version::{header_of, law_prefix_reads_back, VersionHeader};
use crate::error::{Corruption, InternalError};
use crate::ids::TableId;

verus! {

/// Offset of the version prefix in the payload: after the four bytes of the table.
pub const OFF_HEADER: usize = 4;

/// Bytes a payload carries before its columns.
pub const PREFIX_LEN: usize = 36;

/// The payload of an `Insert`, `Update` or `Delete` record.
#[derive(Debug, Clone, PartialEq, Eq)]
pub struct RowChange {
    /// The table the row belongs to.
    pub table: TableId,
    /// The version the write produced, as its prefix carries it on the heap.
    pub header: VersionHeader,
    /// The columns of that version; empty for a `Delete`.
    pub columns: Vec<u8>,
}

/// What a [`RowChange`] stands for.
#[verifier::ext_equal]
pub struct ChangeModel {
    /// The table the row belongs to.
    pub table: TableId,
    /// The version the write produced.
    pub header: VersionHeader,
    /// The columns of that version.
    pub columns: Seq<u8>,
}

impl View for RowChange {
    type V = ChangeModel;

    open spec fn view(&self) -> ChangeModel {
        ChangeModel { table: self.table, header: self.header, columns: self.columns@ }
    }
}

impl ChangeModel {
    /// The bytes of the payload.
    pub open spec fn encoded(self) -> Seq<u8> {
        le_bytes(self.table.0 as nat, 4) + self.header.encoded() + self.columns
    }
}

/// The change the bytes of a payload stand for.
pub open spec fn change_of(s: Seq<u8>) -> ChangeModel {
    ChangeModel {
        table: TableId(le_value(s.take(4)) as u32),
        header: header_of(s.skip(4)),
        columns: s.skip(36),
    }
}

impl RowChange {
    /// The bytes of the payload, as the layout table of the module describes them.
    pub fn encode(&self) -> (r: Vec<u8>)
        ensures
            r@ == self@.encoded(),
    {
        let mut bytes: Vec<u8> = Vec::with_capacity(PREFIX_LEN);
        put_u32(&mut bytes, self.table.0);
        self.header.write_to(&mut bytes);
        put_bytes(&mut bytes, self.columns.as_slice());
        assert(bytes@ =~= self@.encoded());
        bytes
    }

    /// Reads a payload back.
    ///
    /// # Errors
    ///
    /// A corruption for fewer than the [`PREFIX_LEN`] bytes of the fixed part.
    pub fn decode(bytes: &[u8]) -> (r: Result<Self, InternalError>)
        ensures
            match r {
                Ok(change) => bytes@.len() >= PREFIX_LEN && change@ == change_of(bytes@),
                Err(e) => bytes@.len() < PREFIX_LEN && e == InternalError::Corruption(
                    Corruption::ShortChange { bytes: bytes@.len() as usize },
                ),
            },
    {
        let size: usize = bytes.len();
        if size < PREFIX_LEN {
            return Err(InternalError::Corruption(Corruption::ShortChange { bytes: size }));
        }
        assert(bytes@.take(4) =~= bytes@.subrange(0, 4));
        let table: TableId = TableId(read_u32(bytes, 0));
        let prefix: &[u8] = vstd::slice::slice_subrange(bytes, OFF_HEADER, PREFIX_LEN);
        let header: VersionHeader = match VersionHeader::read_from(prefix) {
            Ok(header) => header,
            Err(e) => {
                return Err(e);
            },
        };
        let mut columns: Vec<u8> = Vec::new();
        put_bytes(&mut columns, vstd::slice::slice_subrange(bytes, PREFIX_LEN, size));
        proof {
            let s = bytes@.skip(4);
            assert(prefix@.subrange(0, 8) =~= s.subrange(0, 8));
            assert(prefix@.subrange(8, 16) =~= s.subrange(8, 16));
            assert(prefix@.subrange(16, 24) =~= s.subrange(16, 24));
            assert(prefix@.subrange(24, 32) =~= s.subrange(24, 32));
            assert(columns@ =~= bytes@.skip(36));
        }
        Ok(RowChange { table, header, columns })
    }
}

/// A row change reads back from its bytes.
pub proof fn law_row_change_reads_back(change: ChangeModel)
    requires
        change.header.storable(),
    ensures
        change.encoded().len() == PREFIX_LEN + change.columns.len(),
        change_of(change.encoded()) == change,
{
    let s = change.encoded();
    lemma_byte_ranges();
    lemma_le_round_trip(change.table.0 as nat, 4);
    law_prefix_reads_back(change.header, change.columns);
    assert(s.take(4) =~= le_bytes(change.table.0 as nat, 4));
    assert(s.skip(4) =~= change.header.encoded() + change.columns);
    assert(s.skip(36) =~= change.columns);
}

} // verus!
