//! Row versions as heap records: the prefix that carries the `(xmin, xmax)` of a version and its
//! place in the chain of its row.
//!
//! # Layout of a version
//!
//! A record is [`VERSION_PREFIX_LEN`] bytes of prefix followed by the columns as
//! [`super::encode::encode_row`] writes them. The prefix is four little-endian `u64`:
//!
//! | Offset | Field | Meaning |
//! |---|---|---|
//! | 0 | `row` | the row this version belongs to, one value for the whole chain of a row |
//! | 8 | `xmin` | the transaction that created the version |
//! | 16 | `xmax` | the transaction that replaced or deleted it, [`NO_XMAX`] while it is current |
//! | 24 | `seq` | serial number of the version in the table, not handed out twice |
//!
//! `seq` is what orders the chain: a heap record may move, so the address of a version says
//! nothing about its age.

use vstd::prelude::*;

use super::bytes::{
    le_bytes, le_value, lemma_byte_ranges, lemma_le_len, lemma_le_round_trip, lemma_le_write_back,
    put_bytes, put_u64, read_u64,
};
use super::encode::{encode_row, parse_row, row_bytes};
use super::page::splice;
use crate::error::{Bug, Corruption, InternalError};
use crate::ids::{RowId, TxnId};
use crate::row::Row;
use crate::value::ValueModel;

verus! {

/// Number of bytes a version carries before its columns: `row`, `xmin`, `xmax`, `seq`.
pub const VERSION_PREFIX_LEN: usize = 32;

/// Value written in the `xmax` field of a version no transaction has replaced or deleted.
///
/// `TxnId(u64::MAX)` is refused as a writer so that the sentinel stays free.
pub const NO_XMAX: u64 = 0xFFFF_FFFF_FFFF_FFFF;

/// Offset of the `xmax` field in the prefix of a version.
pub const OFF_XMAX: usize = 16;

/// The prefix of one version, as it stands in its heap record.
#[derive(Debug, Clone, Copy, PartialEq, Eq, Structural)]
pub struct VersionHeader {
    /// The logical row this version belongs to.
    pub row: RowId,
    /// The transaction that created this version.
    pub xmin: TxnId,
    /// The transaction that replaced or deleted it, `None` while it is current.
    pub xmax: Option<TxnId>,
    /// Serial number of the version within its table, unique and not handed out twice.
    pub seq: u64,
}

/// The number written in the `xmax` field.
pub open spec fn xmax_field(xmax: Option<TxnId>) -> u64 {
    match xmax {
        Some(x) => x.0,
        None => NO_XMAX,
    }
}

/// The `xmax` a number of the field stands for.
pub open spec fn xmax_of(field: u64) -> Option<TxnId> {
    if field == NO_XMAX {
        None
    } else {
        Some(TxnId(field))
    }
}

impl VersionHeader {
    /// The 32 bytes of the prefix.
    pub open spec fn encoded(self) -> Seq<u8> {
        le_bytes(self.row.0 as nat, 8) + le_bytes(self.xmin.0 as nat, 8) + le_bytes(
            xmax_field(self.xmax) as nat,
            8,
        ) + le_bytes(self.seq as nat, 8)
    }

    /// Whether the `xmax` is one the prefix can carry: not the reserved identifier.
    pub open spec fn storable(self) -> bool {
        self.xmax != Some(TxnId(NO_XMAX))
    }

    /// The prefix with another `xmax`.
    pub open spec fn with_xmax(self, xmax: Option<TxnId>) -> VersionHeader {
        VersionHeader { xmax, ..self }
    }
}

/// The prefix at the start of a record.
pub open spec fn header_of(s: Seq<u8>) -> VersionHeader {
    VersionHeader {
        row: RowId(le_value(s.subrange(0, 8)) as u64),
        xmin: TxnId(le_value(s.subrange(8, 16)) as u64),
        xmax: xmax_of(le_value(s.subrange(16, 24)) as u64),
        seq: le_value(s.subrange(24, 32)) as u64,
    }
}

/// The error of a record too short for its prefix.
pub open spec fn too_short(len: nat, e: InternalError) -> bool {
    e == InternalError::Corruption(Corruption::VersionTooShort { bytes: len as usize })
}

impl VersionHeader {
    /// Appends the [`VERSION_PREFIX_LEN`] bytes of the prefix to `out`.
    pub fn write_to(&self, out: &mut Vec<u8>)
        ensures
            final(out)@ == old(out)@ + self.encoded(),
    {
        let ghost before = out@;
        put_u64(out, self.row.0);
        put_u64(out, self.xmin.0);
        put_u64(
            out,
            match self.xmax {
                Some(x) => x.0,
                None => NO_XMAX,
            },
        );
        put_u64(out, self.seq);
        assert(out@ =~= before + self.encoded());
    }

    /// Reads the prefix at the start of `bytes`.
    ///
    /// # Errors
    ///
    /// A corruption for a record shorter than [`VERSION_PREFIX_LEN`].
    pub fn read_from(bytes: &[u8]) -> (r: Result<Self, InternalError>)
        ensures
            match r {
                Ok(header) => bytes@.len() >= VERSION_PREFIX_LEN && header == header_of(bytes@),
                Err(e) => bytes@.len() < VERSION_PREFIX_LEN && too_short(bytes@.len(), e),
            },
    {
        if bytes.len() < VERSION_PREFIX_LEN {
            return Err(
                InternalError::Corruption(Corruption::VersionTooShort { bytes: bytes.len() }),
            );
        }
        let xmax: u64 = read_u64(bytes, OFF_XMAX);
        Ok(
            VersionHeader {
                row: RowId(read_u64(bytes, 0)),
                xmin: TxnId(read_u64(bytes, 8)),
                xmax: if xmax != NO_XMAX {
                    Some(TxnId(xmax))
                } else {
                    None
                },
                seq: read_u64(bytes, 24),
            },
        )
    }
}

/// A prefix takes 32 bytes and reads back from them, whatever follows.
pub proof fn law_prefix_reads_back(header: VersionHeader, rest: Seq<u8>)
    requires
        header.storable(),
    ensures
        header.encoded().len() == VERSION_PREFIX_LEN,
        header_of(header.encoded() + rest) == header,
        (header.encoded() + rest).skip(32) == rest,
{
    let s = header.encoded() + rest;
    lemma_byte_ranges();
    lemma_le_round_trip(header.row.0 as nat, 8);
    lemma_le_round_trip(header.xmin.0 as nat, 8);
    lemma_le_round_trip(xmax_field(header.xmax) as nat, 8);
    lemma_le_round_trip(header.seq as nat, 8);
    assert(s.subrange(0, 8) =~= le_bytes(header.row.0 as nat, 8));
    assert(s.subrange(8, 16) =~= le_bytes(header.xmin.0 as nat, 8));
    assert(s.subrange(16, 24) =~= le_bytes(xmax_field(header.xmax) as nat, 8));
    assert(s.subrange(24, 32) =~= le_bytes(header.seq as nat, 8));
    assert(s.skip(32) =~= rest);
}

/// A record of at least 32 bytes is its prefix then its columns.
pub proof fn law_record_is_prefix_then_columns(s: Seq<u8>)
    requires
        s.len() >= VERSION_PREFIX_LEN,
    ensures
        header_of(s).storable(),
        s == header_of(s).encoded() + s.skip(32),
{
    lemma_byte_ranges();
    lemma_le_write_back(s.subrange(0, 8));
    lemma_le_write_back(s.subrange(8, 16));
    lemma_le_write_back(s.subrange(16, 24));
    lemma_le_write_back(s.subrange(24, 32));
    assert(xmax_field(header_of(s).xmax) as nat == le_value(s.subrange(16, 24)));
    assert(header_of(s).encoded() + s.skip(32) =~= s);
}

/// The bytes of one version: its prefix then its columns.
pub open spec fn version_bytes(header: VersionHeader, row: Seq<ValueModel>) -> Seq<u8> {
    header.encoded() + row_bytes(row)
}

/// The bytes of one version: its prefix then its columns.
pub fn encode_version(header: &VersionHeader, row: &Row) -> (r: Vec<u8>)
    ensures
        r@ == version_bytes(*header, row@),
        parse_row(row_bytes(row@)) == Some(row@),
{
    let mut bytes: Vec<u8> = Vec::with_capacity(VERSION_PREFIX_LEN);
    header.write_to(&mut bytes);
    encode_row(row, &mut bytes);
    assert(bytes@ =~= version_bytes(*header, row@));
    bytes
}

/// The record `s` with another `xmax` written in its prefix.
pub open spec fn patched(s: Seq<u8>, xmax: Option<TxnId>) -> Seq<u8> {
    splice(s, 16, le_bytes(xmax_field(xmax) as nat, 8))
}

/// The same record with another `xmax` written in its prefix, the columns untouched.
///
/// # Errors
///
/// A corruption for a record too short for the whole prefix, even though the `xmax` field would
/// fit.
pub fn with_xmax(bytes: &[u8], xmax: Option<TxnId>) -> (r: Result<Vec<u8>, InternalError>)
    ensures
        match r {
            Ok(out) => bytes@.len() >= VERSION_PREFIX_LEN && out@ == patched(bytes@, xmax),
            Err(e) => bytes@.len() < VERSION_PREFIX_LEN && too_short(bytes@.len(), e),
        },
{
    let size: usize = bytes.len();
    if size < VERSION_PREFIX_LEN {
        return Err(InternalError::Corruption(Corruption::VersionTooShort { bytes: size }));
    }
    let mut out: Vec<u8> = Vec::with_capacity(size);
    put_bytes(&mut out, vstd::slice::slice_subrange(bytes, 0, OFF_XMAX));
    put_u64(
        &mut out,
        match xmax {
            Some(x) => x.0,
            None => NO_XMAX,
        },
    );
    put_bytes(&mut out, vstd::slice::slice_subrange(bytes, OFF_XMAX + 8, size));
    proof {
        lemma_le_len(xmax_field(xmax) as nat, 8);
        assert(out@ =~= patched(bytes@, xmax));
    }
    Ok(out)
}

/// Writing an `xmax` changes that field of the prefix alone: the rest of the prefix and the
/// columns stay, and writing another one over it is writing that one in the first place.
pub proof fn law_xmax_alone_changes(s: Seq<u8>, xmax: Option<TxnId>, other: Option<TxnId>)
    requires
        s.len() >= VERSION_PREFIX_LEN,
        xmax != Some(TxnId(NO_XMAX)),
    ensures
        patched(s, xmax).len() == s.len(),
        header_of(patched(s, xmax)) == header_of(s).with_xmax(xmax),
        patched(s, xmax).skip(32) == s.skip(32),
        patched(patched(s, xmax), other) == patched(s, other),
        header_of(s).xmax == other ==> patched(patched(s, xmax), other) == s,
{
    let p = patched(s, xmax);
    lemma_byte_ranges();
    lemma_le_round_trip(xmax_field(xmax) as nat, 8);
    lemma_le_len(xmax_field(other) as nat, 8);
    assert(p.subrange(0, 8) =~= s.subrange(0, 8));
    assert(p.subrange(8, 16) =~= s.subrange(8, 16));
    assert(p.subrange(16, 24) =~= le_bytes(xmax_field(xmax) as nat, 8));
    assert(p.subrange(24, 32) =~= s.subrange(24, 32));
    assert(p.skip(32) =~= s.skip(32));
    assert(patched(p, other) =~= patched(s, other));
    if header_of(s).xmax == other {
        lemma_le_write_back(s.subrange(16, 24));
        assert(xmax_field(other) as nat == le_value(s.subrange(16, 24)));
        assert(patched(s, other) =~= s);
    }
}

/// Refuses the transaction identifier reserved by [`NO_XMAX`].
///
/// # Errors
///
/// A bug for `TxnId(u64::MAX)`.
pub fn check_txn(txn: TxnId) -> (r: Result<(), InternalError>)
    ensures
        match r {
            Ok(_) => txn.0 != NO_XMAX,
            Err(e) => txn.0 == NO_XMAX && e == InternalError::Bug(Bug::ReservedTxn(txn)),
        },
{
    if txn.0 == NO_XMAX {
        return Err(InternalError::Bug(Bug::ReservedTxn(txn)));
    }
    Ok(())
}

} // verus!
