//! Page format of the on-disk layout: pages of 8 192 bytes, a common header of 32 bytes, and a
//! CRC-32 checksum covering the page.
//!
//! The other modules of the on-disk layout read and write the common header through the
//! accessors of [`Page`] rather than by touching its first 32 bytes, so that a change of layout
//! stays in this file.

use vstd::prelude::*;

use super::bytes::{
    le_bytes, le_value, lemma_byte_ranges, lemma_le_len, lemma_le_round_trip, put_u16, put_u32,
    put_u64, read_u16, read_u32, read_u64,
};
use super::crc::{crc_of, lemma_crc_parts, Crc32};
use crate::error::{Corruption, InternalError};

verus! {

/// Size of a page, in bytes.
pub const PAGE_SIZE: usize = 8192;

/// Size of the common header at the start of a page, in bytes.
pub const HEADER_SIZE: usize = 32;

/// Value written in the `format_version` field by this build.
pub const FORMAT_VERSION: u8 = 1;

/// Offset of the format version.
pub const OFF_FORMAT_VERSION: usize = 4;

/// Offset of the page kind.
pub const OFF_KIND: usize = 5;

/// Offset of the flag word.
pub const OFF_FLAGS: usize = 6;

/// Offset of the page identifier.
pub const OFF_PAGE_ID: usize = 8;

/// Offset of the page LSN.
pub const OFF_PAGE_LSN: usize = 16;

/// Offset of the checksum.
pub const OFF_CHECKSUM: usize = 24;

/// Offset of the slot count.
pub const OFF_SLOT_COUNT: usize = 28;

/// Offset of the `lower` boundary.
pub const OFF_LOWER: usize = 30;

/// Identifier of a page within a data file: its index in the file, counted from 0.
#[derive(Debug, Clone, Copy, PartialEq, Eq, PartialOrd, Ord, Hash, Structural)]
pub struct PageId(pub u64);

impl DeepView for PageId {
    type V = PageId;

    open spec fn deep_view(&self) -> PageId {
        *self
    }
}

/// Log sequence number of the journal record that last changed a page.
///
/// A page built by [`Page::empty`] carries `Lsn(0)`: 0 means never logged. The log sequence
/// numbers handed out by the journal start at 1.
#[derive(Debug, Clone, Copy, PartialEq, Eq, PartialOrd, Ord, Hash, Structural)]
pub struct Lsn(pub u64);

/// Kind of a page, stored as one byte at offset 5 of the header.
///
/// The byte values are part of the on-disk format: a new kind takes a free value, an existing
/// one keeps its own.
#[derive(Debug, Clone, Copy, PartialEq, Eq, PartialOrd, Ord, Hash, Structural)]
pub enum PageKind {
    /// Page that belongs to the file and holds nothing; the allocator hands it out.
    Free,
    /// Slotted page of table rows.
    Heap,
    /// Continuation of a row too large for a single page.
    Overflow,
    /// Internal node of a B+tree.
    BTreeInternal,
    /// Leaf node of a B+tree.
    BTreeLeaf,
    /// Page of the catalogue chain.
    Meta,
    /// Directory mapping a row to its physical position.
    RowIdDir,
}

impl PageKind {
    /// The byte of the kind.
    pub open spec fn byte(self) -> u8 {
        match self {
            PageKind::Free => 0,
            PageKind::Heap => 1,
            PageKind::Overflow => 2,
            PageKind::BTreeInternal => 3,
            PageKind::BTreeLeaf => 4,
            PageKind::Meta => 5,
            PageKind::RowIdDir => 6,
        }
    }

    /// Reads a kind from its stored byte.
    ///
    /// # Errors
    ///
    /// A corruption naming the byte for a byte that is no kind.
    pub fn from_byte(raw: u8) -> (r: Result<Self, InternalError>)
        ensures
            match r {
                Ok(kind) => kind.byte() == raw,
                Err(e) => raw > 6 && e == InternalError::Corruption(
                    Corruption::UnknownPageKind(raw),
                ),
            },
    {
        match raw {
            0 => Ok(PageKind::Free),
            1 => Ok(PageKind::Heap),
            2 => Ok(PageKind::Overflow),
            3 => Ok(PageKind::BTreeInternal),
            4 => Ok(PageKind::BTreeLeaf),
            5 => Ok(PageKind::Meta),
            6 => Ok(PageKind::RowIdDir),
            other => Err(InternalError::Corruption(Corruption::UnknownPageKind(other))),
        }
    }

    /// The byte written at offset 5 of the header.
    pub fn as_byte(self) -> (r: u8)
        ensures
            r == self.byte(),
            r <= 6,
    {
        match self {
            PageKind::Free => 0,
            PageKind::Heap => 1,
            PageKind::Overflow => 2,
            PageKind::BTreeInternal => 3,
            PageKind::BTreeLeaf => 4,
            PageKind::Meta => 5,
            PageKind::RowIdDir => 6,
        }
    }
}

/// Two kinds never share a byte.
pub proof fn law_page_kind_bytes_differ(a: PageKind, b: PageKind)
    ensures
        a.byte() == b.byte() ==> a == b,
{
}

/// A page of the on-disk layout: 8 192 bytes, header included.
///
/// # Common header (offsets 0..32), little-endian
///
/// | Offset | Size | Field |
/// |---|---|---|
/// | 0 | 4 | magic, bytes `V` `D` `B` `P` (`0x56 0x44 0x42 0x50`) |
/// | 4 | 1 | `format_version` = 1 |
/// | 5 | 1 | [`PageKind`] |
/// | 6 | 2 | `flags`, 0 (no flag is defined) |
/// | 8 | 8 | [`PageId`] |
/// | 16 | 8 | `page_lsn` ([`Lsn`]) |
/// | 24 | 4 | checksum CRC-32 |
/// | 28 | 2 | `slot_count` (0 on a fresh page) |
/// | 30 | 2 | `lower`: first free byte after the header and the kind-specific directory; 32 on a fresh page |
///
/// # Checksum
///
/// [`Page::seal`] writes the CRC-32 of the 8 192 bytes with the checksum field read as four
/// zero bytes; [`Page::verify`] recomputes it the same way and compares.
#[derive(Debug, Clone, PartialEq, Eq)]
pub struct Page(pub [u8; 8192]);

impl View for Page {
    type V = Seq<u8>;

    open spec fn view(&self) -> Seq<u8> {
        self.0@
    }
}

/// The bytes of `s` with `b` written at `at`.
pub open spec fn splice(s: Seq<u8>, at: int, b: Seq<u8>) -> Seq<u8> {
    s.take(at) + b + s.skip(at + b.len())
}

/// The little-endian field of `n` bytes at `at`.
pub open spec fn field(s: Seq<u8>, at: int, n: int) -> nat {
    le_value(s.subrange(at, at + n))
}

/// `n` zero bytes.
pub open spec fn zeros(n: nat) -> Seq<u8> {
    Seq::new(n, |i: int| 0u8)
}

/// The magic at the start of a page.
pub open spec fn magic() -> Seq<u8> {
    seq![0x56u8, 0x44u8, 0x42u8, 0x50u8]
}

/// The header of a fresh page.
pub open spec fn fresh_header(kind: PageKind, id: PageId) -> Seq<u8> {
    magic() + seq![FORMAT_VERSION, kind.byte()] + le_bytes(0, 2) + le_bytes(id.0 as nat, 8)
        + le_bytes(0, 8) + le_bytes(0, 4) + le_bytes(0, 2) + le_bytes(32, 2)
}

/// The checksum of a page: the CRC-32 of its bytes with the checksum field read as zeros.
pub open spec fn page_checksum(s: Seq<u8>) -> u32 {
    crc_of(splice(s, 24, zeros(4)))
}

/// Whether the header of a page is one this build reads.
pub open spec fn header_ok(s: Seq<u8>) -> bool {
    &&& s.subrange(0, 4) == magic()
    &&& s[4] == FORMAT_VERSION
    &&& s[5] <= 6
}

/// Whether a page reads back: its header is one this build reads and its checksum agrees.
pub open spec fn page_ok(s: Seq<u8>) -> bool {
    &&& header_ok(s)
    &&& field(s, 24, 4) == page_checksum(s)
}

/// The error of a page that does not read back: the first of the checks that fails.
pub open spec fn page_error(s: Seq<u8>, e: InternalError) -> bool {
    let page = PageId(field(s, 8, 8) as u64);
    if s.subrange(0, 4) != magic() {
        e == InternalError::Corruption(
            Corruption::PageMagic { page, magic: (s[0], s[1], s[2], s[3]) },
        )
    } else if s[4] != FORMAT_VERSION {
        e == InternalError::Corruption(Corruption::PageVersion { page, version: s[4] })
    } else if s[5] > 6 {
        e == InternalError::Corruption(Corruption::UnknownPageKind(s[5]))
    } else {
        e == InternalError::Corruption(
            Corruption::PageChecksum {
                page,
                stored: field(s, 24, 4) as u32,
                computed: page_checksum(s),
            },
        )
    }
}

impl Page {
    /// A fresh page: header filled for `kind` and `id`, `flags` 0, `page_lsn` 0, checksum 0,
    /// `slot_count` 0, `lower` 32, and the bytes 32..8192 left at zero.
    pub fn empty(kind: PageKind, id: PageId) -> (r: Self)
        ensures
            r@ == fresh_header(kind, id) + zeros(8160),
    {
        let mut page = Page([0u8; 8192]);
        page.0[0] = 0x56;
        page.0[1] = 0x44;
        page.0[2] = 0x42;
        page.0[3] = 0x50;
        page.0[OFF_FORMAT_VERSION] = FORMAT_VERSION;
        page.0[OFF_KIND] = kind.as_byte();
        page.write_u64(OFF_PAGE_ID, id.0);
        page.write_u16(OFF_LOWER, 32);
        proof {
            lemma_le_len(id.0 as nat, 8);
            lemma_le_len(32, 2);
            lemma_zero_bytes(2);
            lemma_zero_bytes(4);
            lemma_zero_bytes(8);
            assert(page@ =~= fresh_header(kind, id) + zeros(8160));
        }
        page
    }

    /// Reads a page from a buffer of 8 192 bytes, checking the header and the checksum.
    ///
    /// # Errors
    ///
    /// A corruption for a page that does not read back.
    pub fn from_bytes(bytes: [u8; 8192]) -> (r: Result<Self, InternalError>)
        ensures
            match r {
                Ok(page) => page_ok(bytes@) && page@ == bytes@,
                Err(e) => !page_ok(bytes@) && page_error(bytes@, e),
            },
    {
        let page = Page(bytes);
        match page.verify() {
            Ok(_) => Ok(page),
            Err(e) => Err(e),
        }
    }

    /// The format version stored in the header, whether or not this build reads it.
    pub fn format_version(&self) -> (r: u8)
        ensures
            r == self@[4],
    {
        self.0[OFF_FORMAT_VERSION]
    }

    /// The kind stored in the header.
    ///
    /// # Errors
    ///
    /// A corruption for a byte that is no kind.
    pub fn kind(&self) -> (r: Result<PageKind, InternalError>)
        ensures
            match r {
                Ok(kind) => kind.byte() == self@[5],
                Err(e) => self@[5] > 6 && e == InternalError::Corruption(
                    Corruption::UnknownPageKind(self@[5]),
                ),
            },
    {
        PageKind::from_byte(self.0[OFF_KIND])
    }

    /// Overwrites the kind byte.
    pub fn set_kind(&mut self, kind: PageKind)
        ensures
            final(self)@ == old(self)@.update(5, kind.byte()),
    {
        self.0[OFF_KIND] = kind.as_byte();
    }

    /// The flag word. Pages built by [`Page::empty`] carry 0; no flag is defined.
    pub fn flags(&self) -> (r: u16)
        ensures
            r as nat == field(self@, 6, 2),
    {
        self.read_u16(OFF_FLAGS)
    }

    /// The identifier stored in the header.
    pub fn page_id(&self) -> (r: PageId)
        ensures
            r.0 as nat == field(self@, 8, 8),
    {
        PageId(self.read_u64(OFF_PAGE_ID))
    }

    /// The LSN stored in the header. `Lsn(0)` means never logged.
    pub fn lsn(&self) -> (r: Lsn)
        ensures
            r.0 as nat == field(self@, 16, 8),
    {
        Lsn(self.read_u64(OFF_PAGE_LSN))
    }

    /// Overwrites the LSN.
    pub fn set_lsn(&mut self, lsn: Lsn)
        ensures
            final(self)@ == splice(old(self)@, 16, le_bytes(lsn.0 as nat, 8)),
    {
        self.write_u64(OFF_PAGE_LSN, lsn.0);
    }

    /// The checksum field as it stands in the header, without recomputing it.
    pub fn checksum_field(&self) -> (r: u32)
        ensures
            r as nat == field(self@, 24, 4),
    {
        self.read_u32(OFF_CHECKSUM)
    }

    /// The number of slots declared by the header.
    pub fn slot_count(&self) -> (r: u16)
        ensures
            r as nat == field(self@, 28, 2),
    {
        self.read_u16(OFF_SLOT_COUNT)
    }

    /// Overwrites the number of slots.
    pub fn set_slot_count(&mut self, slots: u16)
        ensures
            final(self)@ == splice(old(self)@, 28, le_bytes(slots as nat, 2)),
    {
        self.write_u16(OFF_SLOT_COUNT, slots);
    }

    /// The first free byte after the header and the kind-specific directory.
    pub fn lower(&self) -> (r: u16)
        ensures
            r as nat == field(self@, 30, 2),
    {
        self.read_u16(OFF_LOWER)
    }

    /// Overwrites the `lower` boundary.
    pub fn set_lower(&mut self, lower: u16)
        ensures
            final(self)@ == splice(old(self)@, 30, le_bytes(lower as nat, 2)),
    {
        self.write_u16(OFF_LOWER, lower);
    }

    /// Writes the checksum of the page into its header.
    pub fn seal(&mut self)
        ensures
            final(self)@ == splice(old(self)@, 24, le_bytes(page_checksum(old(self)@) as nat, 4)),
            header_ok(old(self)@) ==> page_ok(final(self)@),
    {
        let checksum: u32 = self.checksum();
        proof {
            if header_ok(self@) {
                law_sealed_page_reads_back(self@);
            }
        }
        self.write_u32(OFF_CHECKSUM, checksum);
    }

    /// Checks the header and the checksum of a page read back from a file.
    ///
    /// The header is checked first, so a page whose magic or version is wrong is reported as
    /// such rather than as a checksum mismatch.
    ///
    /// # Errors
    ///
    /// A corruption for the first of the checks that fails.
    pub fn verify(&self) -> (r: Result<(), InternalError>)
        ensures
            match r {
                Ok(_) => page_ok(self@),
                Err(e) => !page_ok(self@) && page_error(self@, e),
            },
    {
        match self.verify_header() {
            Ok(_) => {},
            Err(e) => {
                return Err(e);
            },
        }
        let stored: u32 = self.checksum_field();
        let computed: u32 = self.checksum();
        if stored != computed {
            return Err(
                InternalError::Corruption(
                    Corruption::PageChecksum { page: self.page_id(), stored, computed },
                ),
            );
        }
        Ok(())
    }

    /// Checks the magic, the format version and the kind byte.
    fn verify_header(&self) -> (r: Result<(), InternalError>)
        ensures
            match r {
                Ok(_) => header_ok(self@),
                Err(e) => !header_ok(self@) && page_error(self@, e),
            },
    {
        let found: (u8, u8, u8, u8) = (self.0[0], self.0[1], self.0[2], self.0[3]);
        let ghost start = self@.subrange(0, 4);
        assert(start[0] == found.0 && start[1] == found.1 && start[2] == found.2 && start[3]
            == found.3);
        if found.0 != 0x56 || found.1 != 0x44 || found.2 != 0x42 || found.3 != 0x50 {
            assert(start != magic()) by {
                assert(magic()[0] == 0x56 && magic()[1] == 0x44 && magic()[2] == 0x42 && magic()[3]
                    == 0x50);
            }
            return Err(
                InternalError::Corruption(
                    Corruption::PageMagic { page: self.page_id(), magic: found },
                ),
            );
        }
        assert(start =~= magic());
        let version: u8 = self.format_version();
        if version != FORMAT_VERSION {
            return Err(
                InternalError::Corruption(
                    Corruption::PageVersion { page: self.page_id(), version },
                ),
            );
        }
        match self.kind() {
            Ok(_) => Ok(()),
            Err(e) => Err(e),
        }
    }

    /// CRC-32 of the 8 192 bytes of the page, its checksum field read as four zero bytes.
    pub fn checksum(&self) -> (r: u32)
        ensures
            r == page_checksum(self@),
    {
        let mut register = Crc32::new();
        let all: &[u8] = self.0.as_slice();
        let before: &[u8] = vstd::slice::slice_subrange(all, 0, OFF_CHECKSUM);
        let zero: [u8; 4] = [0u8; 4];
        let after: &[u8] = vstd::slice::slice_subrange(all, OFF_CHECKSUM + 4, PAGE_SIZE);
        register.update(before);
        register.update(zero.as_slice());
        register.update(after);
        proof {
            let c = 0xFFFF_FFFFu32;
            let s = self@;
            assert(before@ =~= s.take(24));
            assert(zero@ =~= zeros(4));
            assert(after@ =~= s.skip(28));
            lemma_crc_parts(c, before@, zero@);
            lemma_crc_parts(c, before@ + zero@, after@);
            assert(splice(s, 24, zeros(4)) =~= before@ + zero@ + after@);
        }
        register.finish()
    }

    /// Reads a little-endian `u16` at `at`.
    pub fn read_u16(&self, at: usize) -> (r: u16)
        requires
            at + 2 <= PAGE_SIZE,
        ensures
            r as nat == field(self@, at as int, 2),
    {
        read_u16(self.0.as_slice(), at)
    }

    /// Reads a little-endian `u32` at `at`.
    pub fn read_u32(&self, at: usize) -> (r: u32)
        requires
            at + 4 <= PAGE_SIZE,
        ensures
            r as nat == field(self@, at as int, 4),
    {
        read_u32(self.0.as_slice(), at)
    }

    /// Reads a little-endian `u64` at `at`.
    pub fn read_u64(&self, at: usize) -> (r: u64)
        requires
            at + 8 <= PAGE_SIZE,
        ensures
            r as nat == field(self@, at as int, 8),
    {
        read_u64(self.0.as_slice(), at)
    }

    /// Writes a little-endian `u16` at `at`.
    pub fn write_u16(&mut self, at: usize, value: u16)
        requires
            at + 2 <= PAGE_SIZE,
        ensures
            final(self)@ == splice(old(self)@, at as int, le_bytes(value as nat, 2)),
    {
        let mut bytes: Vec<u8> = Vec::new();
        put_u16(&mut bytes, value);
        proof {
            lemma_le_len(value as nat, 2);
            assert(bytes@ =~= le_bytes(value as nat, 2));
        }
        self.write(at, &bytes);
    }

    /// Writes a little-endian `u32` at `at`.
    pub fn write_u32(&mut self, at: usize, value: u32)
        requires
            at + 4 <= PAGE_SIZE,
        ensures
            final(self)@ == splice(old(self)@, at as int, le_bytes(value as nat, 4)),
    {
        let mut bytes: Vec<u8> = Vec::new();
        put_u32(&mut bytes, value);
        proof {
            lemma_le_len(value as nat, 4);
            assert(bytes@ =~= le_bytes(value as nat, 4));
        }
        self.write(at, &bytes);
    }

    /// Writes a little-endian `u64` at `at`.
    pub fn write_u64(&mut self, at: usize, value: u64)
        requires
            at + 8 <= PAGE_SIZE,
        ensures
            final(self)@ == splice(old(self)@, at as int, le_bytes(value as nat, 8)),
    {
        let mut bytes: Vec<u8> = Vec::new();
        put_u64(&mut bytes, value);
        proof {
            lemma_le_len(value as nat, 8);
            assert(bytes@ =~= le_bytes(value as nat, 8));
        }
        self.write(at, &bytes);
    }

    /// Writes a run of bytes at `at`.
    fn write(&mut self, at: usize, bytes: &Vec<u8>)
        requires
            at + bytes@.len() <= PAGE_SIZE,
        ensures
            final(self)@ == splice(old(self)@, at as int, bytes@),
    {
        let ghost before = self@;
        for i in 0..bytes.len()
            invariant
                at + bytes@.len() <= PAGE_SIZE,
                before.len() == PAGE_SIZE,
                self@.len() == PAGE_SIZE,
                self@ == splice(before, at as int, bytes@.take(i as int) + before.subrange(
                    at + i,
                    at + bytes@.len(),
                )),
        {
            self.0[at + i] = bytes[i];
            assert(self@ =~= splice(before, at as int, bytes@.take(i + 1) + before.subrange(
                at + i + 1,
                at + bytes@.len(),
            )));
        }
        assert(self@ =~= splice(before, at as int, bytes@));
    }
}

/// Zero is written as zero bytes.
proof fn lemma_zero_bytes(n: nat)
    ensures
        le_bytes(0, n) == zeros(n),
    decreases n,
{
    if n > 0 {
        lemma_zero_bytes((n - 1) as nat);
        assert(seq![0u8] + zeros((n - 1) as nat) =~= zeros(n));
    } else {
        assert(zeros(0) =~= Seq::empty());
    }
}

/// A page whose header is one this build reads, once sealed, reads back: the checksum does not
/// depend on the field it is written to.
pub proof fn law_sealed_page_reads_back(s: Seq<u8>)
    requires
        s.len() == PAGE_SIZE,
        header_ok(s),
    ensures
        page_ok(splice(s, 24, le_bytes(page_checksum(s) as nat, 4))),
{
    let sum = page_checksum(s);
    let b = le_bytes(sum as nat, 4);
    lemma_byte_ranges();
    lemma_le_round_trip(sum as nat, 4);
    let sealed = splice(s, 24, b);
    assert(sealed.subrange(24, 28) =~= b);
    assert(splice(sealed, 24, zeros(4)) =~= splice(s, 24, zeros(4)));
    assert(sealed.subrange(0, 4) =~= s.subrange(0, 4));
}

/// A field written at an offset reads back, and the bytes around it are unchanged.
pub proof fn law_written_field_reads_back(s: Seq<u8>, at: int, v: nat, n: nat)
    requires
        0 <= at,
        at + n <= s.len(),
        v < super::bytes::byte_range(n),
    ensures
        field(splice(s, at, le_bytes(v, n)), at, n as int) == v,
        splice(s, at, le_bytes(v, n)).len() == s.len(),
        forall|i: int|
            0 <= i < s.len() && !(at <= i < at + n) ==> #[trigger] splice(s, at, le_bytes(v, n))[i]
                == s[i],
{
    lemma_le_round_trip(v, n);
    assert(splice(s, at, le_bytes(v, n)).subrange(at, at + n) =~= le_bytes(v, n));
}

} // verus!
