//! CRC-32, the checksum of the pages and of the journal records: the reflected polynomial
//! `0xEDB88320`, initial value and final complement of all ones.

use vstd::prelude::*;

verus! {

/// The polynomial, its bits reflected.
pub const POLYNOMIAL: u32 = 0xEDB8_8320;

/// One bit of the division.
pub open spec fn crc_bit(c: u32) -> u32 {
    if c & 1u32 == 1u32 {
        (c >> 1u32) ^ POLYNOMIAL
    } else {
        c >> 1u32
    }
}

/// `n` bits of the division.
pub open spec fn crc_bits(c: u32, n: nat) -> u32
    decreases n,
{
    if n == 0 {
        c
    } else {
        crc_bits(crc_bit(c), (n - 1) as nat)
    }
}

/// The register after the bytes of `s` went through it.
pub open spec fn crc_register(c: u32, s: Seq<u8>) -> u32
    decreases s.len(),
{
    if s.len() == 0 {
        c
    } else {
        crc_bits(crc_register(c, s.drop_last()) ^ (s.last() as u32), 8)
    }
}

/// The CRC-32 of a sequence of bytes.
pub open spec fn crc_of(s: Seq<u8>) -> u32 {
    crc_register(0xFFFF_FFFFu32, s) ^ 0xFFFF_FFFFu32
}

/// The register takes a sequence in two parts as it takes it whole.
pub proof fn lemma_crc_parts(c: u32, a: Seq<u8>, b: Seq<u8>)
    ensures
        crc_register(c, a + b) == crc_register(crc_register(c, a), b),
    decreases b.len(),
{
    if b.len() == 0 {
        assert(a + b =~= a);
    } else {
        assert((a + b).drop_last() =~= a + b.drop_last());
        lemma_crc_parts(c, a, b.drop_last());
    }
}

/// A running checksum.
#[derive(Debug)]
pub struct Crc32 {
    register: u32,
}

impl Crc32 {
    /// The bytes seen so far give this register.
    pub closed spec fn register(&self) -> u32 {
        self.register
    }

    /// A checksum that has seen no byte.
    pub fn new() -> (r: Self)
        ensures
            r.register() == 0xFFFF_FFFFu32,
    {
        Crc32 { register: 0xFFFF_FFFF }
    }

    /// Takes more bytes.
    pub fn update(&mut self, bytes: &[u8])
        ensures
            final(self).register() == crc_register(old(self).register(), bytes@),
    {
        let ghost start = self.register;
        assert(bytes@.take(0) =~= Seq::empty());
        for i in 0..bytes.len()
            invariant
                self.register == crc_register(start, bytes@.take(i as int)),
        {
            let mut c: u32 = self.register ^ (bytes[i] as u32);
            let ghost mixed = c;
            for bit in 0..8u32
                invariant
                    crc_bits(c, (8 - bit) as nat) == crc_bits(mixed, 8),
            {
                c = if c & 1 == 1 {
                    (c >> 1) ^ POLYNOMIAL
                } else {
                    c >> 1
                };
            }
            self.register = c;
            assert(bytes@.take(i + 1).drop_last() =~= bytes@.take(i as int));
            assert(bytes@.take(i + 1).last() == bytes@[i as int]);
        }
        assert(bytes@.take(bytes@.len() as int) =~= bytes@);
    }

    /// The checksum of the bytes seen so far.
    pub fn finish(&self) -> (r: u32)
        ensures
            r == self.register() ^ 0xFFFF_FFFFu32,
    {
        self.register ^ 0xFFFF_FFFF
    }
}

/// The CRC-32 of `bytes`.
pub fn crc32(bytes: &[u8]) -> (r: u32)
    ensures
        r == crc_of(bytes@),
{
    let mut crc = Crc32::new();
    crc.update(bytes);
    crc.finish()
}

} // verus!
