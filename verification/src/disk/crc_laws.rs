//! What the checksum catches, and what tells it from another.

use vstd::prelude::*;

use super::crc::{crc_bit, crc_bits, crc_of, crc_register, lemma_crc_parts};

verus! {

/// One bit of the division is linear.
proof fn lemma_bit_linear(a: u32, b: u32)
    ensures
        crc_bit(a ^ b) == crc_bit(a) ^ crc_bit(b),
{
    let x = a ^ b;
    assert((if x & 1u32 == 1u32 {
        (x >> 1u32) ^ 0xEDB8_8320u32
    } else {
        x >> 1u32
    }) == (if a & 1u32 == 1u32 {
        (a >> 1u32) ^ 0xEDB8_8320u32
    } else {
        a >> 1u32
    }) ^ (if b & 1u32 == 1u32 {
        (b >> 1u32) ^ 0xEDB8_8320u32
    } else {
        b >> 1u32
    })) by (bit_vector)
        requires
            x == a ^ b,
    ;
}

/// The division is linear.
proof fn lemma_bits_linear(a: u32, b: u32, n: nat)
    ensures
        crc_bits(a ^ b, n) == crc_bits(a, n) ^ crc_bits(b, n),
    decreases n,
{
    if n > 0 {
        lemma_bit_linear(a, b);
        lemma_bits_linear(crc_bit(a), crc_bit(b), (n - 1) as nat);
    }
}

/// The division goes on where it stopped.
proof fn lemma_bits_go_on(c: u32, m: nat, n: nat)
    ensures
        crc_bits(c, m + n) == crc_bits(crc_bits(c, m), n),
    decreases m,
{
    if m > 0 {
        lemma_bits_go_on(crc_bit(c), (m - 1) as nat, n);
    }
}

/// A byte that the division has not reached yet moves along unchanged.
proof fn lemma_byte_moves(b: u32, k: u32)
    requires
        b < 256,
        k <= 24,
    ensures
        crc_bits(b << k, k as nat) == b,
    decreases k,
{
    if k == 0 {
        assert(b << 0u32 == b) by (bit_vector);
    } else {
        let j = (k - 1) as u32;
        let x = b << k;
        assert(x & 1u32 == 0u32 && x >> 1u32 == b << j) by (bit_vector)
            requires
                x == b << k,
                b < 256u32,
                1u32 <= k <= 24u32,
                j == k - 1,
        ;
        lemma_byte_moves(b, j);
    }
}

/// The four bytes of a word, the least significant one first.
pub open spec fn word(b0: u8, b1: u8, b2: u8, b3: u8) -> u32 {
    (b0 as u32) ^ ((b1 as u32) << 8u32) ^ ((b2 as u32) << 16u32) ^ ((b3 as u32) << 24u32)
}

/// A byte joins a register that has been divided by as many bits as the byte is behind.
proof fn lemma_byte_joins(x: u32, b: u32, k: u32)
    requires
        b < 256,
        k <= 24,
    ensures
        crc_bits(crc_bits(x, k as nat) ^ b, 8) == crc_bits(x ^ (b << k), (k + 8) as nat),
{
    lemma_byte_moves(b, k);
    lemma_bits_linear(x, b << k, k as nat);
    lemma_bits_go_on(x ^ (b << k), k as nat, 8);
}

/// Four bytes go through the register as one word.
proof fn lemma_word(c: u32, s: Seq<u8>)
    requires
        s.len() == 4,
    ensures
        crc_register(c, s) == crc_bits(c ^ word(s[0], s[1], s[2], s[3]), 32),
{
    let b0 = s[0] as u32;
    let b1 = s[1] as u32;
    let b2 = s[2] as u32;
    let b3 = s[3] as u32;
    let s3 = s.drop_last();
    let s2 = s3.drop_last();
    let s1 = s2.drop_last();
    assert(s1.drop_last() =~= Seq::<u8>::empty());
    assert(crc_register(c, s1.drop_last()) == c);
    assert(crc_register(c, s1) == crc_bits(c ^ b0, 8));
    assert(crc_register(c, s2) == crc_bits(crc_register(c, s1) ^ b1, 8));
    assert(crc_register(c, s3) == crc_bits(crc_register(c, s2) ^ b2, 8));
    assert(crc_register(c, s) == crc_bits(crc_register(c, s3) ^ b3, 8));
    let x0 = c ^ b0;
    let x1 = x0 ^ (b1 << 8u32);
    let x2 = x1 ^ (b2 << 16u32);
    let x3 = x2 ^ (b3 << 24u32);
    lemma_byte_joins(x0, b1, 8);
    lemma_byte_joins(x1, b2, 16);
    lemma_byte_joins(x2, b3, 24);
    let w = word(s[0], s[1], s[2], s[3]);
    assert(x3 == c ^ w) by (bit_vector)
        requires
            x3 == c ^ b0 ^ (b1 << 8u32) ^ (b2 << 16u32) ^ (b3 << 24u32),
            w == b0 ^ (b1 << 8u32) ^ (b2 << 16u32) ^ (b3 << 24u32),
    ;
}

/// Two registers that one bit of the division brings together were the same.
proof fn lemma_bit_injective(a: u32, b: u32)
    requires
        crc_bit(a) == crc_bit(b),
    ensures
        a == b,
{
    assert(a == b) by (bit_vector)
        requires
            (if a & 1u32 == 1u32 {
                (a >> 1u32) ^ 0xEDB8_8320u32
            } else {
                a >> 1u32
            }) == (if b & 1u32 == 1u32 {
                (b >> 1u32) ^ 0xEDB8_8320u32
            } else {
                b >> 1u32
            }),
    ;
}

/// Two registers that the division brings together were the same.
proof fn lemma_bits_injective(a: u32, b: u32, n: nat)
    requires
        crc_bits(a, n) == crc_bits(b, n),
    ensures
        a == b,
    decreases n,
{
    if n > 0 {
        lemma_bits_injective(crc_bit(a), crc_bit(b), (n - 1) as nat);
        lemma_bit_injective(a, b);
    }
}

/// Two registers that the same bytes bring together were the same.
proof fn lemma_register_injective(a: u32, b: u32, s: Seq<u8>)
    requires
        crc_register(a, s) == crc_register(b, s),
    ensures
        a == b,
    decreases s.len(),
{
    if s.len() > 0 {
        let x = crc_register(a, s.drop_last());
        let y = crc_register(b, s.drop_last());
        let z = s.last() as u32;
        lemma_bits_injective(x ^ z, y ^ z, 8);
        assert(x == y) by (bit_vector)
            requires
                x ^ z == y ^ z,
        ;
        lemma_register_injective(a, b, s.drop_last());
    }
}

/// A checksum changes with any one byte: two runs that differ in a single byte have different
/// checksums.
pub proof fn law_changed_byte_changes_the_checksum(
    before: Seq<u8>,
    x: u8,
    y: u8,
    after: Seq<u8>,
)
    requires
        x != y,
    ensures
        crc_of(before.push(x) + after) != crc_of(before.push(y) + after),
{
    let start = 0xFFFF_FFFFu32;
    let c = crc_register(start, before);
    let a = crc_register(start, before.push(x));
    let b = crc_register(start, before.push(y));
    assert(before.push(x).drop_last() =~= before && before.push(y).drop_last() =~= before);
    lemma_crc_parts(start, before.push(x), after);
    lemma_crc_parts(start, before.push(y), after);
    if crc_of(before.push(x) + after) == crc_of(before.push(y) + after) {
        lemma_same_complement(
            crc_register(start, before.push(x) + after),
            crc_register(start, before.push(y) + after),
        );
        lemma_register_injective(a, b, after);
        let p = x as u32;
        let q = y as u32;
        lemma_bits_injective(c ^ p, c ^ q, 8);
        assert(p == q) by (bit_vector)
            requires
                c ^ p == c ^ q,
        ;
    }
}

/// Two numbers of one complement are the same.
proof fn lemma_same_complement(a: u32, b: u32)
    requires
        a ^ 0xFFFF_FFFFu32 == b ^ 0xFFFF_FFFFu32,
    ensures
        a == b,
{
    assert(a == b) by (bit_vector)
        requires
            a ^ 0xFFFF_FFFFu32 == b ^ 0xFFFF_FFFFu32,
    ;
}

/// A checksum changes with any damage to four bytes in a row: two runs that differ in nothing else have
/// different checksums.
pub proof fn law_damage_to_four_bytes_changes_the_checksum(
    before: Seq<u8>,
    x: Seq<u8>,
    y: Seq<u8>,
    after: Seq<u8>,
)
    requires
        x.len() == 4,
        y.len() == 4,
        x != y,
    ensures
        crc_of(before + x + after) != crc_of(before + y + after),
{
    let start = 0xFFFF_FFFFu32;
    let c = crc_register(start, before);
    lemma_crc_parts(start, before + x, after);
    lemma_crc_parts(start, before + y, after);
    lemma_crc_parts(start, before, x);
    lemma_crc_parts(start, before, y);
    if crc_of(before + x + after) == crc_of(before + y + after) {
        lemma_same_complement(
            crc_register(start, before + x + after),
            crc_register(start, before + y + after),
        );
        lemma_register_injective(crc_register(c, x), crc_register(c, y), after);
        lemma_word(c, x);
        lemma_word(c, y);
        let p = word(x[0], x[1], x[2], x[3]);
        let q = word(y[0], y[1], y[2], y[3]);
        lemma_bits_injective(c ^ p, c ^ q, 32);
        assert(p == q) by (bit_vector)
            requires
                c ^ p == c ^ q,
        ;
        lemma_word_injective(x, y);
        assert(x =~= y);
    }
}

/// A word has its bytes.
proof fn lemma_word_injective(x: Seq<u8>, y: Seq<u8>)
    requires
        x.len() == 4,
        y.len() == 4,
        word(x[0], x[1], x[2], x[3]) == word(y[0], y[1], y[2], y[3]),
    ensures
        x[0] == y[0],
        x[1] == y[1],
        x[2] == y[2],
        x[3] == y[3],
{
    let (a, b, c, d) = (x[0], x[1], x[2], x[3]);
    let (e, f, g, h) = (y[0], y[1], y[2], y[3]);
    assert(a == e && b == f && c == g && d == h) by (bit_vector)
        requires
            (a as u32) ^ ((b as u32) << 8u32) ^ ((c as u32) << 16u32) ^ ((d as u32) << 24u32) == (
            e as u32) ^ ((f as u32) << 8u32) ^ ((g as u32) << 16u32) ^ ((h as u32) << 24u32),
    ;
}

/// What 32 bits of the division make of a register of ones.
proof fn lemma_ones_divided()
    ensures
        crc_bits(0xFFFF_FFFFu32, 32) == 0xDEBB_20E3u32,
{
    let c0 = 0xFFFF_FFFFu32;
    let c1 = crc_bit(c0);
    let c2 = crc_bit(c1);
    let c3 = crc_bit(c2);
    let c4 = crc_bit(c3);
    let c5 = crc_bit(c4);
    let c6 = crc_bit(c5);
    let c7 = crc_bit(c6);
    let c8 = crc_bit(c7);
    let c9 = crc_bit(c8);
    let c10 = crc_bit(c9);
    let c11 = crc_bit(c10);
    let c12 = crc_bit(c11);
    let c13 = crc_bit(c12);
    let c14 = crc_bit(c13);
    let c15 = crc_bit(c14);
    let c16 = crc_bit(c15);
    let c17 = crc_bit(c16);
    let c18 = crc_bit(c17);
    let c19 = crc_bit(c18);
    let c20 = crc_bit(c19);
    let c21 = crc_bit(c20);
    let c22 = crc_bit(c21);
    let c23 = crc_bit(c22);
    let c24 = crc_bit(c23);
    let c25 = crc_bit(c24);
    let c26 = crc_bit(c25);
    let c27 = crc_bit(c26);
    let c28 = crc_bit(c27);
    let c29 = crc_bit(c28);
    let c30 = crc_bit(c29);
    let c31 = crc_bit(c30);
    let c32 = crc_bit(c31);
    assert(c32 == 0xDEBB_20E3u32) by (bit_vector)
        requires
            c0 == 0xFFFF_FFFFu32,
            c1 == (if c0 & 1u32 == 1u32 { (c0 >> 1u32) ^ 0xEDB8_8320u32 } else { c0 >> 1u32 }),
            c2 == (if c1 & 1u32 == 1u32 { (c1 >> 1u32) ^ 0xEDB8_8320u32 } else { c1 >> 1u32 }),
            c3 == (if c2 & 1u32 == 1u32 { (c2 >> 1u32) ^ 0xEDB8_8320u32 } else { c2 >> 1u32 }),
            c4 == (if c3 & 1u32 == 1u32 { (c3 >> 1u32) ^ 0xEDB8_8320u32 } else { c3 >> 1u32 }),
            c5 == (if c4 & 1u32 == 1u32 { (c4 >> 1u32) ^ 0xEDB8_8320u32 } else { c4 >> 1u32 }),
            c6 == (if c5 & 1u32 == 1u32 { (c5 >> 1u32) ^ 0xEDB8_8320u32 } else { c5 >> 1u32 }),
            c7 == (if c6 & 1u32 == 1u32 { (c6 >> 1u32) ^ 0xEDB8_8320u32 } else { c6 >> 1u32 }),
            c8 == (if c7 & 1u32 == 1u32 { (c7 >> 1u32) ^ 0xEDB8_8320u32 } else { c7 >> 1u32 }),
            c9 == (if c8 & 1u32 == 1u32 { (c8 >> 1u32) ^ 0xEDB8_8320u32 } else { c8 >> 1u32 }),
            c10 == (if c9 & 1u32 == 1u32 { (c9 >> 1u32) ^ 0xEDB8_8320u32 } else { c9 >> 1u32 }),
            c11 == (if c10 & 1u32 == 1u32 { (c10 >> 1u32) ^ 0xEDB8_8320u32 } else { c10 >> 1u32 }),
            c12 == (if c11 & 1u32 == 1u32 { (c11 >> 1u32) ^ 0xEDB8_8320u32 } else { c11 >> 1u32 }),
            c13 == (if c12 & 1u32 == 1u32 { (c12 >> 1u32) ^ 0xEDB8_8320u32 } else { c12 >> 1u32 }),
            c14 == (if c13 & 1u32 == 1u32 { (c13 >> 1u32) ^ 0xEDB8_8320u32 } else { c13 >> 1u32 }),
            c15 == (if c14 & 1u32 == 1u32 { (c14 >> 1u32) ^ 0xEDB8_8320u32 } else { c14 >> 1u32 }),
            c16 == (if c15 & 1u32 == 1u32 { (c15 >> 1u32) ^ 0xEDB8_8320u32 } else { c15 >> 1u32 }),
            c17 == (if c16 & 1u32 == 1u32 { (c16 >> 1u32) ^ 0xEDB8_8320u32 } else { c16 >> 1u32 }),
            c18 == (if c17 & 1u32 == 1u32 { (c17 >> 1u32) ^ 0xEDB8_8320u32 } else { c17 >> 1u32 }),
            c19 == (if c18 & 1u32 == 1u32 { (c18 >> 1u32) ^ 0xEDB8_8320u32 } else { c18 >> 1u32 }),
            c20 == (if c19 & 1u32 == 1u32 { (c19 >> 1u32) ^ 0xEDB8_8320u32 } else { c19 >> 1u32 }),
            c21 == (if c20 & 1u32 == 1u32 { (c20 >> 1u32) ^ 0xEDB8_8320u32 } else { c20 >> 1u32 }),
            c22 == (if c21 & 1u32 == 1u32 { (c21 >> 1u32) ^ 0xEDB8_8320u32 } else { c21 >> 1u32 }),
            c23 == (if c22 & 1u32 == 1u32 { (c22 >> 1u32) ^ 0xEDB8_8320u32 } else { c22 >> 1u32 }),
            c24 == (if c23 & 1u32 == 1u32 { (c23 >> 1u32) ^ 0xEDB8_8320u32 } else { c23 >> 1u32 }),
            c25 == (if c24 & 1u32 == 1u32 { (c24 >> 1u32) ^ 0xEDB8_8320u32 } else { c24 >> 1u32 }),
            c26 == (if c25 & 1u32 == 1u32 { (c25 >> 1u32) ^ 0xEDB8_8320u32 } else { c25 >> 1u32 }),
            c27 == (if c26 & 1u32 == 1u32 { (c26 >> 1u32) ^ 0xEDB8_8320u32 } else { c26 >> 1u32 }),
            c28 == (if c27 & 1u32 == 1u32 { (c27 >> 1u32) ^ 0xEDB8_8320u32 } else { c27 >> 1u32 }),
            c29 == (if c28 & 1u32 == 1u32 { (c28 >> 1u32) ^ 0xEDB8_8320u32 } else { c28 >> 1u32 }),
            c30 == (if c29 & 1u32 == 1u32 { (c29 >> 1u32) ^ 0xEDB8_8320u32 } else { c29 >> 1u32 }),
            c31 == (if c30 & 1u32 == 1u32 { (c30 >> 1u32) ^ 0xEDB8_8320u32 } else { c30 >> 1u32 }),
            c32 == (if c31 & 1u32 == 1u32 { (c31 >> 1u32) ^ 0xEDB8_8320u32 } else { c31 >> 1u32 }),
    ;
    assert(crc_bits(c0, 32) == crc_bits(c1, 31));
    assert(crc_bits(c1, 31) == crc_bits(c2, 30));
    assert(crc_bits(c2, 30) == crc_bits(c3, 29));
    assert(crc_bits(c3, 29) == crc_bits(c4, 28));
    assert(crc_bits(c4, 28) == crc_bits(c5, 27));
    assert(crc_bits(c5, 27) == crc_bits(c6, 26));
    assert(crc_bits(c6, 26) == crc_bits(c7, 25));
    assert(crc_bits(c7, 25) == crc_bits(c8, 24));
    assert(crc_bits(c8, 24) == crc_bits(c9, 23));
    assert(crc_bits(c9, 23) == crc_bits(c10, 22));
    assert(crc_bits(c10, 22) == crc_bits(c11, 21));
    assert(crc_bits(c11, 21) == crc_bits(c12, 20));
    assert(crc_bits(c12, 20) == crc_bits(c13, 19));
    assert(crc_bits(c13, 19) == crc_bits(c14, 18));
    assert(crc_bits(c14, 18) == crc_bits(c15, 17));
    assert(crc_bits(c15, 17) == crc_bits(c16, 16));
    assert(crc_bits(c16, 16) == crc_bits(c17, 15));
    assert(crc_bits(c17, 15) == crc_bits(c18, 14));
    assert(crc_bits(c18, 14) == crc_bits(c19, 13));
    assert(crc_bits(c19, 13) == crc_bits(c20, 12));
    assert(crc_bits(c20, 12) == crc_bits(c21, 11));
    assert(crc_bits(c21, 11) == crc_bits(c22, 10));
    assert(crc_bits(c22, 10) == crc_bits(c23, 9));
    assert(crc_bits(c23, 9) == crc_bits(c24, 8));
    assert(crc_bits(c24, 8) == crc_bits(c25, 7));
    assert(crc_bits(c25, 7) == crc_bits(c26, 6));
    assert(crc_bits(c26, 6) == crc_bits(c27, 5));
    assert(crc_bits(c27, 5) == crc_bits(c28, 4));
    assert(crc_bits(c28, 4) == crc_bits(c29, 3));
    assert(crc_bits(c29, 3) == crc_bits(c30, 2));
    assert(crc_bits(c30, 2) == crc_bits(c31, 1));
    assert(crc_bits(c31, 1) == crc_bits(c32, 0));
    assert(crc_bits(c32, 0) == c32);
}

/// The checksum of a run with its own checksum behind it, the least significant byte first, is the same
/// for every run: the residue of CRC-32.
pub proof fn law_checksum_of_a_checksummed_run_is_the_residue(s: Seq<u8>)
    ensures
        ({
            let c = crc_of(s);
            crc_of(
                s + seq![
                    (c & 0xFF) as u8,
                    ((c >> 8u32) & 0xFF) as u8,
                    ((c >> 16u32) & 0xFF) as u8,
                    ((c >> 24u32) & 0xFF) as u8,
                ],
            ) == 0x2144_DF1Cu32
        }),
{
    let start = 0xFFFF_FFFFu32;
    let r = crc_register(start, s);
    let c = crc_of(s);
    let b0 = (c & 0xFF) as u8;
    let b1 = ((c >> 8u32) & 0xFF) as u8;
    let b2 = ((c >> 16u32) & 0xFF) as u8;
    let b3 = ((c >> 24u32) & 0xFF) as u8;
    let seal = seq![b0, b1, b2, b3];
    lemma_crc_parts(start, s, seal);
    lemma_word(r, seal);
    let w = word(b0, b1, b2, b3);
    assert(r ^ w == 0xFFFF_FFFFu32) by (bit_vector)
        requires
            c == r ^ 0xFFFF_FFFFu32,
            b0 == (c & 0xFF) as u8,
            b1 == ((c >> 8u32) & 0xFF) as u8,
            b2 == ((c >> 16u32) & 0xFF) as u8,
            b3 == ((c >> 24u32) & 0xFF) as u8,
            w == (b0 as u32) ^ ((b1 as u32) << 8u32) ^ ((b2 as u32) << 16u32) ^ ((b3 as u32)
                << 24u32),
    ;
    lemma_ones_divided();
    assert(0xDEBB_20E3u32 ^ 0xFFFF_FFFFu32 == 0x2144_DF1Cu32) by (bit_vector);
}

} // verus!
