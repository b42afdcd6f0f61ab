//! Little-endian integers in byte sequences.

use vstd::prelude::*;

verus! {

/// The `n` little-endian bytes of `v`, the low byte first.
pub open spec fn le_bytes(v: nat, n: nat) -> Seq<u8>
    decreases n,
{
    if n == 0 {
        Seq::empty()
    } else {
        seq![(v % 256) as u8] + le_bytes(v / 256, (n - 1) as nat)
    }
}

/// The integer a sequence of little-endian bytes stands for.
pub open spec fn le_value(s: Seq<u8>) -> nat
    decreases s.len(),
{
    if s.len() == 0 {
        0
    } else {
        s[0] as nat + 256 * le_value(s.drop_first())
    }
}

/// One more than the largest integer `n` bytes hold.
pub open spec fn byte_range(n: nat) -> nat
    decreases n,
{
    if n == 0 {
        1
    } else {
        256 * byte_range((n - 1) as nat)
    }
}

/// The ranges of the integer widths in use.
pub proof fn lemma_byte_ranges()
    ensures
        byte_range(2) == 0x1_0000,
        byte_range(4) == 0x1_0000_0000,
        byte_range(8) == 0x1_0000_0000_0000_0000,
{
    reveal_with_fuel(byte_range, 9);
}

/// Writing an integer takes as many bytes as asked for.
pub proof fn lemma_le_len(v: nat, n: nat)
    ensures
        le_bytes(v, n).len() == n,
    decreases n,
{
    if n > 0 {
        lemma_le_len(v / 256, (n - 1) as nat);
    }
}

/// Reading back the bytes of an integer that fits gives the integer.
pub proof fn lemma_le_round_trip(v: nat, n: nat)
    requires
        v < byte_range(n),
    ensures
        le_value(le_bytes(v, n)) == v,
        le_bytes(v, n).len() == n,
    decreases n,
{
    if n > 0 {
        let rest = le_bytes(v / 256, (n - 1) as nat);
        assert(v / 256 < byte_range((n - 1) as nat));
        lemma_le_round_trip(v / 256, (n - 1) as nat);
        assert(le_bytes(v, n).drop_first() =~= rest);
        assert((v % 256) as u8 as nat == v % 256);
    }
}

/// Writing back the integer some bytes stand for gives the bytes.
pub proof fn lemma_le_write_back(s: Seq<u8>)
    ensures
        le_bytes(le_value(s), s.len()) == s,
        le_value(s) < byte_range(s.len()),
    decreases s.len(),
{
    if s.len() > 0 {
        let rest = s.drop_first();
        lemma_le_write_back(rest);
        let v = le_value(s);
        assert(v % 256 == s[0] as nat && v / 256 == le_value(rest));
        assert(le_bytes(v, s.len()) =~= s);
    }
}

/// Appends the two little-endian bytes of `v`.
pub fn put_u16(out: &mut Vec<u8>, v: u16)
    ensures
        final(out)@ == old(out)@ + le_bytes(v as nat, 2),
{
    let ghost before = out@;
    out.push((v % 256) as u8);
    out.push((v / 256) as u8);
    proof {
        reveal_with_fuel(le_bytes, 3);
        assert(out@ =~= before + le_bytes(v as nat, 2));
    }
}

/// Appends the four little-endian bytes of `v`.
pub fn put_u32(out: &mut Vec<u8>, v: u32)
    ensures
        final(out)@ == old(out)@ + le_bytes(v as nat, 4),
{
    let ghost before = out@;
    let mut rest: u32 = v;
    proof {
        lemma_le_len(v as nat, 4);
    }
    for i in 0..4usize
        invariant
            out@ + le_bytes(rest as nat, (4 - i) as nat) == before + le_bytes(v as nat, 4),
    {
        let ghost now = out@;
        let ghost left = le_bytes(rest as nat, (4 - i) as nat);
        out.push((rest % 256) as u8);
        rest = rest / 256;
        assert(out@ + le_bytes(rest as nat, (4 - (i + 1)) as nat) =~= now + left);
    }
    assert(out@ + le_bytes(rest as nat, 0) =~= out@);
}

/// Appends the eight little-endian bytes of `v`.
pub fn put_u64(out: &mut Vec<u8>, v: u64)
    ensures
        final(out)@ == old(out)@ + le_bytes(v as nat, 8),
{
    let ghost before = out@;
    let mut rest: u64 = v;
    proof {
        lemma_le_len(v as nat, 8);
    }
    for i in 0..8usize
        invariant
            out@ + le_bytes(rest as nat, (8 - i) as nat) == before + le_bytes(v as nat, 8),
    {
        let ghost now = out@;
        let ghost left = le_bytes(rest as nat, (8 - i) as nat);
        out.push((rest % 256) as u8);
        rest = rest / 256;
        assert(out@ + le_bytes(rest as nat, (8 - (i + 1)) as nat) =~= now + left);
    }
    assert(out@ + le_bytes(rest as nat, 0) =~= out@);
}

/// Appends a run of bytes.
pub fn put_bytes(out: &mut Vec<u8>, bytes: &[u8])
    ensures
        final(out)@ == old(out)@ + bytes@,
{
    let ghost before = out@;
    out.extend_from_slice(bytes);
    assert(out@ =~= before + bytes@);
}

/// Reads a little-endian `u16` at `at`.
pub fn read_u16(bytes: &[u8], at: usize) -> (v: u16)
    requires
        at + 2 <= bytes@.len(),
    ensures
        v as nat == le_value(bytes@.subrange(at as int, at + 2)),
{
    proof {
        reveal_with_fuel(le_value, 3);
        let s = bytes@.subrange(at as int, at + 2);
        assert(s[0] == bytes@[at as int] && s.drop_first()[0] == bytes@[at + 1]);
    }
    bytes[at] as u16 + 256 * (bytes[at + 1] as u16)
}

/// Reads a little-endian `u32` at `at`.
pub fn read_u32(bytes: &[u8], at: usize) -> (v: u32)
    requires
        at + 4 <= bytes@.len(),
    ensures
        v as nat == le_value(bytes@.subrange(at as int, at + 4)),
{
    proof {
        lemma_byte_ranges();
    }
    read_le(bytes, at, 4) as u32
}

/// Reads a little-endian `u64` at `at`.
pub fn read_u64(bytes: &[u8], at: usize) -> (v: u64)
    requires
        at + 8 <= bytes@.len(),
    ensures
        v as nat == le_value(bytes@.subrange(at as int, at + 8)),
{
    read_le(bytes, at, 8)
}

/// Reads the little-endian integer of `n` bytes at `at`.
fn read_le(bytes: &[u8], at: usize, n: usize) -> (v: u64)
    requires
        n == 4 || n == 8,
        at + n <= bytes@.len(),
    ensures
        v as nat == le_value(bytes@.subrange(at as int, at + n)),
        v < byte_range(n as nat),
{
    let ghost s = bytes@.subrange(at as int, at + n);
    let len: usize = bytes.len();
    let mut v: u64 = 0;
    let mut i: usize = n;
    assert(s.skip(n as int).len() == 0);
    while i > 0
        invariant
            n == 4 || n == 8,
            i <= n,
            at + n <= len,
            len == bytes@.len(),
            s == bytes@.subrange(at as int, at + n),
            v as nat == le_value(s.skip(i as int)),
        decreases i,
    {
        let ghost rest = s.skip(i as int);
        i = i - 1;
        proof {
            let now = s.skip(i as int);
            assert(now.drop_first() =~= rest);
            assert(now[0] == bytes@[at + i]);
            lemma_le_write_back(now);
            lemma_byte_ranges();
            lemma_range_grows(now.len(), 8);
        }
        v = bytes[at + i] as u64 + 256 * v;
    }
    assert(s.skip(0) =~= s);
    proof {
        lemma_le_write_back(s);
        lemma_byte_ranges();
    }
    v
}

proof fn lemma_range_grows(a: nat, b: nat)
    requires
        a <= b,
    ensures
        byte_range(a) <= byte_range(b),
    decreases b - a,
{
    if a < b {
        lemma_range_grows(a + 1, b);
    }
}

} // verus!
