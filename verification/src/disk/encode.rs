//! The bytes of a row: how the columns of a version are written in a heap record and in the
//! payload of a journal record.
//!
//! # Layout, little-endian
//!
//! A row is the number of its values (8 bytes) then the values. A value is one tag byte then its
//! content: nothing for `NULL`, one byte for a `bit`, 16 bytes for each integer (biased by
//! `2^127`, so that the bytes of a signed integer are those of an unsigned one), and 8 bytes of
//! length then the bytes for a binary value and for the UTF-8 form of a string.

use vstd::prelude::*;

use super::bytes::{
    byte_range, le_bytes, le_value, lemma_byte_ranges, lemma_le_len, lemma_le_round_trip,
    lemma_le_write_back, put_bytes, put_u64, read_u64,
};
use crate::error::{Corruption, InternalError};
use crate::row::Row;
use crate::value::{Decimal, OffsetInstant, SqlString, Value, ValueModel};
use vstd::utf8::{decode_utf8, encode_utf8, valid_utf8};

verus! {

/// What is added to a signed integer before it is written.
pub open spec fn bias() -> int {
    0x8000_0000_0000_0000_0000_0000_0000_0000
}

/// The 16 bytes of an integer.
pub open spec fn int_bytes(x: int) -> Seq<u8> {
    le_bytes((x + bias()) as nat, 16)
}

/// The length of a run of bytes then the bytes.
pub open spec fn run_bytes(b: Seq<u8>) -> Seq<u8> {
    le_bytes(b.len(), 8) + b
}

/// The tag of a value.
pub open spec fn tag_of(v: ValueModel) -> u8 {
    match v {
        ValueModel::Null => 0,
        ValueModel::Bit(_) => 1,
        ValueModel::I8(_) => 2,
        ValueModel::I16(_) => 3,
        ValueModel::I32(_) => 4,
        ValueModel::I64(_) => 5,
        ValueModel::Decimal(_) => 6,
        ValueModel::F32(_) => 7,
        ValueModel::F64(_) => 8,
        ValueModel::Money(_) => 9,
        ValueModel::String(_) => 10,
        ValueModel::Bytes(_) => 11,
        ValueModel::Date(_) => 12,
        ValueModel::Time(_) => 13,
        ValueModel::DateTime(_) => 14,
        ValueModel::DateTime2(_) => 15,
        ValueModel::DateTimeOffset(_) => 16,
        ValueModel::Guid(_) => 17,
    }
}

/// The content of a value, after its tag.
pub open spec fn content_of(v: ValueModel) -> Seq<u8> {
    match v {
        ValueModel::Null => Seq::empty(),
        ValueModel::Bit(x) => seq![if x { 1u8 } else { 0u8 }],
        ValueModel::I8(x) => int_bytes(x as int),
        ValueModel::I16(x) => int_bytes(x as int),
        ValueModel::I32(x) => int_bytes(x as int),
        ValueModel::I64(x) => int_bytes(x as int),
        ValueModel::Decimal(x) => int_bytes(x.whole as int) + int_bytes(x.fraction as int),
        ValueModel::F32(x) => int_bytes(x as int),
        ValueModel::F64(x) => int_bytes(x as int),
        ValueModel::Money(x) => int_bytes(x as int),
        ValueModel::String(s) => run_bytes(encode_utf8(s)),
        ValueModel::Bytes(b) => run_bytes(b),
        ValueModel::Date(x) => int_bytes(x as int),
        ValueModel::Time(x) => int_bytes(x as int),
        ValueModel::DateTime(x) => int_bytes(x as int),
        ValueModel::DateTime2(x) => int_bytes(x as int),
        ValueModel::DateTimeOffset(x) => int_bytes(x.ticks as int) + int_bytes(x.offset as int),
        ValueModel::Guid(x) => int_bytes(x as int - bias()),
    }
}

/// The bytes of a value.
pub open spec fn value_bytes(v: ValueModel) -> Seq<u8> {
    seq![tag_of(v)] + content_of(v)
}

/// The bytes of the values of a row.
pub open spec fn values_bytes(row: Seq<ValueModel>) -> Seq<u8>
    decreases row.len(),
{
    if row.len() == 0 {
        Seq::empty()
    } else {
        values_bytes(row.drop_last()) + value_bytes(row.last())
    }
}

/// The bytes of a row.
pub open spec fn row_bytes(row: Seq<ValueModel>) -> Seq<u8> {
    le_bytes(row.len(), 8) + values_bytes(row)
}

/// Whether every string and binary value of the row is shorter than `2^64` bytes.
pub open spec fn lengths_fit(v: ValueModel) -> bool {
    match v {
        ValueModel::String(s) => encode_utf8(s).len() < byte_range(8),
        ValueModel::Bytes(b) => b.len() < byte_range(8),
        _ => true,
    }
}

/// Appends the 16 bytes of a biased integer.
fn put_biased(out: &mut Vec<u8>, v: u128)
    ensures
        final(out)@ == old(out)@ + le_bytes(v as nat, 16),
{
    let ghost before = out@;
    let mut rest: u128 = v;
    proof {
        lemma_le_len(v as nat, 16);
    }
    for i in 0..16usize
        invariant
            out@ + le_bytes(rest as nat, (16 - i) as nat) == before + le_bytes(v as nat, 16),
    {
        let ghost now = out@;
        let ghost left = le_bytes(rest as nat, (16 - i) as nat);
        out.push((rest % 256) as u8);
        rest = rest / 256;
        assert(out@ + le_bytes(rest as nat, (16 - (i + 1)) as nat) =~= now + left);
    }
    assert(out@ + le_bytes(rest as nat, 0) =~= out@);
}

/// Appends the 16 bytes of a signed integer.
fn put_int(out: &mut Vec<u8>, x: i128)
    ensures
        final(out)@ == old(out)@ + int_bytes(x as int),
{
    let biased: u128 = if x >= 0 {
        x as u128 + 0x8000_0000_0000_0000_0000_0000_0000_0000
    } else {
        (x + i128::MAX + 1) as u128
    };
    put_biased(out, biased);
}

/// Appends the length of a run of bytes then the bytes.
fn put_run(out: &mut Vec<u8>, bytes: &[u8])
    ensures
        final(out)@ == old(out)@ + run_bytes(bytes@),
        bytes@.len() < byte_range(8),
{
    let ghost before = out@;
    proof {
        lemma_byte_ranges();
    }
    put_u64(out, bytes.len() as u64);
    put_bytes(out, bytes);
    assert(out@ =~= before + run_bytes(bytes@));
}

/// Appends the bytes of a value.
fn encode_value(v: &Value, out: &mut Vec<u8>)
    ensures
        final(out)@ == old(out)@ + value_bytes(v@),
        lengths_fit(v@),
{
    let ghost before = out@;
    out.push(tag(v));
    let ghost tagged = out@;
    assert(tagged =~= before + seq![tag_of(v@)]);
    match v {
        Value::Null => {},
        Value::Bit(x) => out.push(if *x { 1 } else { 0 }),
        Value::I8(x) => put_int(out, *x as i128),
        Value::I16(x) => put_int(out, *x as i128),
        Value::I32(x) => put_int(out, *x as i128),
        Value::I64(x) => put_int(out, *x as i128),
        Value::Decimal(x) => {
            put_int(out, x.whole);
            put_int(out, x.fraction);
        },
        Value::F32(x) => put_int(out, *x as i128),
        Value::F64(x) => put_int(out, *x as i128),
        Value::Money(x) => put_int(out, *x as i128),
        Value::String(s) => put_run(out, s.text.as_str().as_bytes()),
        Value::Bytes(b) => put_run(out, b.as_slice()),
        Value::Date(x) => put_int(out, *x as i128),
        Value::Time(x) => put_int(out, *x as i128),
        Value::DateTime(x) => put_int(out, *x as i128),
        Value::DateTime2(x) => put_int(out, *x as i128),
        Value::DateTimeOffset(x) => {
            put_int(out, x.ticks as i128);
            put_int(out, x.offset as i128);
        },
        Value::Guid(x) => put_biased(out, *x),
    }
    assert(out@ =~= tagged + content_of(v@));
    assert(out@ =~= before + value_bytes(v@));
}

/// The tag of a value.
fn tag(v: &Value) -> (r: u8)
    ensures
        r == tag_of(v@),
{
    match v {
        Value::Null => 0,
        Value::Bit(_) => 1,
        Value::I8(_) => 2,
        Value::I16(_) => 3,
        Value::I32(_) => 4,
        Value::I64(_) => 5,
        Value::Decimal(_) => 6,
        Value::F32(_) => 7,
        Value::F64(_) => 8,
        Value::Money(_) => 9,
        Value::String(_) => 10,
        Value::Bytes(_) => 11,
        Value::Date(_) => 12,
        Value::Time(_) => 13,
        Value::DateTime(_) => 14,
        Value::DateTime2(_) => 15,
        Value::DateTimeOffset(_) => 16,
        Value::Guid(_) => 17,
    }
}

/// Appends the bytes of a row.
pub fn encode_row(row: &Row, out: &mut Vec<u8>)
    ensures
        final(out)@ == old(out)@ + row_bytes(row@),
        parse_row(row_bytes(row@)) == Some(row@),
{
    let ghost before = out@;
    put_u64(out, row.0.len() as u64);
    let ghost counted = out@;
    assert(counted + values_bytes(row@.take(0)) =~= counted);
    for i in 0..row.0.len()
        invariant
            out@ == counted + values_bytes(row@.take(i as int)),
            forall|k: int| 0 <= k < i ==> lengths_fit(#[trigger] row@[k]),
    {
        let ghost now = out@;
        encode_value(&row.0[i], out);
        proof {
            let longer = row@.take(i + 1);
            assert(longer.drop_last() =~= row@.take(i as int));
            assert(longer.last() == row.0@[i as int]@);
            assert(out@ =~= counted + values_bytes(longer));
        }
    }
    assert(row@.take(row@.len() as int) =~= row@);
    assert(out@ =~= before + row_bytes(row@));
    proof {
        lemma_byte_ranges();
        law_row_reads_back(row@);
    }
}

/// The value the bytes at the start of `s` stand for, and how many bytes it takes.
pub open spec fn parse_value(s: Seq<u8>) -> Option<(ValueModel, int)> {
    if s.len() == 0 {
        None
    } else {
        let rest = s.skip(1);
        match s[0] {
            0 => Some((ValueModel::Null, 1)),
            1 => if rest.len() >= 1 && rest[0] <= 1 {
                Some((ValueModel::Bit(rest[0] == 1), 2))
            } else {
                None
            },
            6 => if rest.len() >= 32 {
                Some(
                    (
                        ValueModel::Decimal(
                            Decimal {
                                whole: parse_int(rest) as i128,
                                fraction: parse_int(rest.skip(16)) as i128,
                            },
                        ),
                        33,
                    ),
                )
            } else {
                None
            },
            10 => match parse_run(rest) {
                Some(b) => if valid_utf8(b) {
                    Some((ValueModel::String(decode_utf8(b)), 9 + b.len() as int))
                } else {
                    None
                },
                None => None,
            },
            11 => match parse_run(rest) {
                Some(b) => Some((ValueModel::Bytes(b), 9 + b.len() as int)),
                None => None,
            },
            16 => if rest.len() >= 32 && i64::MIN <= parse_int(rest) <= i64::MAX && i16::MIN
                <= parse_int(rest.skip(16)) <= i16::MAX {
                Some(
                    (
                        ValueModel::DateTimeOffset(
                            OffsetInstant {
                                ticks: parse_int(rest) as i64,
                                offset: parse_int(rest.skip(16)) as i16,
                            },
                        ),
                        33,
                    ),
                )
            } else {
                None
            },
            tag => if rest.len() >= 16 {
                match parse_scalar(tag, parse_int(rest)) {
                    Some(v) => Some((v, 17)),
                    None => None,
                }
            } else {
                None
            },
        }
    }
}

/// The integer the first 16 bytes stand for.
pub open spec fn parse_int(s: Seq<u8>) -> int {
    le_value(s.take(16)) - bias()
}

/// The run of bytes at the start of `s`, if it is all there.
pub open spec fn parse_run(s: Seq<u8>) -> Option<Seq<u8>> {
    if s.len() >= 8 && le_value(s.take(8)) <= s.len() - 8 {
        Some(s.subrange(8, 8 + le_value(s.take(8)) as int))
    } else {
        None
    }
}

/// The value of one integer under a tag, if the integer is in the range of the type.
pub open spec fn parse_scalar(tag: u8, x: int) -> Option<ValueModel> {
    match tag {
        2 => if 0 <= x <= u8::MAX {
            Some(ValueModel::I8(x as u8))
        } else {
            None
        },
        3 => if i16::MIN <= x <= i16::MAX {
            Some(ValueModel::I16(x as i16))
        } else {
            None
        },
        4 => if i32::MIN <= x <= i32::MAX {
            Some(ValueModel::I32(x as i32))
        } else {
            None
        },
        5 => if i64::MIN <= x <= i64::MAX {
            Some(ValueModel::I64(x as i64))
        } else {
            None
        },
        7 => if i64::MIN <= x <= i64::MAX {
            Some(ValueModel::F32(x as i64))
        } else {
            None
        },
        8 => if i64::MIN <= x <= i64::MAX {
            Some(ValueModel::F64(x as i64))
        } else {
            None
        },
        9 => if i64::MIN <= x <= i64::MAX {
            Some(ValueModel::Money(x as i64))
        } else {
            None
        },
        12 => if i32::MIN <= x <= i32::MAX {
            Some(ValueModel::Date(x as i32))
        } else {
            None
        },
        13 => if 0 <= x <= u64::MAX {
            Some(ValueModel::Time(x as u64))
        } else {
            None
        },
        14 => if i64::MIN <= x <= i64::MAX {
            Some(ValueModel::DateTime(x as i64))
        } else {
            None
        },
        15 => if i64::MIN <= x <= i64::MAX {
            Some(ValueModel::DateTime2(x as i64))
        } else {
            None
        },
        17 => Some(ValueModel::Guid((x + bias()) as u128)),
        _ => None,
    }
}

/// The `n` values the bytes at the start of `s` stand for, when they take all of `s`.
pub open spec fn parse_values(s: Seq<u8>, n: nat) -> Option<Seq<ValueModel>>
    decreases n,
{
    if n == 0 {
        if s.len() == 0 {
            Some(Seq::empty())
        } else {
            None
        }
    } else {
        match parse_value(s) {
            Some((v, len)) => if 0 < len <= s.len() {
                match parse_values(s.skip(len), (n - 1) as nat) {
                    Some(rest) => Some(seq![v] + rest),
                    None => None,
                }
            } else {
                None
            },
            None => None,
        }
    }
}

/// The row some bytes stand for.
pub open spec fn parse_row(s: Seq<u8>) -> Option<Seq<ValueModel>> {
    if s.len() < 8 {
        None
    } else {
        parse_values(s.skip(8), le_value(s.take(8)))
    }
}

/// The string of the bytes of a UTF-8 text, by `String::from_utf8`: the string whose characters
/// the bytes encode when they are valid UTF-8, nothing otherwise.
#[verifier::external_body]
pub(crate) fn utf8_text(bytes: Vec<u8>) -> (r: Option<String>)
    ensures
        match r {
            Some(s) => valid_utf8(bytes@) && s@ == decode_utf8(bytes@),
            None => !valid_utf8(bytes@),
        },
{
    String::from_utf8(bytes).ok()
}

/// The unsigned integer of the 16 bytes at `at`.
fn read_biased(bytes: &[u8], at: usize) -> (v: u128)
    requires
        at + 16 <= bytes@.len(),
    ensures
        v as nat == le_value(bytes@.subrange(at as int, at + 16)),
{
    let len: usize = bytes.len();
    let low: u64 = read_u64(bytes, at);
    let high: u64 = read_u64(bytes, at + 8);
    let v: u128 = low as u128 + 0x1_0000_0000_0000_0000 * (high as u128);
    proof {
        let s = bytes@.subrange(at as int, at + 16);
        assert(s.take(8) =~= bytes@.subrange(at as int, at + 8));
        assert(s.skip(8) =~= bytes@.subrange(at + 8, at + 16));
        lemma_le_parts(s, 8);
        lemma_byte_ranges();
    }
    v
}

/// An integer is its low bytes plus its high bytes shifted.
proof fn lemma_le_parts(s: Seq<u8>, k: nat)
    requires
        k <= s.len(),
    ensures
        le_value(s) == le_value(s.take(k as int)) + byte_range(k) * le_value(s.skip(k as int)),
    decreases k,
{
    if k == 0 {
        assert(s.take(0) =~= Seq::empty());
        assert(s.skip(0) =~= s);
        let one = byte_range(0);
        let all = le_value(s);
        assert(one * all == all) by (nonlinear_arith)
            requires
                one == 1,
        ;
    } else {
        let rest = s.drop_first();
        lemma_le_parts(rest, (k - 1) as nat);
        assert(s.take(k as int).drop_first() =~= rest.take(k - 1));
        assert(s.skip(k as int) =~= rest.skip(k - 1));
        assert(s.take(k as int)[0] == s[0]);
        let low = le_value(rest.take(k - 1));
        let range = byte_range((k - 1) as nat);
        let high = le_value(s.skip(k as int));
        assert(le_value(s) == s[0] as nat + 256 * le_value(rest));
        assert(le_value(s.take(k as int)) == s[0] as nat + 256 * low);
        let whole = byte_range(k);
        assert(whole * high == (256 * range) * high) by (nonlinear_arith)
            requires
                whole == 256 * range,
        ;
        assert(256 * (low + range * high) == 256 * low + (256 * range) * high) by (nonlinear_arith);
    }
}

/// The signed integer of the 16 bytes at `at`.
fn read_int(bytes: &[u8], at: usize) -> (x: i128)
    requires
        at + 16 <= bytes@.len(),
    ensures
        x as int == le_value(bytes@.subrange(at as int, at + 16)) - bias(),
{
    let v: u128 = read_biased(bytes, at);
    if v >= 0x8000_0000_0000_0000_0000_0000_0000_0000 {
        (v - 0x8000_0000_0000_0000_0000_0000_0000_0000) as i128
    } else {
        (v as i128) - i128::MAX - 1
    }
}

/// The run of bytes at `at`, if it is all there.
fn read_run(bytes: &[u8], at: usize) -> (r: Option<Vec<u8>>)
    requires
        at <= bytes@.len(),
    ensures
        match r {
            Some(b) => parse_run(bytes@.skip(at as int)) == Some(b@),
            None => parse_run(bytes@.skip(at as int)) is None,
        },
{
    let size: usize = bytes.len();
    let ghost s = bytes@.skip(at as int);
    if size - at < 8 {
        return None;
    }
    assert(s.take(8) =~= bytes@.subrange(at as int, at + 8));
    let len: u64 = read_u64(bytes, at);
    if len > (size - at - 8) as u64 {
        return None;
    }
    let mut run: Vec<u8> = Vec::new();
    put_bytes(&mut run, vstd::slice::slice_subrange(bytes, at + 8, at + 8 + len as usize));
    assert(run@ =~= s.subrange(8, 8 + len));
    Some(run)
}

/// The value of one integer under a tag.
fn scalar(tag: u8, x: i128, raw: u128) -> (r: Option<Value>)
    requires
        raw as int == x + bias(),
    ensures
        match r {
            Some(v) => parse_scalar(tag, x as int) == Some(v@),
            None => parse_scalar(tag, x as int) is None,
        },
{
    let in_i64: bool = i64::MIN as i128 <= x && x <= i64::MAX as i128;
    let in_i32: bool = i32::MIN as i128 <= x && x <= i32::MAX as i128;
    match tag {
        2 => if 0 <= x && x <= 255 {
            Some(Value::I8(x as u8))
        } else {
            None
        },
        3 => if -32768 <= x && x <= 32767 {
            Some(Value::I16(x as i16))
        } else {
            None
        },
        4 => if in_i32 {
            Some(Value::I32(x as i32))
        } else {
            None
        },
        5 => if in_i64 {
            Some(Value::I64(x as i64))
        } else {
            None
        },
        7 => if in_i64 {
            Some(Value::F32(x as i64))
        } else {
            None
        },
        8 => if in_i64 {
            Some(Value::F64(x as i64))
        } else {
            None
        },
        9 => if in_i64 {
            Some(Value::Money(x as i64))
        } else {
            None
        },
        12 => if in_i32 {
            Some(Value::Date(x as i32))
        } else {
            None
        },
        13 => if 0 <= x && x <= u64::MAX as i128 {
            Some(Value::Time(x as u64))
        } else {
            None
        },
        14 => if in_i64 {
            Some(Value::DateTime(x as i64))
        } else {
            None
        },
        15 => if in_i64 {
            Some(Value::DateTime2(x as i64))
        } else {
            None
        },
        17 => Some(Value::Guid(raw)),
        _ => None,
    }
}

/// The value at `at` and the offset past it.
fn decode_value(bytes: &[u8], at: usize) -> (r: Option<(Value, usize)>)
    requires
        at <= bytes@.len(),
    ensures
        match r {
            Some((v, next)) => parse_value(bytes@.skip(at as int)) == Some((v@, next - at)) && at
                < next <= bytes@.len(),
            None => parse_value(bytes@.skip(at as int)) is None,
        },
{
    let size: usize = bytes.len();
    let ghost s = bytes@.skip(at as int);
    if at >= size {
        return None;
    }
    let tag: u8 = bytes[at];
    let rest: usize = at + 1;
    let ghost after = s.skip(1);
    assert(after =~= bytes@.skip(rest as int));
    proof {
        if after.len() >= 16 {
            assert(after.take(16) =~= bytes@.subrange(rest as int, rest + 16));
            lemma_le_write_back(after.take(16));
            lemma_range_16();
        }
        if after.len() >= 32 {
            assert(after.skip(16).take(16) =~= bytes@.subrange(rest + 16, rest + 32));
            lemma_le_write_back(after.skip(16).take(16));
            lemma_range_16();
        }
    }
    if tag == 0 {
        return Some((Value::Null, rest));
    }
    if tag == 1 {
        if rest < size && bytes[rest] <= 1 {
            return Some((Value::Bit(bytes[rest] == 1), rest + 1));
        }
        return None;
    }
    if tag == 6 {
        if size - rest < 32 {
            return None;
        }
        let whole: i128 = read_int(bytes, rest);
        let fraction: i128 = read_int(bytes, rest + 16);
        return Some((Value::Decimal(Decimal { whole, fraction }), rest + 32));
    }
    if tag == 10 {
        return match read_run(bytes, rest) {
            Some(run) => {
                let len: usize = run.len();
                match utf8_text(run) {
                    Some(text) => Some((Value::String(SqlString { text }), rest + 8 + len)),
                    None => None,
                }
            },
            None => None,
        };
    }
    if tag == 11 {
        return match read_run(bytes, rest) {
            Some(run) => {
                let len: usize = run.len();
                Some((Value::Bytes(run), rest + 8 + len))
            },
            None => None,
        };
    }
    if tag == 16 {
        if size - rest < 32 {
            return None;
        }
        let ticks: i128 = read_int(bytes, rest);
        let offset: i128 = read_int(bytes, rest + 16);
        if ticks < i64::MIN as i128 || ticks > i64::MAX as i128 || offset < -32768 || offset
            > 32767 {
            return None;
        }
        return Some(
            (
                Value::DateTimeOffset(OffsetInstant { ticks: ticks as i64, offset: offset as i16 }),
                rest + 32,
            ),
        );
    }
    if size - rest < 16 {
        return None;
    }
    match scalar(tag, read_int(bytes, rest), read_biased(bytes, rest)) {
        Some(v) => Some((v, rest + 16)),
        None => None,
    }
}

proof fn lemma_range_16()
    ensures
        byte_range(16) == 2 * bias(),
{
    reveal_with_fuel(byte_range, 17);
}

/// The error of bytes that are no row.
pub open spec fn not_a_row(len: nat, e: InternalError) -> bool {
    e == InternalError::Corruption(Corruption::NotARow { bytes: len as usize })
}

/// Reads a row back.
///
/// # Errors
///
/// A corruption for bytes that are not the bytes of a row.
pub fn decode_row(bytes: &[u8]) -> (r: Result<Row, InternalError>)
    ensures
        match r {
            Ok(row) => parse_row(bytes@) == Some(row@),
            Err(e) => parse_row(bytes@) is None && not_a_row(bytes@.len(), e),
        },
{
    let size: usize = bytes.len();
    if size < 8 {
        return Err(InternalError::Corruption(Corruption::NotARow { bytes: size }));
    }
    assert(bytes@.take(8) =~= bytes@.subrange(0, 8));
    let count: u64 = read_u64(bytes, 0);
    let mut left: u64 = count;
    let mut at: usize = 8;
    let mut values: Vec<Value> = Vec::new();
    let ghost all = parse_row(bytes@);
    assert(joined(values.deep_view(), parse_values(bytes@.skip(8), left as nat)) == all) by {
        if let Some(rest) = parse_values(bytes@.skip(8), left as nat) {
            assert(values.deep_view() + rest =~= rest);
        }
    }
    while left > 0
        invariant
            size == bytes@.len(),
            at <= size,
            all == parse_row(bytes@),
            joined(values.deep_view(), parse_values(bytes@.skip(at as int), left as nat)) == all,
        decreases left,
    {
        let ghost before = values.deep_view();
        let ghost here = bytes@.skip(at as int);
        match decode_value(bytes, at) {
            Some((v, next)) => {
                proof {
                    assert(here.skip(next - at) =~= bytes@.skip(next as int));
                    if let Some(rest) = parse_values(bytes@.skip(next as int), (left - 1) as nat) {
                        assert(before + (seq![v@] + rest) =~= before.push(v@) + rest);
                    }
                }
                values.push(v);
                assert(values.deep_view() =~= before.push(v@));
                at = next;
                left = left - 1;
            },
            None => {
                return Err(InternalError::Corruption(Corruption::NotARow { bytes: size }));
            },
        }
    }
    if at < size {
        return Err(InternalError::Corruption(Corruption::NotARow { bytes: size }));
    }
    assert(bytes@.skip(at as int).len() == 0);
    assert(values.deep_view() + Seq::<ValueModel>::empty() =~= values.deep_view());
    Ok(Row(values))
}

/// The values read so far with the ones still to be read.
spec fn joined(done: Seq<ValueModel>, rest: Option<Seq<ValueModel>>) -> Option<Seq<ValueModel>> {
    match rest {
        Some(r) => Some(done + r),
        None => None,
    }
}

/// The bytes of an integer read back as the integer.
proof fn lemma_int_reads_back(x: int, rest: Seq<u8>)
    requires
        -bias() <= x < bias(),
    ensures
        int_bytes(x).len() == 16,
        parse_int(int_bytes(x) + rest) == x,
{
    lemma_range_16();
    lemma_le_round_trip((x + bias()) as nat, 16);
    assert((int_bytes(x) + rest).take(16) =~= int_bytes(x));
}

/// A run of bytes reads back.
proof fn lemma_run_reads_back(b: Seq<u8>, rest: Seq<u8>)
    requires
        b.len() < byte_range(8),
    ensures
        run_bytes(b).len() == 8 + b.len(),
        parse_run(run_bytes(b) + rest) == Some(b),
{
    lemma_le_round_trip(b.len(), 8);
    let s = run_bytes(b) + rest;
    assert(s.take(8) =~= le_bytes(b.len(), 8));
    assert(s.subrange(8, 8 + b.len() as int) =~= b);
}

/// A value reads back from its bytes, whatever follows them.
proof fn lemma_value_reads_back(v: ValueModel, rest: Seq<u8>)
    requires
        lengths_fit(v),
    ensures
        parse_value(value_bytes(v) + rest) == Some((v, value_bytes(v).len() as int)),
        value_bytes(v).len() > 0,
{
    let s = value_bytes(v) + rest;
    let after = s.skip(1);
    assert(s[0] == tag_of(v));
    assert(after =~= content_of(v) + rest);
    match v {
        ValueModel::Null => {},
        ValueModel::Bit(_) => {},
        ValueModel::String(t) => {
            vstd::utf8::encode_utf8_valid_utf8(t);
            vstd::utf8::encode_utf8_decode_utf8(t);
            lemma_run_reads_back(encode_utf8(t), rest);
        },
        ValueModel::Bytes(b) => {
            lemma_run_reads_back(b, rest);
        },
        ValueModel::Decimal(x) => {
            lemma_int_reads_back(x.whole as int, int_bytes(x.fraction as int) + rest);
            lemma_int_reads_back(x.fraction as int, rest);
            assert(after =~= int_bytes(x.whole as int) + (int_bytes(x.fraction as int) + rest));
            assert(after.skip(16) =~= int_bytes(x.fraction as int) + rest);
        },
        ValueModel::DateTimeOffset(x) => {
            lemma_int_reads_back(x.ticks as int, int_bytes(x.offset as int) + rest);
            lemma_int_reads_back(x.offset as int, rest);
            assert(after =~= int_bytes(x.ticks as int) + (int_bytes(x.offset as int) + rest));
            assert(after.skip(16) =~= int_bytes(x.offset as int) + rest);
        },
        ValueModel::I8(x) => lemma_int_reads_back(x as int, rest),
        ValueModel::I16(x) => lemma_int_reads_back(x as int, rest),
        ValueModel::I32(x) => lemma_int_reads_back(x as int, rest),
        ValueModel::I64(x) => lemma_int_reads_back(x as int, rest),
        ValueModel::F32(x) => lemma_int_reads_back(x as int, rest),
        ValueModel::F64(x) => lemma_int_reads_back(x as int, rest),
        ValueModel::Money(x) => lemma_int_reads_back(x as int, rest),
        ValueModel::Date(x) => lemma_int_reads_back(x as int, rest),
        ValueModel::Time(x) => lemma_int_reads_back(x as int, rest),
        ValueModel::DateTime(x) => lemma_int_reads_back(x as int, rest),
        ValueModel::DateTime2(x) => lemma_int_reads_back(x as int, rest),
        ValueModel::Guid(x) => lemma_int_reads_back(x as int - bias(), rest),
    }
}

/// The bytes of the values of a row, from the first one on.
pub proof fn lemma_values_front(v: ValueModel, rest: Seq<ValueModel>)
    ensures
        values_bytes(seq![v] + rest) == value_bytes(v) + values_bytes(rest),
    decreases rest.len(),
{
    let all = seq![v] + rest;
    if rest.len() == 0 {
        assert(all.drop_last() =~= Seq::empty());
        assert(all.last() == v);
        assert(values_bytes(all.drop_last()) =~= Seq::empty());
        assert(values_bytes(all) =~= value_bytes(v) + values_bytes(rest));
    } else {
        assert(all.drop_last() =~= seq![v] + rest.drop_last());
        assert(all.last() == rest.last());
        lemma_values_front(v, rest.drop_last());
        assert(values_bytes(all) =~= value_bytes(v) + values_bytes(rest));
    }
}

proof fn lemma_values_read_back(row: Seq<ValueModel>)
    requires
        forall|i: int| 0 <= i < row.len() ==> lengths_fit(#[trigger] row[i]),
    ensures
        parse_values(values_bytes(row), row.len()) == Some(row),
    decreases row.len(),
{
    if row.len() > 0 {
        let v = row[0];
        let rest = row.drop_first();
        assert(row =~= seq![v] + rest);
        lemma_values_front(v, rest);
        assert(lengths_fit(row[0]));
        lemma_value_reads_back(v, values_bytes(rest));
        assert forall|i: int| 0 <= i < rest.len() implies lengths_fit(#[trigger] rest[i]) by {
            assert(rest[i] == row[i + 1]);
        }
        lemma_values_read_back(rest);
        let s = values_bytes(row);
        assert(s.skip(value_bytes(v).len() as int) =~= values_bytes(rest));
    } else {
        assert(values_bytes(row) =~= Seq::empty());
        assert(row =~= Seq::empty());
    }
}

/// A row reads back from its bytes, as long as its lengths fit the eight bytes they are written
/// on.
pub proof fn law_row_reads_back(row: Seq<ValueModel>)
    requires
        row.len() < byte_range(8),
        forall|i: int| 0 <= i < row.len() ==> lengths_fit(#[trigger] row[i]),
    ensures
        parse_row(row_bytes(row)) == Some(row),
{
    lemma_le_round_trip(row.len(), 8);
    lemma_values_read_back(row);
    let s = row_bytes(row);
    assert(s.take(8) =~= le_bytes(row.len(), 8));
    assert(s.skip(8) =~= values_bytes(row));
}

/// The bytes of the values of a row are at least as many as the values, and hold each of them.
proof fn lemma_values_len(row: Seq<ValueModel>)
    ensures
        row.len() <= values_bytes(row).len(),
        forall|i: int|
            0 <= i < row.len() ==> value_bytes(#[trigger] row[i]).len() <= values_bytes(row).len(),
    decreases row.len(),
{
    if row.len() > 0 {
        let front = row.drop_last();
        lemma_values_len(front);
        assert forall|i: int| 0 <= i < row.len() implies value_bytes(#[trigger] row[i]).len()
            <= values_bytes(row).len() by {
            if i < front.len() {
                assert(front[i] == row[i]);
            }
        }
    }
}

/// A row whose bytes are fewer than `2^64` reads back.
pub proof fn law_short_row_reads_back(row: Seq<ValueModel>)
    requires
        row_bytes(row).len() < byte_range(8),
    ensures
        parse_row(row_bytes(row)) == Some(row),
{
    lemma_le_len(row.len(), 8);
    lemma_values_len(row);
    assert forall|i: int| 0 <= i < row.len() implies lengths_fit(#[trigger] row[i]) by {
        assert(value_bytes(row[i]).len() <= values_bytes(row).len());
    }
    law_row_reads_back(row);
}

} // verus!
