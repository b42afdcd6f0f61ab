//! Bytes that read as a row are the bytes of that row, no more and no fewer.

use vstd::prelude::*;

use super::bytes::{byte_range, le_bytes, le_value, lemma_le_write_back};
use super::encode::{
    bias, content_of, int_bytes, lemma_values_front, parse_int, parse_row, parse_run, parse_scalar,
    parse_value, parse_values, row_bytes, run_bytes, tag_of, value_bytes, values_bytes,
};

verus! {

/// An integer that was read is written as the bytes it was read from.
proof fn lemma_int_writes_back(s: Seq<u8>)
    requires
        s.len() >= 16,
    ensures
        int_bytes(parse_int(s)) == s.take(16),
        -bias() <= parse_int(s) < bias(),
{
    lemma_le_write_back(s.take(16));
    reveal_with_fuel(byte_range, 17);
}

/// A run of bytes that was read is written as the bytes it was read from.
proof fn lemma_run_writes_back(s: Seq<u8>)
    requires
        parse_run(s) is Some,
    ensures
        run_bytes(parse_run(s)->0) == s.take(8 + (parse_run(s)->0).len() as int),
        8 + (parse_run(s)->0).len() <= s.len(),
{
    lemma_le_write_back(s.take(8));
    let b = parse_run(s)->0;
    assert(run_bytes(b) =~= s.take(8 + b.len() as int));
}

/// A number that was read under a tag has that tag and that number.
proof fn lemma_scalar_writes_back(tag: u8, x: int)
    requires
        parse_scalar(tag, x) is Some,
        -bias() <= x < bias(),
    ensures
        tag_of(parse_scalar(tag, x)->0) == tag,
        content_of(parse_scalar(tag, x)->0) == int_bytes(x),
{
}

/// A value that was read is written as the bytes it was read from.
proof fn lemma_value_writes_back(s: Seq<u8>)
    requires
        parse_value(s) is Some,
    ensures
        0 < (parse_value(s)->0).1 <= s.len(),
        value_bytes((parse_value(s)->0).0) == s.take((parse_value(s)->0).1),
{
    let (v, len) = parse_value(s)->0;
    let rest = s.skip(1);
    let tag = s[0];
    if tag == 0 {
        assert(value_bytes(v) =~= s.take(1));
    } else if tag == 1 {
        assert(value_bytes(v) =~= s.take(2));
    } else if tag == 6 || tag == 16 {
        lemma_int_writes_back(rest);
        lemma_int_writes_back(rest.skip(16));
        assert(rest.take(16) + rest.skip(16).take(16) =~= rest.take(32));
        assert(content_of(v) =~= rest.take(32));
        assert(value_bytes(v) =~= s.take(33));
    } else if tag == 10 {
        lemma_run_writes_back(rest);
        vstd::utf8::decode_utf8_encode_utf8(parse_run(rest)->0);
        assert(value_bytes(v) =~= s.take(len));
    } else if tag == 11 {
        lemma_run_writes_back(rest);
        assert(value_bytes(v) =~= s.take(len));
    } else {
        lemma_int_writes_back(rest);
        lemma_scalar_writes_back(tag, parse_int(rest));
        assert(value_bytes(v) =~= s.take(17));
    }
}

/// Values that were read are written as the bytes they were read from.
proof fn lemma_values_write_back(s: Seq<u8>, n: nat)
    requires
        parse_values(s, n) is Some,
    ensures
        values_bytes(parse_values(s, n)->0) == s,
        (parse_values(s, n)->0).len() == n,
    decreases n,
{
    if n == 0 {
        assert(values_bytes(Seq::empty()) =~= s);
    } else {
        let (v, len) = parse_value(s)->0;
        let rest = parse_values(s.skip(len), (n - 1) as nat)->0;
        lemma_value_writes_back(s);
        lemma_values_write_back(s.skip(len), (n - 1) as nat);
        lemma_values_front(v, rest);
        assert(s.take(len) + s.skip(len) =~= s);
    }
}

/// Bytes that read as a row are the bytes that row is written as: nothing is missing and nothing is left
/// over.
pub proof fn law_row_that_reads_was_written(s: Seq<u8>)
    requires
        parse_row(s) is Some,
    ensures
        row_bytes(parse_row(s)->0) == s,
{
    lemma_le_write_back(s.take(8));
    lemma_values_write_back(s.skip(8), le_value(s.take(8)));
    assert(le_bytes(le_value(s.take(8)), 8) + s.skip(8) =~= s);
}

} // verus!
