//! Damage is caught: a page, a control block or a record of the journal in which a byte changed does not
//! read.

use vstd::prelude::*;

use super::bytes::{
    le_bytes, le_value, lemma_byte_ranges, lemma_le_round_trip, lemma_le_write_back,
};
use super::control::control_ok;
use super::crc::crc_of;
use super::crc_laws::law_changed_byte_changes_the_checksum;
use super::page::{page_ok, splice, zeros, PAGE_SIZE};
use super::wal::{announced, frame_of, law_encoded_record_reads_back, RecordModel, MAX_PAYLOAD_LEN};

verus! {

/// The bytes with another one at `at`.
pub open spec fn changed(s: Seq<u8>, at: int, b: u8) -> Seq<u8> {
    s.update(at, b)
}

/// A run in which one byte changed has another checksum.
proof fn lemma_changed(s: Seq<u8>, at: int, b: u8)
    requires
        0 <= at < s.len(),
        b != s[at],
    ensures
        crc_of(s.update(at, b)) != crc_of(s),
{
    let before = s.take(at);
    let after = s.skip(at + 1);
    law_changed_byte_changes_the_checksum(before, b, s[at], after);
    assert(before.push(b) + after =~= s.update(at, b));
    assert(before.push(s[at]) + after =~= s);
}

/// Fields of the same number have the same bytes.
proof fn lemma_same_field(a: Seq<u8>, b: Seq<u8>)
    requires
        a.len() == b.len(),
        le_value(a) == le_value(b),
    ensures
        a == b,
{
    lemma_le_write_back(a);
    lemma_le_write_back(b);
}

/// A page that reads does not read any more once one of its bytes changed, whichever it is.
pub proof fn law_damaged_page_does_not_read(s: Seq<u8>, at: int, b: u8)
    requires
        s.len() == PAGE_SIZE,
        page_ok(s),
        0 <= at < s.len(),
        b != s[at],
    ensures
        !page_ok(changed(s, at, b)),
{
    let t = changed(s, at, b);
    let cleared = splice(s, 24, zeros(4));
    if 24 <= at < 28 {
        assert(splice(t, 24, zeros(4)) =~= cleared);
        if page_ok(t) {
            lemma_same_field(s.subrange(24, 28), t.subrange(24, 28));
            assert(s.subrange(24, 28)[at - 24] == s[at]);
            assert(t.subrange(24, 28)[at - 24] == b);
        }
    } else {
        assert(cleared.len() == s.len());
        assert(cleared[at] == s[at]);
        assert(splice(t, 24, zeros(4)) =~= cleared.update(at, b));
        lemma_changed(cleared, at, b);
        assert(t.subrange(24, 28) =~= s.subrange(24, 28));
    }
}

/// A control block that reads does not read any more once one of its bytes changed, whichever it is.
pub proof fn law_damaged_control_block_does_not_read(s: Seq<u8>, at: int, b: u8)
    requires
        control_ok(s),
        0 <= at < s.len(),
        b != s[at],
    ensures
        !control_ok(changed(s, at, b)),
{
    let t = changed(s, at, b);
    if at < 124 {
        assert(t.take(124) =~= s.take(124).update(at, b));
        lemma_changed(s.take(124), at, b);
        assert(t.subrange(124, 128) =~= s.subrange(124, 128));
    } else if control_ok(t) {
        assert(t.take(124) =~= s.take(124));
        lemma_same_field(s.subrange(124, 128), t.subrange(124, 128));
        assert(s.subrange(124, 128)[at - 124] == s[at]);
        assert(t.subrange(124, 128)[at - 124] == b);
    }
}

/// A record of the journal in which a byte behind its length changed is damaged: it is neither read nor
/// taken for something that was written whole.
pub proof fn law_damaged_record_does_not_read(
    record: RecordModel,
    rest: Seq<u8>,
    offset: u64,
    at: int,
    b: u8,
)
    requires
        record.payload.len() <= MAX_PAYLOAD_LEN,
        4 <= at < record.encoded().len(),
        b != record.encoded()[at],
    ensures
        frame_of(changed(record.encoded(), at, b) + rest, offset) is Damaged,
{
    let enc = record.encoded();
    let body = record.body();
    let length = (30 + record.payload.len()) as int;
    let region = changed(enc, at, b) + rest;
    law_encoded_record_reads_back(record, rest, offset);
    lemma_byte_ranges();
    lemma_le_round_trip(length as nat, 4);
    lemma_le_round_trip(crc_of(body) as nat, 4);
    assert(body.len() == length);
    assert(region.take(4) =~= le_bytes(length as nat, 4));
    assert(announced(region) == length);
    let seal = le_bytes(crc_of(body) as nat, 4);
    let stored = region.subrange(length, length + 4);
    lemma_le_write_back(stored);
    if at < length {
        assert(enc[at] == body[at]);
        assert(region.take(length) =~= body.update(at, b));
        lemma_changed(body, at, b);
        assert(stored =~= seal);
    } else {
        assert(region.take(length) =~= body);
        assert(stored =~= seal.update(at - length, b));
        assert(enc[at] == seal[at - length]);
        if le_value(stored) == crc_of(body) {
            lemma_same_field(stored, seal);
        }
    }
}

} // verus!
