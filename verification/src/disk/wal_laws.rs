//! What a journal that was cut short or damaged still tells.

use vstd::prelude::*;

use super::bytes::{le_bytes, le_value, lemma_byte_ranges, lemma_le_round_trip};
use super::crc::crc_of;
use super::wal::{
    announced, continues, end_from, frame_of, journal_end, journal_records,
    law_encoded_record_reads_back, law_whole_record_was_encoded, lemma_frame_stable, lemma_len_at,
    len_at, record_at, records_from, sealed, tail_ok, FramedModel, RecordModel, MAX_PAYLOAD_LEN,
    MAX_RECORD_LEN, MIN_LENGTH,
};

verus! {

/// Whether the bytes at `at` start with a length that can be one and hold, that many bytes on, the
/// checksum of what stands before it.
pub open spec fn agrees(bytes: Seq<u8>, at: int) -> bool {
    let rest = bytes.skip(at);
    let length = le_value(rest.take(4));
    &&& rest.len() >= 4
    &&& MIN_LENGTH <= length
    &&& length + 4 <= MAX_RECORD_LEN
    &&& length + 4 <= rest.len()
    &&& le_value(rest.subrange(length as int, length as int + 4)) as u32 == crc_of(
        rest.take(length as int),
    )
}

/// Something was written whole at an offset exactly when a checksum agrees there.
pub proof fn law_agreeing_checksum_is_a_seal(bytes: Seq<u8>, at: int)
    ensures
        sealed(bytes, at) <==> agrees(bytes, at),
{
}

/// The tail of a journal is dropped exactly when no checksum agrees anywhere in it; damage before
/// something that was written whole is not dropped.
pub proof fn law_tail_is_dropped_where_no_checksum_agrees(bytes: Seq<u8>)
    ensures
        tail_ok(bytes) <==> forall|s: int|
            journal_end(bytes) <= s < bytes.len() ==> !#[trigger] agrees(bytes, s),
{
    super::wal::law_truncation_keeps_the_records(bytes);
    let end = journal_end(bytes);
    assert forall|s: int| #[trigger] sealed(bytes, s) == agrees(bytes, s) by {
        law_agreeing_checksum_is_a_seal(bytes, s);
    }
    if tail_ok(bytes) {
        assert forall|s: int| end <= s < bytes.len() implies !#[trigger] agrees(bytes, s) by {
            assert(sealed(bytes, s) == agrees(bytes, s));
        }
    }
    if forall|s: int| end <= s < bytes.len() ==> !#[trigger] agrees(bytes, s) {
        assert forall|s: int| end <= s < bytes.len() implies !#[trigger] sealed(bytes, s) by {
            assert(sealed(bytes, s) == agrees(bytes, s));
        }
    }
}

/// The records from an offset on are numbered one after the other.
proof fn lemma_numbers_from(bytes: Seq<u8>, offset: int, last: u64, i: int)
    requires
        0 <= offset <= bytes.len(),
        last <= offset,
        0 <= i < records_from(bytes, offset, last).len(),
    ensures
        records_from(bytes, offset, last)[i].lsn.0 == last + i + 1,
        records_from(bytes, offset, last)[i].prev_lsn.0 == last + i,
    decreases i,
{
    lemma_len_at(bytes, offset);
    if i > 0 {
        let len = len_at(bytes, offset);
        lemma_numbers_from(bytes, offset + len, (last + 1) as u64, i - 1);
    }
}

/// The records of a journal are numbered from 1 on, each naming the one before.
pub proof fn law_records_are_numbered(bytes: Seq<u8>, i: int)
    requires
        0 <= i < journal_records(bytes).len(),
    ensures
        journal_records(bytes)[i].lsn.0 == i + 1,
        journal_records(bytes)[i].prev_lsn.0 == i,
{
    lemma_numbers_from(bytes, 0, 0, i);
}

/// The bytes of records, one after the other.
pub open spec fn all_encoded(records: Seq<RecordModel>) -> Seq<u8>
    decreases records.len(),
{
    if records.len() == 0 {
        Seq::empty()
    } else {
        records[0].encoded() + all_encoded(records.drop_first())
    }
}

/// The bytes of records with one more before them.
proof fn lemma_encoded_first(r: RecordModel, tail: Seq<RecordModel>)
    ensures
        all_encoded(seq![r] + tail) == r.encoded() + all_encoded(tail),
{
    assert((seq![r] + tail).drop_first() =~= tail);
}

/// What is read from an offset on is the bytes of the records.
proof fn lemma_read_from(bytes: Seq<u8>, offset: int, last: u64)
    requires
        0 <= offset <= bytes.len(),
        last <= offset,
    ensures
        offset <= end_from(bytes, offset, last) <= bytes.len(),
        bytes.subrange(offset, end_from(bytes, offset, last)) == all_encoded(
            records_from(bytes, offset, last),
        ),
    decreases bytes.len() - offset,
{
    if continues(bytes, offset, last) {
        lemma_len_at(bytes, offset);
        let len = len_at(bytes, offset);
        let r = record_at(bytes, offset);
        let next = offset + len;
        lemma_read_from(bytes, next, (last + 1) as u64);
        lemma_whole_at(bytes, offset);
        let tail = records_from(bytes, next, (last + 1) as u64);
        let end = end_from(bytes, next, (last + 1) as u64);
        lemma_encoded_first(r, tail);
        assert(bytes.subrange(offset, end) =~= bytes.subrange(offset, next) + bytes.subrange(
            next,
            end,
        ));
    } else {
        assert(bytes.subrange(offset, offset) =~= Seq::empty());
    }
}

/// A record that reads whole stands there with its bytes.
proof fn lemma_whole_at(bytes: Seq<u8>, offset: int)
    requires
        0 <= offset <= bytes.len(),
        frame_of(bytes.skip(offset), offset as u64) is Whole,
    ensures
        offset + len_at(bytes, offset) <= bytes.len(),
        bytes.subrange(offset, offset + len_at(bytes, offset)) == record_at(
            bytes,
            offset,
        ).encoded(),
{
    lemma_len_at(bytes, offset);
    law_whole_record_was_encoded(bytes.skip(offset), offset as u64);
    let len = len_at(bytes, offset);
    assert(bytes.skip(offset).take(len as int) =~= bytes.subrange(offset, offset + len));
}

/// What stops the reading is no record that follows.
proof fn lemma_stopped_from(bytes: Seq<u8>, offset: int, last: u64)
    requires
        0 <= offset <= bytes.len(),
        last <= offset,
    ensures
        last + records_from(bytes, offset, last).len() <= end_from(bytes, offset, last),
        !continues(
            bytes,
            end_from(bytes, offset, last),
            (last + records_from(bytes, offset, last).len()) as u64,
        ),
    decreases bytes.len() - offset,
{
    if continues(bytes, offset, last) {
        lemma_len_at(bytes, offset);
        lemma_stopped_from(bytes, offset + len_at(bytes, offset), (last + 1) as u64);
    }
}

/// A journal is read up to the first place where no record stands that follows the ones before; up to
/// there it is the bytes of its records.
pub proof fn law_journal_is_the_bytes_of_its_records(bytes: Seq<u8>)
    ensures
        ({
            let end = journal_end(bytes);
            let n = journal_records(bytes).len();
            &&& 0 <= end <= bytes.len()
            &&& bytes.take(end) == all_encoded(journal_records(bytes))
            &&& end < bytes.len() ==> match frame_of(bytes.skip(end), end as u64) {
                FramedModel::Whole { record, .. } => record.lsn.0 != n + 1 || record.prev_lsn.0
                    != n,
                _ => true,
            }
        }),
{
    lemma_read_from(bytes, 0, 0);
    lemma_stopped_from(bytes, 0, 0);
    let end = journal_end(bytes);
    assert(bytes.take(end) =~= bytes.subrange(0, end));
}

/// A journal with bytes behind it that start with no whole record reads as it did.
proof fn lemma_scrap_from(bytes: Seq<u8>, scrap: Seq<u8>, offset: int, last: u64)
    requires
        0 <= offset <= bytes.len(),
        last <= offset,
        end_from(bytes, offset, last) == bytes.len(),
        scrap.len() == 0 || !(frame_of(scrap, bytes.len() as u64) is Whole),
    ensures
        records_from(bytes + scrap, offset, last) == records_from(bytes, offset, last),
        end_from(bytes + scrap, offset, last) == bytes.len(),
    decreases bytes.len() - offset,
{
    let longer = bytes + scrap;
    if continues(bytes, offset, last) {
        lemma_len_at(bytes, offset);
        let len = len_at(bytes, offset);
        lemma_frame_stable(bytes.skip(offset), scrap, offset as u64);
        assert(longer.skip(offset) =~= bytes.skip(offset) + scrap);
        assert(continues(longer, offset, last));
        lemma_scrap_from(bytes, scrap, offset + len, (last + 1) as u64);
    } else {
        assert(offset == bytes.len());
        assert(longer.skip(offset) =~= scrap);
        assert(!continues(longer, offset, last));
    }
}

/// The beginning of a record, short of all of it, is no whole record.
proof fn lemma_scrap(record: RecordModel, n: int, offset: u64)
    requires
        record.payload.len() <= MAX_PAYLOAD_LEN,
        0 <= n < record.encoded().len(),
    ensures
        !(frame_of(record.encoded().take(n), offset) is Whole),
        !(frame_of(record.encoded().take(n), offset) is Rejected),
{
    let scrap = record.encoded().take(n);
    let length = (30 + record.payload.len()) as nat;
    law_encoded_record_reads_back(record, Seq::empty(), 0);
    lemma_byte_ranges();
    lemma_le_round_trip(length, 4);
    if n >= 4 {
        assert(scrap.take(4) =~= le_bytes(length, 4));
        assert(announced(scrap) == length);
    }
}

/// An append that did not finish changes nothing of what a journal tells: however many bytes of the
/// record reached it, short of all, its records are those it held and end where they did; and it opens,
/// unless a checksum agrees somewhere in those bytes by themselves.
pub proof fn law_unfinished_append_changes_nothing(bytes: Seq<u8>, record: RecordModel, n: int)
    requires
        journal_end(bytes) == bytes.len(),
        record.payload.len() <= MAX_PAYLOAD_LEN,
        0 <= n < record.encoded().len(),
    ensures
        ({
            let torn = bytes + record.encoded().take(n);
            &&& journal_records(torn) == journal_records(bytes)
            &&& journal_end(torn) == bytes.len()
            &&& (forall|s: int| bytes.len() < s < torn.len() ==> !#[trigger] agrees(torn, s))
                ==> tail_ok(torn)
        }),
{
    let scrap = record.encoded().take(n);
    let torn = bytes + scrap;
    lemma_scrap(record, n, bytes.len() as u64);
    lemma_scrap_from(bytes, scrap, 0, 0);
    if forall|s: int| bytes.len() < s < torn.len() ==> !#[trigger] agrees(torn, s) {
        assert(torn.skip(bytes.len() as int) =~= scrap);
        law_agreeing_checksum_is_a_seal(torn, bytes.len() as int);
        law_tail_is_dropped_where_no_checksum_agrees(torn);
    }
}

} // verus!
