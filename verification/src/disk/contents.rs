//! What the records of a heap mean: the versions of a table, by row and serial.

use vstd::prelude::*;

use super::version::{
    header_of, law_prefix_reads_back, law_xmax_alone_changes, patched, VersionHeader, NO_XMAX,
    VERSION_PREFIX_LEN,
};
use crate::ids::TxnId;

verus! {

/// One version as its record carries it.
#[verifier::ext_equal]
pub struct StoredModel {
    /// The prefix.
    pub header: VersionHeader,
    /// The columns, encoded.
    pub columns: Seq<u8>,
}

impl StoredModel {
    /// The version with another `xmax`.
    pub open spec fn with_xmax(self, xmax: Option<TxnId>) -> StoredModel {
        StoredModel { header: self.header.with_xmax(xmax), columns: self.columns }
    }

    /// The row and the serial of the version.
    pub open spec fn key(self) -> (u64, u64) {
        (self.header.row.0, self.header.seq)
    }
}

/// The version a record carries.
pub open spec fn stored_in(s: Seq<u8>) -> StoredModel {
    StoredModel { header: header_of(s), columns: s.skip(32) }
}

/// Whether no two records carry the same version.
pub open spec fn distinct(h: Map<u64, Seq<u8>>) -> bool {
    forall|a: u64, b: u64|
        #![trigger h[a], h[b]]
        h.contains_key(a) && h.contains_key(b) && stored_in(h[a]).key() == stored_in(h[b]).key()
            ==> a == b
}

/// Whether every record is long enough for its prefix, and no two carry the same version.
pub open spec fn sound(h: Map<u64, Seq<u8>>) -> bool {
    &&& distinct(h)
    &&& forall|a: u64| #[trigger] h.contains_key(a) ==> h[a].len() >= VERSION_PREFIX_LEN
}

/// Whether the record at `rid` carries the version `key`.
pub open spec fn is_at(h: Map<u64, Seq<u8>>, key: (u64, u64), rid: u64) -> bool {
    h.contains_key(rid) && stored_in(h[rid]).key() == key
}

/// The versions the records carry, by row and serial.
pub open spec fn contents(h: Map<u64, Seq<u8>>) -> Map<(u64, u64), StoredModel> {
    Map::new(
        |key: (u64, u64)| exists|rid: u64| is_at(h, key, rid),
        |key: (u64, u64)| stored_in(h[choose|rid: u64| is_at(h, key, rid)]),
    )
}

/// The version of a record is among the contents.
pub proof fn lemma_contents_at(h: Map<u64, Seq<u8>>, rid: u64)
    requires
        distinct(h),
        h.contains_key(rid),
    ensures
        contents(h).contains_key(stored_in(h[rid]).key()),
        contents(h)[stored_in(h[rid]).key()] == stored_in(h[rid]),
{
    let key = stored_in(h[rid]).key();
    assert(is_at(h, key, rid));
    let other = choose|r: u64| is_at(h, key, r);
    assert(is_at(h, key, other));
    assert(h[other] == h[rid]);
}

/// Where a version of the contents sits.
pub open spec fn place(h: Map<u64, Seq<u8>>, key: (u64, u64)) -> u64 {
    choose|rid: u64| is_at(h, key, rid)
}

/// A version of the contents sits at its place.
pub proof fn lemma_placed(h: Map<u64, Seq<u8>>, key: (u64, u64))
    requires
        contents(h).contains_key(key),
    ensures
        is_at(h, key, place(h, key)),
        contents(h)[key] == stored_in(h[place(h, key)]),
        contents(h)[key].key() == key,
{
}

/// A record more is a version more.
pub proof fn lemma_put(h: Map<u64, Seq<u8>>, rid: u64, s: Seq<u8>)
    requires
        sound(h),
        !h.contains_key(rid),
        s.len() >= VERSION_PREFIX_LEN,
        !contents(h).contains_key(stored_in(s).key()),
    ensures
        sound(h.insert(rid, s)),
        contents(h.insert(rid, s)) == contents(h).insert(stored_in(s).key(), stored_in(s)),
{
    let after = h.insert(rid, s);
    let key = stored_in(s).key();
    assert forall|a: u64, b: u64|
        #![trigger after[a], after[b]]
        after.contains_key(a) && after.contains_key(b) && stored_in(after[a]).key() == stored_in(
            after[b],
        ).key() implies a == b by {
        if a == rid && b != rid {
            assert(is_at(h, key, b));
        }
        if b == rid && a != rid {
            assert(is_at(h, key, a));
        }
        if a != rid && b != rid {
            assert(h[a] == after[a] && h[b] == after[b]);
        }
    }
    assert(contents(after) =~= contents(h).insert(key, stored_in(s))) by {
        lemma_same_elsewhere(h, after, rid, key);
        lemma_contents_at(after, rid);
    }
}

/// Two heaps that differ at one address, whose records there carry the version `key` or none,
/// hold the same versions but for that one.
proof fn lemma_same_elsewhere(
    h: Map<u64, Seq<u8>>,
    after: Map<u64, Seq<u8>>,
    rid: u64,
    key: (u64, u64),
)
    requires
        distinct(h),
        distinct(after),
        forall|r: u64| r != rid ==> (#[trigger] h.contains_key(r) <==> after.contains_key(r)),
        forall|r: u64| r != rid && #[trigger] h.contains_key(r) ==> h[r] == after[r],
        h.contains_key(rid) ==> stored_in(h[rid]).key() == key,
        after.contains_key(rid) ==> stored_in(after[rid]).key() == key,
    ensures
        forall|k: (u64, u64)|
            k != key ==> (#[trigger] contents(after).contains_key(k) <==> contents(h).contains_key(
                k,
            )),
        forall|k: (u64, u64)|
            k != key && #[trigger] contents(h).contains_key(k) ==> contents(after)[k] == contents(
                h,
            )[k],
{
    assert forall|k: (u64, u64)|
        #![trigger contents(after).contains_key(k)]
        #![trigger contents(h).contains_key(k)]
        k != key implies (contents(after).contains_key(k) <==> contents(h).contains_key(k)) && (
    contents(h).contains_key(k) ==> contents(after)[k]
        == contents(h)[k]) by {
        if contents(h).contains_key(k) {
            let r = place(h, k);
            lemma_placed(h, k);
            assert(h.contains_key(r));
            assert(is_at(after, k, r));
            lemma_contents_at(after, r);
        }
        if contents(after).contains_key(k) {
            let r = place(after, k);
            lemma_placed(after, k);
            assert(r != rid);
            assert(h.contains_key(r) <==> after.contains_key(r));
            assert(is_at(h, k, r));
        }
    }
}

/// Writing another `xmax` in a record changes that version alone.
pub proof fn lemma_hidden(h: Map<u64, Seq<u8>>, rid: u64, xmax: Option<TxnId>)
    requires
        sound(h),
        h.contains_key(rid),
        xmax != Some(TxnId(NO_XMAX)),
    ensures
        ({
            let s = patched(h[rid], xmax);
            let was = stored_in(h[rid]);
            &&& s.len() == h[rid].len()
            &&& stored_in(s) == was.with_xmax(xmax)
            &&& stored_in(s).key() == was.key()
            &&& sound(h.insert(rid, s))
            &&& contents(h.insert(rid, s)) == contents(h).insert(was.key(), was.with_xmax(xmax))
        }),
{
    let s = patched(h[rid], xmax);
    law_xmax_alone_changes(h[rid], xmax, None);
    let after = h.insert(rid, s);
    let key = stored_in(h[rid]).key();
    assert forall|a: u64, b: u64|
        #![trigger after[a], after[b]]
        after.contains_key(a) && after.contains_key(b) && stored_in(after[a]).key() == stored_in(
            after[b],
        ).key() implies a == b by {
        assert(stored_in(h[a]).key() == stored_in(after[a]).key());
        assert(stored_in(h[b]).key() == stored_in(after[b]).key());
    }
    assert(contents(after) =~= contents(h).insert(key, stored_in(h[rid]).with_xmax(xmax))) by {
        lemma_same_elsewhere(h, after, rid, key);
        lemma_contents_at(after, rid);
    }
}

/// A record less is a version less.
pub proof fn lemma_taken(h: Map<u64, Seq<u8>>, rid: u64)
    requires
        sound(h),
        h.contains_key(rid),
    ensures
        sound(h.remove(rid)),
        contents(h.remove(rid)) == contents(h).remove(stored_in(h[rid]).key()),
{
    let after = h.remove(rid);
    let key = stored_in(h[rid]).key();
    assert forall|a: u64, b: u64|
        #![trigger after[a], after[b]]
        after.contains_key(a) && after.contains_key(b) && stored_in(after[a]).key() == stored_in(
            after[b],
        ).key() implies a == b by {
        assert(h[a] == after[a] && h[b] == after[b]);
    }
    assert(contents(after) =~= contents(h).remove(key)) by {
        lemma_same_elsewhere(h, after, rid, key);
        assert forall|r: u64| !is_at(after, key, r) by {
            if is_at(after, key, r) {
                assert(h[r] == after[r]);
            }
        }
    }
}

/// The record of a version written from its prefix and its columns carries that version.
pub proof fn lemma_written(header: VersionHeader, columns: Seq<u8>)
    requires
        header.storable(),
    ensures
        (header.encoded() + columns).len() >= VERSION_PREFIX_LEN,
        stored_in(header.encoded() + columns) == (StoredModel { header, columns }),
{
    law_prefix_reads_back(header, columns);
}

} // verus!
