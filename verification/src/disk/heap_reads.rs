//! What a table answers: its versions in order, the row a snapshot sees, the rows it sees, the
//! tail of a chain; and the directory rebuilt after a recovery.

use vstd::prelude::*;

use super::contents::{
    contents, distinct, lemma_contents_at, lemma_placed, place, sound, stored_in,
};
use super::encode::parse_row;
use super::heap::{Heap, Rid};
use super::heap_table::{belongs, directs, lists, HeapTable, StoredVersion, TableState};
use super::journal::Journal;
use super::table_model::{
    data_of, illegible, key_before, keys_sorted, legible, HeapTableModel, IndexChange,
    IndexChangeModel, RowUndo,
};
use super::version::{
    header_of, law_record_is_prefix_then_columns, too_short, VersionHeader, VERSION_PREFIX_LEN,
};
use crate::error::{Bug, Corruption, InternalError};
use crate::ids::{RowId, TableId, TxnId};
use crate::memory::read::rows_view;
use crate::ordmap::{increasing, IdSet, OrdMap};
use crate::row::Row;
use crate::shape::TableShape;
use crate::snapshot::{status_of, Snapshot, TxnStatus};
use crate::value::ValueModel;

verus! {

/// What a snapshot sees of a row: the first visible version of its chain.
pub open spec fn first_seen(
    t: HeapTableModel,
    snap: Snapshot,
    st: Map<u64, TxnStatus>,
    row: RowId,
    seq: u64,
) -> bool {
    t.sees(snap, st, (row.0, seq)) && forall|s: u64|
        s < seq ==> !#[trigger] t.sees(snap, st, (row.0, s))
}

/// Whether a snapshot sees `data` as the content of a row.
pub open spec fn shows_row(
    t: HeapTableModel,
    snap: Snapshot,
    st: Map<u64, TxnStatus>,
    row: RowId,
    data: Seq<ValueModel>,
) -> bool {
    exists|seq: u64| #[trigger]
        first_seen(t, snap, st, row, seq) && parse_row(t.contents[(row.0, seq)].columns) == Some(data)
}

/// Whether what a snapshot sees of a row does not read back, the error being `e`.
pub open spec fn shows_none(
    t: HeapTableModel,
    snap: Snapshot,
    st: Map<u64, TxnStatus>,
    row: RowId,
    e: InternalError,
) -> bool {
    exists|seq: u64| #[trigger]
        first_seen(t, snap, st, row, seq) && !legible(t.contents[(row.0, seq)]) && e == illegible(
            t.contents[(row.0, seq)],
        )
}

/// Whether a record is too short for the prefix of a version, the error being `e`.
pub open spec fn short_record(h: Map<u64, Seq<u8>>, e: InternalError) -> bool {
    exists|rid: u64| #[trigger]
        h.contains_key(rid) && h[rid].len() < VERSION_PREFIX_LEN && too_short(h[rid].len(), e)
}

/// Whether every one of the versions `keys` reads back.
pub open spec fn all_legible(t: HeapTableModel, keys: Seq<(u64, u64)>) -> bool {
    forall|i: int| 0 <= i < keys.len() ==> legible(t.contents[#[trigger] keys[i]])
}

/// Whether a scan stops with the error `e`: at the first row of which the version that is seen does
/// not read back.
pub open spec fn scan_fault(
    t: HeapTableModel,
    snap: Snapshot,
    st: Map<u64, TxnStatus>,
    e: InternalError,
) -> bool {
    exists|k: (u64, u64)|
        {
            &&& #[trigger] first_seen(t, snap, st, RowId(k.0), k.1)
            &&& !legible(t.contents[k])
            &&& e == illegible(t.contents[k])
            &&& forall|o: (u64, u64)|
                o.0 < k.0 && #[trigger] first_seen(t, snap, st, RowId(o.0), o.1) ==> legible(
                    t.contents[o],
                )
        }
}

/// Whether a walk of the versions of the row `only`, or of every row, stops with the error `e`: at the
/// first that does not read back.
pub open spec fn versions_fault(t: HeapTableModel, only: Option<RowId>, e: InternalError) -> bool {
    exists|k: (u64, u64)|
        {
            &&& #[trigger] t.contents.contains_key(k)
            &&& belongs(RowId(k.0), only)
            &&& !legible(t.contents[k])
            &&& e == illegible(t.contents[k])
            &&& forall|o: (u64, u64)| #[trigger]
                t.contents.contains_key(o) && belongs(RowId(o.0), only) && key_before(o, k)
                    ==> legible(t.contents[o])
        }
}

/// Whether a walk of the live versions stops with the error `e`: at the first that does not read back.
pub open spec fn live_fault(t: HeapTableModel, e: InternalError) -> bool {
    exists|k: (u64, u64)|
        {
            &&& #[trigger] is_live_key(t, k)
            &&& !legible(t.contents[k])
            &&& e == illegible(t.contents[k])
            &&& forall|o: (u64, u64)|
                o.0 < k.0 && #[trigger] is_live_key(t, o) ==> legible(t.contents[o])
        }
}

/// Whether `keys` are the versions a snapshot sees, one for each row it sees, by increasing row.
pub open spec fn seen_keys(
    t: HeapTableModel,
    snap: Snapshot,
    st: Map<u64, TxnStatus>,
    keys: Seq<(u64, u64)>,
) -> bool {
    &&& forall|i: int, j: int| 0 <= i < j < keys.len() ==> (#[trigger] keys[i]).0 < (
        #[trigger] keys[j]).0
    &&& forall|k: (u64, u64)| #[trigger]
        keys.contains(k) <==> first_seen(t, snap, st, RowId(k.0), k.1)
}

/// Whether `k` is the most recent version of its row and nobody replaced or deleted it.
pub open spec fn is_live_key(t: HeapTableModel, k: (u64, u64)) -> bool {
    t.current.contains_key(k.0) && t.current[k.0] == k.1 && t.contents[k].header.xmax is None
}

/// Whether `keys` are the versions nobody replaced or deleted, by increasing row.
pub open spec fn live_keys(t: HeapTableModel, keys: Seq<(u64, u64)>) -> bool {
    &&& forall|i: int, j: int| 0 <= i < j < keys.len() ==> (#[trigger] keys[i]).0 < (
        #[trigger] keys[j]).0
    &&& forall|k: (u64, u64)| #[trigger] keys.contains(k) <==> is_live_key(t, k)
}

/// The rows of the versions `keys`.
pub open spec fn rows_at(t: HeapTableModel, keys: Seq<(u64, u64)>) -> Seq<
    (RowId, Seq<ValueModel>),
> {
    Seq::new(keys.len(), |i: int| (RowId(keys[i].0), data_of(t.contents[keys[i]])))
}

/// The columns and the visibility fields of one version, as an index reads it.
#[derive(Debug)]
pub struct VersionView {
    /// The logical row.
    pub row: RowId,
    /// The serial of the version.
    pub seq: u64,
    /// The transaction that created it.
    pub xmin: TxnId,
    /// The transaction that replaced or deleted it.
    pub xmax: Option<TxnId>,
    /// The columns of the version.
    pub data: Row,
}

impl VersionView {
    /// Whether this is the version of the table it names.
    pub open spec fn shows(&self, t: HeapTableModel) -> bool {
        let k = (self.row.0, self.seq);
        &&& t.contents.contains_key(k)
        &&& t.contents[k].header.xmin == self.xmin
        &&& t.contents[k].header.xmax == self.xmax
        &&& parse_row(t.contents[k].columns) == Some(self.data@)
    }
}

/// The keys of a list of versions.
pub open spec fn keys_of(list: Seq<StoredVersion>) -> Seq<(u64, u64)> {
    Seq::new(list.len(), |i: int| list[i].key())
}

impl HeapTable {
    /// The versions the heap holds, of the row `only` or of each row, by increasing row then
    /// increasing serial: the chains, in order.
    ///
    /// # Errors
    ///
    /// A corruption for a record too short for its prefix.
    pub(crate) fn stored_versions(&self, only: Option<RowId>) -> (r: Result<
        Vec<StoredVersion>,
        InternalError,
    >)
        requires
            self.heap.wf(),
            distinct(self.heap@),
        ensures
            match r {
                Ok(list) => {
                    &&& sound(self.heap@)
                    &&& lists(list@, self.heap@, only)
                    &&& keys_sorted(keys_of(list@))
                    &&& forall|i: int|
                        0 <= i < list@.len() ==> (#[trigger] list@[i]).bytes@.len()
                            >= VERSION_PREFIX_LEN && self@.contents.contains_key(list@[i].key())
                            && self@.contents[list@[i].key()] == stored_in(list@[i].bytes@)
                    &&& forall|k: (u64, u64)| #[trigger]
                        self@.contents.contains_key(k) && belongs(RowId(k.0), only) ==> keys_of(
                            list@,
                        ).contains(k)
                },
                Err(e) => short_record(self.heap@, e),
            },
    {
        let addresses: Vec<u64> = self.heap.scan();
        let mut list: Vec<StoredVersion> = Vec::new();
        for i in 0..addresses.len()
            invariant
                self.heap.wf(),
                distinct(self.heap@),
                increasing(addresses@),
                forall|rid: u64| #[trigger]
                    addresses@.contains(rid) <==> self.heap@.contains_key(rid),
                forall|x: int|
                    0 <= x < i ==> self.heap@[#[trigger] addresses@[x]].len() >= VERSION_PREFIX_LEN,
                forall|k: int|
                    0 <= k < list@.len() ==> readable(#[trigger] list@[k], self.heap@, only) && i > 0
                        && list@[k].rid.0 <= addresses@[i - 1],
                in_order(list@),
                forall|x: int|
                    0 <= x < i && belongs(header_of(self.heap@[#[trigger] addresses@[x]]).row, only)
                        ==> exists|k: int|
                        0 <= k < list@.len() && #[trigger] list@[k].rid.0 == addresses@[x],
        {
            let rid: Rid = Rid(addresses[i]);
            assert(addresses@.contains(rid.0));
            assert(i > 0 ==> addresses@[i - 1] < addresses@[i as int]);
            let ghost before = list@;
            match self.read(rid) {
                Ok(version) => {
                    let wanted: bool = match only {
                        Some(row) => version.header.row == row,
                        None => true,
                    };
                    if wanted {
                        let ghost added = version;
                        // Two records never carry the same version.
                        assert forall|k: int| 0 <= k < before.len() implies (
                        #[trigger] before[k]).key() != added.key() by {
                            assert(readable(before[k], self.heap@, only));
                            if before[k].key() == added.key() {
                                assert(self.heap@[before[k].rid.0] == before[k].bytes@);
                                assert(self.heap@[added.rid.0] == added.bytes@);
                            }
                        }
                        add_in_order(&mut list, version);
                        proof {
                            lemma_added(before, list@, added);
                            assert forall|x: int|
                                0 <= x < i + 1 && belongs(
                                    header_of(self.heap@[#[trigger] addresses@[x]]).row,
                                    only,
                                ) implies exists|k: int|
                                0 <= k < list@.len() && #[trigger] list@[k].rid.0
                                    == addresses@[x] by {
                                if x < i {
                                    let o = choose|o: int|
                                        0 <= o < before.len() && #[trigger] before[o].rid.0
                                            == addresses@[x];
                                    assert(list@.contains(before[o]));
                                }
                            }
                        }
                    }
                },
                Err(e) => {
                    return Err(e);
                },
            }
        }
        proof {
            assert forall|rid: u64| #[trigger] self.heap@.contains_key(rid) implies self.heap@[rid].len()
                >= VERSION_PREFIX_LEN by {
                assert(addresses@.contains(rid));
                let x = choose|x: int| 0 <= x < addresses@.len() && addresses@[x] == rid;
                assert(self.heap@[addresses@[x]].len() >= VERSION_PREFIX_LEN);
            }
            assert forall|rid: u64| #[trigger]
                self.heap@.contains_key(rid) && belongs(
                    header_of(self.heap@[rid]).row,
                    only,
                ) implies exists|k: int| 0 <= k < list@.len() && #[trigger] list@[k].rid.0 == rid by {
                assert(addresses@.contains(rid));
                let x = choose|x: int| 0 <= x < addresses@.len() && addresses@[x] == rid;
                assert(addresses@[x] == rid);
            }
            assert forall|i: int| 0 <= i < list@.len() implies self@.contents.contains_key(
                (#[trigger] list@[i]).key(),
            ) && self@.contents[list@[i].key()] == stored_in(list@[i].bytes@) by {
                lemma_contents_at(self.heap@, list@[i].rid.0);
            }
            assert forall|k: (u64, u64)| #[trigger]
                self@.contents.contains_key(k) && belongs(RowId(k.0), only) implies keys_of(
                list@,
            ).contains(k) by {
                lemma_placed(self.heap@, k);
                let rid = place(self.heap@, k);
                assert(self.heap@.contains_key(rid));
                assert(header_of(self.heap@[rid]).row == RowId(k.0));
                let i = choose|i: int| 0 <= i < list@.len() && #[trigger] list@[i].rid.0 == rid;
                assert(keys_of(list@)[i] == k);
            }
        }
        Ok(list)
    }

    /// The content of `id` as `snap` sees it, `None` when no version of the row is visible.
    ///
    /// # Errors
    ///
    /// A corruption for a version that is seen and whose columns are no row, and for a record too
    /// short for its prefix.
    pub fn get(&self, journal: &Journal, snap: &Snapshot, id: RowId) -> (r: Result<
        Option<Row>,
        InternalError,
    >)
        requires
            self.heap.wf(),
            distinct(self.heap@),
        ensures
            match r {
                Ok(Some(row)) => sound(self.heap@) && shows_row(
                    self@,
                    *snap,
                    journal@.st(),
                    id,
                    row@,
                ),
                Ok(None) => sound(self.heap@) && forall|seq: u64| !#[trigger]
                    self@.sees(*snap, journal@.st(), (id.0, seq)),
                Err(e) => if sound(self.heap@) {
                    shows_none(self@, *snap, journal@.st(), id, e)
                } else {
                    short_record(self.heap@, e)
                },
            },
    {
        let list: Vec<StoredVersion> = match self.stored_versions(Some(id)) {
            Ok(list) => list,
            Err(e) => {
                return Err(e);
            },
        };
        for i in 0..list.len()
            invariant
                sound(self.heap@),
                lists(list@, self.heap@, Some(id)),
                forall|k: int|
                    0 <= k < list@.len() ==> (#[trigger] list@[k]).bytes@.len()
                        >= VERSION_PREFIX_LEN && self@.contents.contains_key(list@[k].key())
                        && self@.contents[list@[k].key()] == stored_in(list@[k].bytes@),
                forall|k: (u64, u64)| #[trigger]
                    self@.contents.contains_key(k) && belongs(RowId(k.0), Some(id)) ==> keys_of(
                        list@,
                    ).contains(k),
                forall|k: int|
                    0 <= k < i ==> !#[trigger] self@.sees(*snap, journal@.st(), list@[k].key()),
        {
            let version: &StoredVersion = &list[i];
            if journal_sees(journal, snap, &version.header) {
                proof {
                    let seq = version.header.seq;
                    assert(self@.sees(*snap, journal@.st(), list@[i as int].key()));
                    assert forall|s: u64| s < seq implies !#[trigger] self@.sees(
                        *snap,
                        journal@.st(),
                        (id.0, s),
                    ) by {
                        let k = (id.0, s);
                        if self@.sees(*snap, journal@.st(), k) {
                            assert(keys_of(list@).contains(k));
                            let x = choose|x: int|
                                0 <= x < keys_of(list@).len() && keys_of(list@)[x] == k;
                            assert(list@[x].key() == k);
                            assert(self@.sees(*snap, journal@.st(), list@[x].key()));
                        }
                    }
                    assert(first_seen(self@, *snap, journal@.st(), id, seq));
                }
                return match version.row() {
                    Ok(row) => Ok(Some(row)),
                    Err(e) => Err(e),
                };
            }
        }
        proof {
            assert forall|seq: u64| !#[trigger]
                self@.sees(*snap, journal@.st(), (id.0, seq)) by {
                let k = (id.0, seq);
                if self@.sees(*snap, journal@.st(), k) {
                    assert(keys_of(list@).contains(k));
                    let x = choose|x: int| 0 <= x < keys_of(list@).len() && keys_of(list@)[x] == k;
                    assert(list@[x].key() == k);
                    assert(self@.sees(*snap, journal@.st(), list@[x].key()));
                }
            }
        }
        Ok(None)
    }

    /// The rows `snap` sees, by increasing row identifier, one entry per visible logical row.
    ///
    /// # Errors
    ///
    /// A corruption for a version that is seen and whose columns are no row, and for a record too
    /// short for its prefix.
    pub fn scan(&self, journal: &Journal, snap: &Snapshot) -> (r: Result<
        Vec<(RowId, Row)>,
        InternalError,
    >)
        requires
            self.heap.wf(),
            distinct(self.heap@),
        ensures
            match r {
                Ok(rows) => sound(self.heap@) && exists|keys: Seq<(u64, u64)>| #[trigger]
                    seen_keys(self@, *snap, journal@.st(), keys) && all_legible(self@, keys)
                        && rows_view(rows@) == rows_at(self@, keys),
                Err(e) => if sound(self.heap@) {
                    scan_fault(self@, *snap, journal@.st(), e)
                } else {
                    short_record(self.heap@, e)
                },
            },
    {
        let list: Vec<StoredVersion> = match self.stored_versions(None) {
            Ok(list) => list,
            Err(e) => {
                return Err(e);
            },
        };
        let mut rows: Vec<(RowId, Row)> = Vec::new();
        let mut shown: Option<(RowId, u64)> = None;
        let ghost mut keys: Seq<(u64, u64)> = Seq::empty();
        let ghost st = journal@.st();
        for i in 0..list.len()
            invariant
                st == journal@.st(),
                sound(self.heap@),
                in_order(list@),
                forall|k: int|
                    0 <= k < list@.len() ==> (#[trigger] list@[k]).bytes@.len()
                        >= VERSION_PREFIX_LEN && self@.contents.contains_key(list@[k].key())
                        && self@.contents[list@[k].key()] == stored_in(list@[k].bytes@),
                forall|k: int|
                    0 <= k < list@.len() ==> (#[trigger] list@[k]).reads(self.heap@),
                forall|k: (u64, u64)| #[trigger]
                    self@.contents.contains_key(k) ==> keys_of(list@).contains(k),
                all_legible(self@, keys),
                forall|a: int, b: int|
                    0 <= a < b < keys.len() ==> (#[trigger] keys[a]).0 < (#[trigger] keys[b]).0,
                forall|a: int|
                    0 <= a < keys.len() ==> first_seen(
                        self@,
                        *snap,
                        st,
                        RowId((#[trigger] keys[a]).0),
                        keys[a].1,
                    ),
                match shown {
                    None => keys.len() == 0,
                    Some((row, seq)) => keys.len() > 0 && keys.last() == (row.0, seq) && i > 0
                        && !key_before(list@[i - 1].key(), (row.0, seq)),
                },
                forall|k: int|
                    0 <= k < i && self@.sees(*snap, st, (#[trigger] list@[k]).key()) ==> exists|
                        a: int,
                    |
                        0 <= a < keys.len() && (#[trigger] keys[a]).0 == list@[k].header.row.0,
                rows_view(rows@) == rows_at(self@, keys),
        {
            let version: &StoredVersion = &list[i];
            let ghost before = keys;
            let ghost held = rows@;
            let ghost key = version.key();
            assert(list@[i as int].key() == key);
            assert(i > 0 ==> key_before(list@[i - 1].key(), list@[i as int].key()));
            // A row shows its first visible version.
            let new: bool = match shown {
                Some((row, seq)) => row != version.header.row || seq == version.header.seq,
                None => true,
            };
            if new && journal_sees(journal, snap, &version.header) {
                assert(self@.sees(*snap, st, key));
                proof {
                    lemma_first_of_its_row(self@, *snap, st, list@, i as int, keys);
                }
                match version.row() {
                    Ok(row) => {
                        let ghost data = row@;
                        rows.push((version.header.row, row));
                        shown = Some((version.header.row, version.header.seq));
                        proof {
                            keys = keys.push(key);
                            assert(rows_view(rows@) =~= rows_view(held).push(
                                (RowId(key.0), data),
                            ));
                            assert(rows_at(self@, keys) =~= rows_at(self@, before).push(
                                (RowId(key.0), data),
                            ));
                            assert forall|a: int| 0 <= a < keys.len() implies first_seen(
                                self@,
                                *snap,
                                st,
                                RowId((#[trigger] keys[a]).0),
                                keys[a].1,
                            ) && legible(self@.contents[keys[a]]) by {
                                if a < before.len() {
                                    assert(keys[a] == before[a]);
                                }
                            }
                            assert forall|k: int|
                                0 <= k < i + 1 && self@.sees(
                                    *snap,
                                    st,
                                    (#[trigger] list@[k]).key(),
                                ) implies exists|a: int|
                                0 <= a < keys.len() && (#[trigger] keys[a]).0
                                    == list@[k].header.row.0 by {
                                if k < i {
                                    let a = choose|a: int|
                                        0 <= a < before.len() && (#[trigger] before[a]).0
                                            == list@[k].header.row.0;
                                    assert(keys[a] == before[a]);
                                } else {
                                    assert(keys[before.len() as int].0 == key.0);
                                }
                            }
                        }
                    },
                    Err(e) => {
                        proof {
                            assert forall|o: (u64, u64)|
                                o.0 < key.0 && #[trigger] first_seen(
                                    self@,
                                    *snap,
                                    st,
                                    RowId(o.0),
                                    o.1,
                                ) implies legible(self@.contents[o]) by {
                                lemma_listed(self@, *snap, st, list@, i as int, keys, o);
                            }
                            assert(first_seen(self@, *snap, st, RowId(key.0), key.1));
                        }
                        return Err(e);
                    },
                }
            } else {
                proof {
                    if self@.sees(*snap, st, key) {
                        assert(keys[keys.len() - 1].0 == key.0);
                    }
                }
            }
        }
        proof {
            assert forall|k: (u64, u64)| #[trigger] keys.contains(k) <==> first_seen(
                self@,
                *snap,
                st,
                RowId(k.0),
                k.1,
            ) by {
                if first_seen(self@, *snap, st, RowId(k.0), k.1) {
                    lemma_listed(self@, *snap, st, list@, list@.len() as int, keys, k);
                }
                if keys.contains(k) {
                    let a = choose|a: int| 0 <= a < keys.len() && keys[a] == k;
                    assert(first_seen(self@, *snap, st, RowId(keys[a].0), keys[a].1));
                }
            }
            assert(seen_keys(self@, *snap, st, keys));
        }
        Ok(rows)
    }

    /// The rows whose most recent version nobody replaced or deleted, by increasing identifier,
    /// whatever the status of their creators.
    ///
    /// # Errors
    ///
    /// A corruption for such a version whose columns are no row.
    pub fn current_rows(&self) -> (r: Result<Vec<(RowId, Row)>, InternalError>)
        requires
            self.wf(),
        ensures
            match r {
                Ok(rows) => exists|keys: Seq<(u64, u64)>| #[trigger]
                    live_keys(self@, keys) && all_legible(self@, keys) && rows_view(rows@)
                        == rows_at(self@, keys),
                Err(e) => live_fault(self@, e),
            },
    {
        let ids: Vec<u64> = self.state.directory.keys();
        let mut rows: Vec<(RowId, Row)> = Vec::new();
        let ghost mut keys: Seq<(u64, u64)> = Seq::empty();
        for i in 0..ids.len()
            invariant
                self.wf(),
                increasing(ids@),
                forall|k: u64| #[trigger] ids@.contains(k) <==> self@.current.contains_key(k),
                all_legible(self@, keys),
                forall|a: int, b: int|
                    0 <= a < b < keys.len() ==> (#[trigger] keys[a]).0 < (#[trigger] keys[b]).0,
                forall|a: int| 0 <= a < keys.len() ==> is_live_key(self@, #[trigger] keys[a]),
                keys.len() > 0 ==> i > 0 && keys.last().0 <= ids@[i - 1],
                forall|k: int|
                    0 <= k < i && is_live_key(
                        self@,
                        (#[trigger] ids@[k], self@.current[ids@[k]]),
                    ) ==> keys.contains((ids@[k], self@.current[ids@[k]])),
                rows_view(rows@) == rows_at(self@, keys),
        {
            let id: RowId = RowId(ids[i]);
            assert(ids@.contains(id.0));
            assert(self@.current.contains_key(id.0));
            let ghost before = keys;
            let ghost held = rows@;
            let ghost key = (id.0, self@.current[id.0]);
            assert(i > 0 ==> ids@[i - 1] < ids@[i as int]);
            assert(self@.contents.contains_key(key));
            let current: StoredVersion = match self.current(id) {
                Ok(current) => current,
                Err(e) => {
                    assert(false);
                    return Err(e);
                },
            };
            if current.header.xmax.is_none() {
                match current.row() {
                    Ok(row) => {
                        let ghost data = row@;
                        rows.push((id, row));
                        proof {
                            keys = keys.push(key);
                            assert(rows_view(rows@) =~= rows_view(held).push((id, data)));
                            assert(rows_at(self@, keys) =~= rows_at(self@, before).push(
                                (id, data),
                            ));
                            assert forall|a: int| 0 <= a < before.len() implies (
                            #[trigger] before[a]).0 < id.0 by {
                                let z = before.len() - 1;
                                assert(before[z] == before.last());
                                assert(a < z ==> before[a].0 < before[z].0);
                            }
                            lemma_push_contains(before, key);
                        }
                    },
                    Err(e) => {
                        proof {
                            assert forall|o: (u64, u64)|
                                o.0 < key.0 && #[trigger] is_live_key(self@, o) implies legible(
                                self@.contents[o],
                            ) by {
                                assert(ids@.contains(o.0));
                                let x = choose|x: int| 0 <= x < ids@.len() && ids@[x] == o.0;
                                assert(x < i) by {
                                    if x > i {
                                        assert(ids@[i as int] < ids@[x]);
                                    }
                                }
                                assert(is_live_key(self@, (ids@[x], self@.current[ids@[x]])));
                                assert(keys.contains(o));
                                let a = choose|a: int| 0 <= a < keys.len() && keys[a] == o;
                                assert(legible(self@.contents[keys[a]]));
                            }
                            assert(is_live_key(self@, key));
                        }
                        return Err(e);
                    },
                }
            }
        }
        proof {
            assert forall|k: (u64, u64)| #[trigger] keys.contains(k) <==> is_live_key(self@, k) by {
                if is_live_key(self@, k) {
                    assert(ids@.contains(k.0));
                    let x = choose|x: int| 0 <= x < ids@.len() && ids@[x] == k.0;
                    assert(is_live_key(self@, (ids@[x], self@.current[ids@[x]])));
                }
            }
            assert(live_keys(self@, keys));
        }
        Ok(rows)
    }

    /// The tail of the chain of `id`, regardless of the statuses: the transaction that wrote the
    /// most recent state (the deleter if there is one, else the creator) and its content; `None`
    /// for a row the directory does not hold.
    ///
    /// # Errors
    ///
    /// A corruption for a version whose columns are no row, and for a row that is lost.
    pub fn latest_version(&self, id: RowId) -> (r: Result<Option<(TxnId, Row)>, InternalError>)
        requires
            self.attached(),
        ensures
            match r {
                Ok(Some((writer, row))) => {
                    &&& self@.current.contains_key(id.0)
                    &&& writer == match self@.version(id).header.xmax {
                        Some(x) => x,
                        None => self@.version(id).header.xmin,
                    }
                    &&& parse_row(self@.version(id).columns) == Some(row@)
                },
                Ok(None) => !self@.current.contains_key(id.0) && !self@.lost.contains(id.0),
                Err(e) => if self@.current.contains_key(id.0) {
                    !legible(self@.version(id)) && e == illegible(self@.version(id))
                } else {
                    self@.lost.contains(id.0) && e == self@.missing(id)
                },
            },
    {
        if !self.state.directory.contains_key(id.0) && !self.state.lost.contains(id.0) {
            return Ok(None);
        }
        let current: StoredVersion = match self.current(id) {
            Ok(current) => current,
            Err(e) => {
                return Err(e);
            },
        };
        let writer: TxnId = match current.header.xmax {
            Some(x) => x,
            None => current.header.xmin,
        };
        match current.row() {
            Ok(row) => Ok(Some((writer, row))),
            Err(e) => Err(e),
        }
    }

    /// The versions the heap holds, of the row `only` or of the whole table, by increasing row
    /// then serial.
    ///
    /// # Errors
    ///
    /// A corruption for the first of them whose columns are no row, and for a record too short for its
    /// prefix.
    pub fn versions(&self, only: Option<RowId>) -> (r: Result<Vec<VersionView>, InternalError>)
        requires
            self.heap.wf(),
            distinct(self.heap@),
        ensures
            match r {
                Ok(views) => {
                    &&& sound(self.heap@)
                    &&& forall|i: int| 0 <= i < views@.len() ==> (#[trigger] views@[i]).shows(self@)
                    &&& forall|i: int, j: int|
                        0 <= i < j < views@.len() ==> key_before(
                            ((#[trigger] views@[i]).row.0, views@[i].seq),
                            ((#[trigger] views@[j]).row.0, views@[j].seq),
                        )
                    &&& forall|k: (u64, u64)|
                        (self@.contents.contains_key(k) && belongs(RowId(k.0), only))
                            <==> exists|i: int|
                            0 <= i < views@.len() && (#[trigger] views@[i]).row.0 == k.0
                                && views@[i].seq == k.1
                },
                Err(e) => if sound(self.heap@) {
                    versions_fault(self@, only, e)
                } else {
                    short_record(self.heap@, e)
                },
            },
    {
        let list: Vec<StoredVersion> = match self.stored_versions(only) {
            Ok(list) => list,
            Err(e) => {
                return Err(e);
            },
        };
        let mut views: Vec<VersionView> = Vec::new();
        for i in 0..list.len()
            invariant
                sound(self.heap@),
                lists(list@, self.heap@, only),
                keys_sorted(keys_of(list@)),
                forall|k: (u64, u64)| #[trigger]
                    self@.contents.contains_key(k) && belongs(RowId(k.0), only) ==> keys_of(
                        list@,
                    ).contains(k),
                forall|k: int|
                    0 <= k < list@.len() ==> (#[trigger] list@[k]).bytes@.len()
                        >= VERSION_PREFIX_LEN && self@.contents.contains_key(list@[k].key())
                        && self@.contents[list@[k].key()] == stored_in(list@[k].bytes@),
                views@.len() == i,
                forall|k: int|
                    0 <= k < i ==> (#[trigger] views@[k]).shows(self@) && (
                        views@[k].row.0,
                        views@[k].seq,
                    ) == list@[k].key(),
        {
            let version: &StoredVersion = &list[i];
            match version.row() {
                Ok(data) => {
                    views.push(
                        VersionView {
                            row: version.header.row,
                            seq: version.header.seq,
                            xmin: version.header.xmin,
                            xmax: version.header.xmax,
                            data,
                        },
                    );
                },
                Err(e) => {
                    proof {
                        let k = version.key();
                        assert forall|o: (u64, u64)| #[trigger]
                            self@.contents.contains_key(o) && belongs(RowId(o.0), only)
                                && key_before(o, k) implies legible(self@.contents[o]) by {
                            assert(keys_of(list@).contains(o));
                            let x = choose|x: int|
                                0 <= x < keys_of(list@).len() && keys_of(list@)[x] == o;
                            assert(list@[x].key() == o);
                            assert(x < i) by {
                                if x > i {
                                    assert(key_before(
                                        keys_of(list@)[i as int],
                                        keys_of(list@)[x],
                                    ));
                                }
                            }
                            assert(views@[x].shows(self@));
                        }
                        assert(list@[i as int].key() == k);
                        assert(belongs(list@[i as int].header.row, only));
                        assert(self@.contents.contains_key(k));
                    }
                    return Err(e);
                },
            }
        }
        proof {
            assert forall|i: int, j: int| 0 <= i < j < views@.len() implies key_before(
                ((#[trigger] views@[i]).row.0, views@[i].seq),
                ((#[trigger] views@[j]).row.0, views@[j].seq),
            ) by {
                assert(key_before(list@[i].key(), list@[j].key()));
            }
            assert forall|k: (u64, u64)|
                (self@.contents.contains_key(k) && belongs(RowId(k.0), only)) <==> exists|i: int|
                    0 <= i < views@.len() && (#[trigger] views@[i]).row.0 == k.0 && views@[i].seq
                        == k.1 by {
                if self@.contents.contains_key(k) && belongs(RowId(k.0), only) {
                    assert(keys_of(list@).contains(k));
                    let x = choose|x: int| 0 <= x < keys_of(list@).len() && keys_of(list@)[x] == k;
                    assert(views@[x].row.0 == k.0 && views@[x].seq == k.1);
                }
                if exists|i: int|
                    0 <= i < views@.len() && (#[trigger] views@[i]).row.0 == k.0 && views@[i].seq
                        == k.1 {
                    let i = choose|i: int|
                        0 <= i < views@.len() && (#[trigger] views@[i]).row.0 == k.0
                            && views@[i].seq == k.1;
                    assert(list@[i].key() == k);
                    assert(belongs(list@[i].header.row, only));
                }
            }
        }
        Ok(views)
    }

    /// Takes the maintenance log of the writes made since the previous call.
    pub fn take_index_changes(&mut self) -> (r: Vec<IndexChange>)
        requires
            old(self).wf(),
        ensures
            final(self).wf(),
            final(self).shape == old(self).shape,
            r.deep_view() == old(self)@.changes,
            final(self)@ == (HeapTableModel { changes: Seq::empty(), ..old(self)@ }),
    {
        let ghost before = *self;
        let mut log: Vec<IndexChange> = Vec::new();
        core::mem::swap(&mut log, &mut self.state.index_log);
        proof {
            assert(self@.changes =~= Seq::<IndexChangeModel>::empty());
            assert(self@ =~= (HeapTableModel { changes: Seq::empty(), ..before@ }));
        }
        log
    }
}

/// A version that is seen, of a row of which none was listed, is the first that is seen of its row.
proof fn lemma_first_of_its_row(
    t: HeapTableModel,
    snap: Snapshot,
    st: Map<u64, TxnStatus>,
    list: Seq<StoredVersion>,
    i: int,
    keys: Seq<(u64, u64)>,
)
    requires
        0 <= i < list.len(),
        in_order(list),
        forall|k: (u64, u64)| #[trigger] t.contents.contains_key(k) ==> keys_of(list).contains(k),
        t.sees(snap, st, list[i].key()),
        forall|k: int|
            0 <= k < i && t.sees(snap, st, (#[trigger] list[k]).key()) ==> exists|a: int|
                0 <= a < keys.len() && (#[trigger] keys[a]).0 == list[k].header.row.0,
        forall|a: int, b: int|
            0 <= a < b < keys.len() ==> (#[trigger] keys[a]).0 < (#[trigger] keys[b]).0,
        keys.len() > 0 ==> i > 0 && !key_before(list[i - 1].key(), keys.last()) && (keys.last().0
            != list[i].key().0 || keys.last().1 == list[i].key().1),
    ensures
        first_seen(t, snap, st, list[i].header.row, list[i].header.seq),
        forall|a: int| 0 <= a < keys.len() ==> (#[trigger] keys[a]).0 < list[i].key().0,
{
    let key = list[i].key();
    if keys.len() > 0 {
        let z = keys.len() - 1;
        assert(key_before(list[i - 1].key(), key));
        assert(keys[z].0 < key.0);
        assert forall|a: int| 0 <= a < keys.len() implies (#[trigger] keys[a]).0 < key.0 by {
            assert(a < z ==> keys[a].0 < keys[z].0);
        }
    }
    assert forall|s: u64| s < key.1 implies !#[trigger] t.sees(snap, st, (key.0, s)) by {
        if t.sees(snap, st, (key.0, s)) {
            assert(keys_of(list).contains((key.0, s)));
            let x = choose|x: int|
                0 <= x < keys_of(list).len() && keys_of(list)[x] == (key.0, s);
            assert(list[x].key() == (key.0, s));
            if x > i {
                assert(key_before(list[i].key(), list[x].key()));
            }
            assert(t.sees(snap, st, list[x].key()));
        }
    }
}

/// A version that is the first seen of its row, and comes before the place a walk has reached, was
/// listed.
proof fn lemma_listed(
    t: HeapTableModel,
    snap: Snapshot,
    st: Map<u64, TxnStatus>,
    list: Seq<StoredVersion>,
    i: int,
    keys: Seq<(u64, u64)>,
    o: (u64, u64),
)
    requires
        0 <= i <= list.len(),
        in_order(list),
        forall|k: (u64, u64)| #[trigger] t.contents.contains_key(k) ==> keys_of(list).contains(k),
        forall|k: int|
            0 <= k < i && t.sees(snap, st, (#[trigger] list[k]).key()) ==> exists|a: int|
                0 <= a < keys.len() && (#[trigger] keys[a]).0 == list[k].header.row.0,
        forall|a: int|
            0 <= a < keys.len() ==> first_seen(
                t,
                snap,
                st,
                RowId((#[trigger] keys[a]).0),
                keys[a].1,
            ),
        first_seen(t, snap, st, RowId(o.0), o.1),
        i < list.len() ==> o.0 < list[i].key().0,
    ensures
        exists|a: int| 0 <= a < keys.len() && #[trigger] keys[a] == o,
        keys.contains(o),
{
    assert(t.sees(snap, st, (o.0, o.1)));
    assert(t.contents.contains_key((o.0, o.1)));
    assert(keys_of(list).contains(o));
    let x = choose|x: int| 0 <= x < keys_of(list).len() && keys_of(list)[x] == o;
    assert(list[x].key() == o);
    if x > i {
        assert(key_before(list[i].key(), list[x].key()));
    }
    assert(x < i);
    let a = choose|a: int| 0 <= a < keys.len() && (#[trigger] keys[a]).0 == list[x].header.row.0;
    assert(first_seen(t, snap, st, RowId(keys[a].0), keys[a].1));
    assert(t.sees(snap, st, (o.0, keys[a].1)));
    assert(keys[a].1 == o.1);
    assert(keys[a] == o);
}

/// Whether the record at `rid` is too short for the prefix of a version, or its serial is not below
/// `next_seq`.
pub open spec fn unfit(h: Map<u64, Seq<u8>>, next_seq: u64, rid: u64) -> bool {
    h.contains_key(rid) && (h[rid].len() < VERSION_PREFIX_LEN || header_of(h[rid]).seq >= next_seq)
}

/// The error of a record that is too short for its prefix, or whose serial is not below the counter.
pub open spec fn unfit_error(table: TableId, bytes: Seq<u8>) -> InternalError {
    if bytes.len() < VERSION_PREFIX_LEN {
        InternalError::Corruption(Corruption::VersionTooShort { bytes: bytes.len() as usize })
    } else {
        InternalError::Bug(Bug::SerialsExhausted(table))
    }
}

/// Whether `seq` is the largest serial of `row` among the versions no aborted transaction
/// created.
pub open spec fn resumes_at(
    t: HeapTableModel,
    st: Map<u64, TxnStatus>,
    row: u64,
    seq: u64,
) -> bool {
    &&& t.contents.contains_key((row, seq))
    &&& status_of(st, t.contents[(row, seq)].header.xmin) != TxnStatus::Aborted
    &&& forall|s: u64|
        #![trigger t.contents.contains_key((row, s))]
        t.contents.contains_key((row, s)) && status_of(st, t.contents[(row, s)].header.xmin)
            != TxnStatus::Aborted ==> s <= seq
}

impl HeapTable {
    /// Attaches to the heap of a table, leaving the records as they stand. The directory and the
    /// counters start empty: [`HeapTable::get`] and [`HeapTable::scan`], which walk the heap, serve its
    /// rows, while [`HeapTable::latest_version`] answers that it knows none, until
    /// [`HeapTable::resume_after_recovery`] rebuilds them.
    pub fn open(heap: Heap, shape: TableShape) -> (r: Self)
        ensures
            r.heap == heap,
            r.shape == shape,
            r@.current == Map::<u64, u64>::empty(),
            r@.lost == Set::<u64>::empty(),
            r@.writes == Map::<u64, Seq<RowUndo>>::empty(),
            r@.changes == Seq::<IndexChangeModel>::empty(),
            r@.next_row_id == 1,
            r@.next_seq == 1,
            !r@.resumed,
            heap.wf() && sound(heap@) ==> r.attached(),
    {
        let r = HeapTable { heap, shape, state: TableState::default() };
        assert(r@.current =~= Map::<u64, u64>::empty());
        assert(r@.changes =~= Seq::<IndexChangeModel>::empty());
        r
    }

    /// Whether the state of this table still has to be rebuilt from what the recovery found.
    pub fn state_needs_resume(&self) -> (r: bool)
        ensures
            r == !self@.resumed,
    {
        self.state.needs_resume()
    }

    /// Takes the counters and the register of the recovery, and rebuilds the directory by walking
    /// the heap.
    ///
    /// `losers` are registered aborted, which hides a version of theirs that reached the heap;
    /// `winners` are registered committed, which refuses a second write under an identifier the
    /// journal has ended. The rest is [`HeapTable::resume`].
    ///
    /// # Errors
    ///
    /// Those of [`HeapTable::resume`].
    pub fn resume_after_recovery(
        &mut self,
        journal: &mut Journal,
        next_row_id: u64,
        next_seq: u64,
        winners: &Vec<TxnId>,
        losers: &Vec<TxnId>,
    ) -> (r: Result<(), InternalError>)
        requires
            old(self).heap.wf(),
            distinct(old(self).heap@),
            old(journal).wf(),
        ensures
            final(journal).wf(),
            final(journal).wal == old(journal).wal,
            final(journal)@ == old(journal)@.settled(winners@, TxnStatus::Committed).settled(
                losers@,
                TxnStatus::Aborted,
            ),
            old(self).resumes(final(self), final(journal)@.st(), next_row_id, next_seq, r),
    {
        journal.register_recovered(winners, losers);
        self.resume(journal, next_row_id, next_seq)
    }

    /// Whether `after` and `r` are what rebuilding the state of this table leaves and answers.
    pub open spec fn resumes(
        &self,
        after: &HeapTable,
        st: Map<u64, TxnStatus>,
        next_row_id: u64,
        next_seq: u64,
        r: Result<(), InternalError>,
    ) -> bool {
        &&& after.heap == self.heap
        &&& after.shape == self.shape
        &&& after@.next_row_id == larger(self@.next_row_id, next_row_id)
        &&& after@.next_seq == larger(self@.next_seq, next_seq)
        &&& after@.writes == self@.writes
        &&& after@.changes == self@.changes
        &&& after@.lost == Set::<u64>::empty()
        &&& after@.resumed
        &&& match r {
            Ok(_) => {
                &&& after.wf()
                &&& forall|row: u64, seq: u64| #[trigger]
                    resumes_at(after@, st, row, seq) ==> after@.current.contains_key(row)
                &&& forall|row: u64| #[trigger]
                    after@.current.contains_key(row) ==> resumes_at(
                        after@,
                        st,
                        row,
                        after@.current[row],
                    )
            },
            Err(e) => exists|rid: u64| #[trigger]
                unfit(self.heap@, after@.next_seq, rid) && e == unfit_error(
                    self@.table,
                    self.heap@[rid],
                ),
        }
    }

    /// Moves the two counters forward, so that a row identifier an interrupted insert took is not
    /// handed out a second time, and rebuilds the directory: for each row its largest serial among
    /// the versions no aborted transaction created.
    ///
    /// # Errors
    ///
    /// A corruption for a record too short for its prefix; a bug for a version whose serial the
    /// counter does not cover. The columns are not read.
    pub fn resume(&mut self, journal: &Journal, next_row_id: u64, next_seq: u64) -> (r: Result<
        (),
        InternalError,
    >)
        requires
            old(self).heap.wf(),
            distinct(old(self).heap@),
        ensures
            old(self).resumes(final(self), journal@.st(), next_row_id, next_seq, r),
    {
        if next_row_id > self.state.next_row_id {
            self.state.next_row_id = next_row_id;
        }
        if next_seq > self.state.next_seq {
            self.state.next_seq = next_seq;
        }
        self.state.resumed();
        self.state.directory = OrdMap::new();
        self.state.lost = IdSet::new();
        match self.check_versions() {
            Ok(_) => {},
            Err(e) => {
                proof {
                    let rid = choose|rid: u64| #[trigger]
                        unfit(self.heap@, self@.next_seq, rid) && e == unfit_error(
                            self@.table,
                            self.heap@[rid],
                        );
                    assert(unfit(old(self).heap@, self@.next_seq, rid));
                }
                return Err(e);
            },
        }
        let ghost bare = *self;
        assert(self@.current =~= Map::<u64, u64>::empty());
        let list: Vec<StoredVersion> = match self.stored_versions(None) {
            Ok(list) => list,
            Err(e) => {
                assert(false);
                return Err(e);
            },
        };
        let ghost st = journal@.st();
        for i in 0..list.len()
            invariant
                st == journal@.st(),
                self.wf(),
                self.heap == bare.heap,
                self.shape == bare.shape,
                self@ == (HeapTableModel { current: self@.current, ..bare@ }),
                bare@.lost == Set::<u64>::empty(),
                lists(list@, self.heap@, None),
                forall|k: int|
                    0 <= k < list@.len() ==> bare@.contents.contains_key(
                        (#[trigger] list@[k]).key(),
                    ) && bare@.contents[list@[k].key()] == stored_in(list@[k].bytes@),
                forall|k: int|
                    0 <= k < i && status_of(st, (#[trigger] list@[k]).header.xmin)
                        != TxnStatus::Aborted ==> self@.current.contains_key(list@[k].header.row.0)
                        && list@[k].header.seq <= self@.current[list@[k].header.row.0],
                forall|row: u64| #[trigger]
                    self@.current.contains_key(row) ==> exists|k: int|
                        0 <= k < i && (#[trigger] list@[k]).key() == (row, self@.current[row])
                            && status_of(st, list@[k].header.xmin) != TxnStatus::Aborted,
        {
            let version: &StoredVersion = &list[i];
            let ghost before = *self;
            if journal.txn_status(version.header.xmin) != TxnStatus::Aborted {
                self.state.directory.insert(version.header.row.0, version.rid);
                proof {
                    let row = version.header.row.0;
                    assert(version.reads(self.heap@));
                    assert(self@.current =~= before@.current.insert(row, version.header.seq));
                    assert(self@ =~= (HeapTableModel { current: self@.current, ..bare@ }));
                    assert(directs(self.state.directory@, self.heap@));
                    assert forall|r: u64| #[trigger] self@.current.contains_key(r) implies
                        self@.contents.contains_key((r, self@.current[r])) && exists|k: int|
                        0 <= k < i + 1 && (#[trigger] list@[k]).key() == (r, self@.current[r])
                            && status_of(st, list@[k].header.xmin) != TxnStatus::Aborted by {
                        if r == row {
                            assert(list@[i as int].key() == (r, self@.current[r]));
                        } else {
                            assert(before@.current.contains_key(r));
                            let k = choose|k: int|
                                0 <= k < i && (#[trigger] list@[k]).key() == (
                                    r,
                                    before@.current[r],
                                ) && status_of(st, list@[k].header.xmin) != TxnStatus::Aborted;
                            assert(list@[k].key() == (r, self@.current[r]));
                        }
                    }
                    assert forall|k: int|
                        0 <= k < i + 1 && status_of(st, (#[trigger] list@[k]).header.xmin)
                            != TxnStatus::Aborted implies self@.current.contains_key(
                        list@[k].header.row.0,
                    ) && list@[k].header.seq <= self@.current[list@[k].header.row.0] by {
                        if k < i {
                            assert(key_before(list@[k].key(), list@[i as int].key()));
                        }
                    }
                }
            }
        }
        proof {
            assert forall|row: u64, seq: u64| #[trigger]
                self@.contents.contains_key((row, seq)) && status_of(
                    st,
                    self@.contents[(row, seq)].header.xmin,
                ) != TxnStatus::Aborted implies self@.current.contains_key(row) && seq
                <= self@.current[row] by {
                let k = (row, seq);
                assert(belongs(RowId(k.0), None));
                assert(keys_of(list@).contains(k));
                let x = choose|x: int| 0 <= x < keys_of(list@).len() && keys_of(list@)[x] == k;
                assert(list@[x].key() == k);
            }
            assert forall|row: u64| #[trigger] self@.current.contains_key(row) implies resumes_at(
                self@,
                st,
                row,
                self@.current[row],
            ) by {
                let k = choose|k: int|
                    0 <= k < list@.len() && (#[trigger] list@[k]).key() == (
                        row,
                        self@.current[row],
                    ) && status_of(st, list@[k].header.xmin) != TxnStatus::Aborted;
                assert(self@.contents.contains_key(list@[k].key()));
            }
        }
        Ok(())
    }

    /// Checks that every record of the heap has a prefix and a serial below the counter.
    fn check_versions(&self) -> (r: Result<(), InternalError>)
        requires
            self.heap.wf(),
            distinct(self.heap@),
            self.state.directory@ == Map::<u64, Rid>::empty(),
            self.state.lost@ == Set::<u64>::empty(),
        ensures
            match r {
                Ok(_) => self.wf(),
                Err(e) => exists|rid: u64| #[trigger]
                    unfit(self.heap@, self@.next_seq, rid) && e == unfit_error(
                        self@.table,
                        self.heap@[rid],
                    ),
            },
    {
        let addresses: Vec<u64> = self.heap.scan();
        for i in 0..addresses.len()
            invariant
                self.heap.wf(),
                forall|rid: u64| #[trigger]
                    addresses@.contains(rid) <==> self.heap@.contains_key(rid),
                forall|k: int|
                    0 <= k < i ==> !unfit(self.heap@, self@.next_seq, #[trigger] addresses@[k]),
        {
            let rid: Rid = Rid(addresses[i]);
            assert(addresses@.contains(rid.0));
            match self.heap.get(rid) {
                Some(bytes) => {
                    let header: VersionHeader = match VersionHeader::read_from(bytes.as_slice()) {
                        Ok(header) => header,
                        Err(e) => {
                            assert(unfit(self.heap@, self@.next_seq, rid.0));
                            return Err(e);
                        },
                    };
                    if header.seq >= self.state.next_seq {
                        assert(unfit(self.heap@, self@.next_seq, rid.0));
                        return Err(InternalError::Bug(Bug::SerialsExhausted(self.heap.table)));
                    }
                },
                None => {
                    assert(false);
                },
            }
        }
        proof {
            assert forall|rid: u64| #[trigger] self.heap@.contains_key(rid) implies self.heap@[rid].len()
                >= VERSION_PREFIX_LEN by {
                assert(addresses@.contains(rid));
                let x = choose|x: int| 0 <= x < addresses@.len() && addresses@[x] == rid;
                assert(!unfit(self.heap@, self@.next_seq, addresses@[x]));
            }
            assert forall|k: (u64, u64)| #[trigger] self@.contents.contains_key(k) implies {
                &&& self@.contents[k].key() == k
                &&& self@.contents[k].header.storable()
                &&& k.1 < self@.next_seq
            } by {
                lemma_placed(self.heap@, k);
                let rid = place(self.heap@, k);
                assert(addresses@.contains(rid));
                let x = choose|x: int| 0 <= x < addresses@.len() && addresses@[x] == rid;
                assert(!unfit(self.heap@, self@.next_seq, addresses@[x]));
                law_record_is_prefix_then_columns(self.heap@[rid]);
            }
            assert(self@.current =~= Map::<u64, u64>::empty());
        }
        Ok(())
    }
}

/// The larger of two numbers.
pub open spec fn larger(a: u64, b: u64) -> u64 {
    if a >= b {
        a
    } else {
        b
    }
}

/// Membership after a push.
proof fn lemma_push_contains(s: Seq<(u64, u64)>, x: (u64, u64))
    ensures
        forall|k: (u64, u64)| #[trigger] s.push(x).contains(k) <==> s.contains(k) || k == x,
{
    assert forall|k: (u64, u64)| #[trigger] s.push(x).contains(k) <==> s.contains(k) || k == x by {
        if s.contains(k) {
            let i = choose|i: int| 0 <= i < s.len() && s[i] == k;
            assert(s.push(x)[i] == k);
        }
        if s.push(x).contains(k) {
            let i = choose|i: int| 0 <= i < s.push(x).len() && s.push(x)[i] == k;
            if i < s.len() {
                assert(s[i] == k);
            }
        }
        assert(s.push(x)[s.len() as int] == x);
    }
}

/// Whether `snap` sees a version with this prefix, the statuses being those of the journal.
pub(crate) fn journal_sees(journal: &Journal, snap: &Snapshot, header: &VersionHeader) -> (r: bool)
    ensures
        r == snap.visible(header.xmin, header.xmax, journal@.st()),
{
    let xmax: Option<(TxnId, TxnStatus)> = match header.xmax {
        Some(x) => Some((x, journal.txn_status(x))),
        None => None,
    };
    snap.is_visible((header.xmin, journal.txn_status(header.xmin)), xmax)
}

/// Whether a version was read from the heap and belongs to `only`.
pub open spec fn readable(v: StoredVersion, h: Map<u64, Seq<u8>>, only: Option<RowId>) -> bool {
    v.reads(h) && belongs(v.header.row, only) && v.bytes@.len() >= VERSION_PREFIX_LEN
}

/// Whether a list of versions is in order, no version twice.
pub open spec fn in_order(list: Seq<StoredVersion>) -> bool {
    forall|a: int, b: int|
        0 <= a < b < list.len() ==> key_before((#[trigger] list[a]).key(), (#[trigger] list[b]).key())
}

/// Puts a version at its place in a list in order.
fn add_in_order(list: &mut Vec<StoredVersion>, version: StoredVersion)
    requires
        in_order(old(list)@),
        forall|k: int|
            0 <= k < old(list)@.len() ==> (#[trigger] old(list)@[k]).key() != version.key(),
    ensures
        in_order(final(list)@),
        exists|at: int|
            0 <= at <= old(list)@.len() && final(list)@ == #[trigger] old(list)@.insert(
                at,
                version,
            ),
{
    let at: usize = place_for(list, &version);
    let ghost before = list@;
    let ghost added = version;
    list.insert(at, version);
    proof {
        assert(list@ == before.insert(at as int, added));
        assert forall|a: int, b: int| 0 <= a < b < list@.len() implies key_before(
            (#[trigger] list@[a]).key(),
            (#[trigger] list@[b]).key(),
        ) by {
            let oa = if a < at {
                a
            } else {
                a - 1
            };
            let ob = if b < at {
                b
            } else {
                b - 1
            };
            if a == at {
                assert(list@[b] == before[ob]);
            } else if b == at {
                assert(list@[a] == before[oa]);
            } else {
                assert(list@[a] == before[oa] && list@[b] == before[ob]);
            }
        }
    }
}

/// What a list holds once a version is put in it.
proof fn lemma_added(before: Seq<StoredVersion>, after: Seq<StoredVersion>, added: StoredVersion)
    requires
        exists|at: int|
            0 <= at <= before.len() && after == #[trigger] before.insert(at, added),
    ensures
        forall|k: int|
            0 <= k < after.len() ==> #[trigger] after[k] == added || before.contains(after[k]),
        forall|k: int| 0 <= k < before.len() ==> after.contains(#[trigger] before[k]),
        exists|k: int| 0 <= k < after.len() && #[trigger] after[k] == added,
{
    let at = choose|at: int|
        0 <= at <= before.len() && after == #[trigger] before.insert(at, added);
    assert(after[at] == added);
    assert forall|k: int| 0 <= k < after.len() implies #[trigger] after[k] == added
        || before.contains(after[k]) by {
        if k < at {
            assert(before[k] == after[k]);
        }
        if k > at {
            assert(before[k - 1] == after[k]);
        }
    }
    assert forall|k: int| 0 <= k < before.len() implies after.contains(#[trigger] before[k]) by {
        if k < at {
            assert(after[k] == before[k]);
        } else {
            assert(after[k + 1] == before[k]);
        }
    }
}

/// Where a version goes in a list in order.
fn place_for(list: &Vec<StoredVersion>, version: &StoredVersion) -> (r: usize)
    requires
        in_order(list@),
    ensures
        r <= list@.len(),
        forall|k: int| 0 <= k < r ==> !key_before(version.key(), (#[trigger] list@[k]).key()),
        forall|k: int|
            r <= k < list@.len() ==> key_before(version.key(), (#[trigger] list@[k]).key()),
{
    let mut at: usize = 0;
    while at < list.len() && (list[at].header.row.0 < version.header.row.0 || (
    list[at].header.row.0 == version.header.row.0 && list[at].header.seq <= version.header.seq))
        invariant
            at <= list@.len(),
            forall|k: int| 0 <= k < at ==> !key_before(version.key(), (#[trigger] list@[k]).key()),
        decreases list@.len() - at,
    {
        at = at + 1;
    }
    proof {
        assert forall|k: int| at <= k < list@.len() implies key_before(
            version.key(),
            (#[trigger] list@[k]).key(),
        ) by {
            if k > at {
                assert(key_before(list@[at as int].key(), list@[k].key()));
            }
        }
    }
    at
}

} // verus!
