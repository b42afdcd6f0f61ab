//! The second pass of the recovery: the row records of the winners, applied to the heaps.

use vstd::prelude::*;

use super::bytes::put_bytes;
use super::contents::{
    contents, distinct, is_at, lemma_contents_at, lemma_hidden, lemma_placed, lemma_put,
    lemma_written, place, sound, stored_in, StoredModel,
};
use super::heap::{Heap, Rid};
use super::recover::{is_row, Recovery};
use super::version::{
    header_of, law_record_is_prefix_then_columns, patched, too_short, with_xmax, xmax_field,
    xmax_of, VersionHeader, NO_XMAX, VERSION_PREFIX_LEN,
};
use super::wal::{RecordModel, WalRecord, WalRecordKind};
use super::wal_payload::{change_of, ChangeModel, RowChange, PREFIX_LEN};
use crate::error::{Bug, Corruption, InternalError};
use crate::ids::{RowId, TableId, TxnId};
use crate::ordmap::{IdSet, OrdMap};

verus! {

/// Whether `p` is the largest serial of `row` below `seq`.
pub open spec fn is_previous(
    c: Map<(u64, u64), StoredModel>,
    row: u64,
    seq: u64,
    p: u64,
) -> bool {
    &&& c.contains_key((row, p))
    &&& p < seq
    &&& forall|q: u64| q < seq && #[trigger] c.contains_key((row, q)) ==> q <= p
}

/// The largest serial of `row` below `seq`, if there is one.
pub open spec fn previous(c: Map<(u64, u64), StoredModel>, row: u64, seq: u64) -> Option<u64> {
    if exists|p: u64| is_previous(c, row, seq, p) {
        Some(choose|p: u64| is_previous(c, row, seq, p))
    } else {
        None
    }
}

/// The versions once the one of `change` is written, unless it is there already.
pub open spec fn with_version(
    c: Map<(u64, u64), StoredModel>,
    change: ChangeModel,
) -> Map<(u64, u64), StoredModel> {
    let version = StoredModel { header: change.header, columns: change.columns };
    if c.contains_key(version.key()) {
        c
    } else {
        c.insert(version.key(), version)
    }
}

/// The versions once `key` is hidden by `txn`, unless it is hidden already.
pub open spec fn with_hidden(
    c: Map<(u64, u64), StoredModel>,
    key: (u64, u64),
    txn: TxnId,
) -> Map<(u64, u64), StoredModel> {
    if c[key].header.xmax is Some {
        c
    } else {
        c.insert(key, c[key].with_xmax(xmax_of(txn.0)))
    }
}

/// The versions once the one of `row` that comes before `seq` is hidden by `txn`.
pub open spec fn with_previous_hidden(
    c: Map<(u64, u64), StoredModel>,
    row: u64,
    seq: u64,
    txn: TxnId,
) -> Map<(u64, u64), StoredModel> {
    match previous(c, row, seq) {
        Some(p) => with_hidden(c, (row, p), txn),
        None => c,
    }
}

/// The row and the serial a change names.
pub open spec fn change_key(change: ChangeModel) -> (u64, u64) {
    (change.header.row.0, change.header.seq)
}

/// What one row record does to the versions of its table, and whether it writes; `None` for a
/// delete of a version that is not there.
pub open spec fn replayed(
    c: Map<(u64, u64), StoredModel>,
    kind: WalRecordKind,
    change: ChangeModel,
    txn: TxnId,
) -> Option<(Map<(u64, u64), StoredModel>, bool)> {
    let key = change_key(change);
    match kind {
        WalRecordKind::Insert => Some((with_version(c, change), !c.contains_key(key))),
        WalRecordKind::Update => Some(
            (
                with_version(with_previous_hidden(c, key.0, key.1, txn), change),
                !c.contains_key(key),
            ),
        ),
        _ => if c.contains_key(key) {
            Some((with_hidden(c, key, txn), c[key].header.xmax is None))
        } else {
            None
        },
    }
}

/// Where one version sits and what its prefix says, as the redo tracks it.
#[derive(Debug, Clone, Copy)]
pub struct Placed {
    /// Address of the version in the heap.
    pub rid: Rid,
    /// Its prefix, `xmax` included.
    pub header: VersionHeader,
}

/// The redo of one table: its heap and the versions the heap holds.
///
/// The list of the versions is built by walking the heap before the first record is applied and
/// kept up to date by the redo itself.
#[derive(Debug)]
pub struct RedoHeap {
    /// The heap the versions go to.
    pub heap: Heap,
    /// The versions the heap holds.
    pub versions: Vec<Placed>,
}

/// What a [`RedoHeap`] stands for.
#[verifier::ext_equal]
pub struct RedoModel {
    /// The table.
    pub table: TableId,
    /// The records of its heap.
    pub heap: Map<u64, Seq<u8>>,
    /// The next address of the heap.
    pub next: u64,
    /// The versions the heap holds.
    pub versions: Seq<Placed>,
}

impl View for RedoHeap {
    type V = RedoModel;

    open spec fn view(&self) -> RedoModel {
        RedoModel {
            table: self.heap.table,
            heap: self.heap@,
            next: self.heap.next,
            versions: self.versions@,
        }
    }
}

impl DeepView for RedoHeap {
    type V = RedoModel;

    open spec fn deep_view(&self) -> RedoModel {
        self@
    }
}

/// Whether `list` names exactly the records of the heap `h`, each with its prefix.
pub open spec fn tracks(list: Seq<Placed>, h: Map<u64, Seq<u8>>) -> bool {
    &&& forall|i: int|
        0 <= i < list.len() ==> h.contains_key((#[trigger] list[i]).rid.0) && header_of(
            h[list[i].rid.0],
        ) == list[i].header
    &&& forall|rid: u64| #[trigger]
        h.contains_key(rid) ==> exists|i: int| 0 <= i < list.len() && #[trigger] list[i].rid.0 == rid
    &&& forall|i: int, j: int|
        0 <= i < list.len() && 0 <= j < list.len() && (#[trigger] list[i]).rid == (
        #[trigger] list[j]).rid ==> i == j
}

impl RedoModel {
    /// Whether the list of the versions is the one of the heap.
    pub open spec fn wf(self) -> bool {
        &&& sound(self.heap)
        &&& forall|rid: u64| #[trigger] self.heap.contains_key(rid) ==> rid < self.next
        &&& tracks(self.versions, self.heap)
    }

    /// The versions of the table.
    pub open spec fn contents(self) -> Map<(u64, u64), StoredModel> {
        contents(self.heap)
    }
}

impl RedoHeap {
    /// Attaches to a heap, and walks it.
    ///
    /// # Errors
    ///
    /// A corruption for a record too short for its prefix.
    pub fn over(heap: Heap) -> (r: Result<Self, InternalError>)
        requires
            heap.wf(),
        ensures
            match r {
                Ok(redo) => redo.heap == heap && (distinct(heap@) ==> redo@.wf()),
                Err(e) => exists|rid: u64| #[trigger]
                    heap@.contains_key(rid) && heap@[rid].len() < VERSION_PREFIX_LEN && too_short(
                        heap@[rid].len(),
                        e,
                    ),
            },
    {
        let addresses: Vec<u64> = heap.scan();
        let mut versions: Vec<Placed> = Vec::new();
        for i in 0..addresses.len()
            invariant
                forall|rid: u64| #[trigger]
                    addresses@.contains(rid) <==> heap@.contains_key(rid),
                versions@.len() == i,
                forall|k: int|
                    0 <= k < i ==> (#[trigger] versions@[k]).rid.0 == addresses@[k] && header_of(
                        heap@[addresses@[k]],
                    ) == versions@[k].header,
                forall|k: int|
                    0 <= k < i ==> heap@[#[trigger] addresses@[k]].len() >= VERSION_PREFIX_LEN,
        {
            let rid: Rid = Rid(addresses[i]);
            assert(addresses@.contains(rid.0));
            match heap.get(rid) {
                Some(bytes) => {
                    let header: VersionHeader = match VersionHeader::read_from(bytes.as_slice()) {
                        Ok(header) => header,
                        Err(e) => {
                            return Err(e);
                        },
                    };
                    versions.push(Placed { rid, header });
                },
                None => {
                    assert(false);
                },
            }
        }
        proof {
            assert forall|rid: u64| #[trigger] heap@.contains_key(rid) implies heap@[rid].len()
                >= VERSION_PREFIX_LEN && exists|i: int|
                0 <= i < versions@.len() && #[trigger] versions@[i].rid.0 == rid by {
                assert(addresses@.contains(rid));
                let k = choose|k: int| 0 <= k < addresses@.len() && addresses@[k] == rid;
                assert(versions@[k].rid.0 == rid);
            }
            assert forall|i: int| 0 <= i < versions@.len() implies heap@.contains_key(
                (#[trigger] versions@[i]).rid.0,
            ) by {
                assert(addresses@.contains(addresses@[i]));
            }
        }
        Ok(RedoHeap { heap, versions })
    }

    /// The position of the version `(row, seq)` in the list.
    fn find(&self, row: RowId, seq: u64) -> (r: Option<usize>)
        requires
            self@.wf(),
        ensures
            match r {
                Some(i) => {
                    &&& i < self.versions@.len()
                    &&& is_at(self.heap@, (row.0, seq), self.versions@[i as int].rid.0)
                    &&& self@.contents().contains_key((row.0, seq))
                    &&& self@.contents()[(row.0, seq)] == stored_in(
                        self.heap@[self.versions@[i as int].rid.0],
                    )
                },
                None => !self@.contents().contains_key((row.0, seq)),
            },
    {
        for i in 0..self.versions.len()
            invariant
                self@.wf(),
                forall|k: int|
                    0 <= k < i ==> !((#[trigger] self.versions@[k]).header.row == row
                        && self.versions@[k].header.seq == seq),
        {
            let header: VersionHeader = self.versions[i].header;
            if header.row == row && header.seq == seq {
                proof {
                    lemma_contents_at(self.heap@, self.versions@[i as int].rid.0);
                }
                return Some(i);
            }
        }
        proof {
            let key = (row.0, seq);
            if self@.contents().contains_key(key) {
                lemma_placed(self.heap@, key);
                let rid = place(self.heap@, key);
                assert(self.heap@.contains_key(rid));
                let k = choose|k: int|
                    0 <= k < self.versions@.len() && #[trigger] self.versions@[k].rid.0 == rid;
                assert(self.versions@[k].header.row == row);
            }
        }
        None
    }

    /// Writes the version of `change` when the heap does not hold it yet, and answers whether it
    /// wrote.
    ///
    /// # Errors
    ///
    /// A bug when the heap has no address left.
    pub fn insert(&mut self, change: &RowChange) -> (r: Result<bool, InternalError>)
        requires
            old(self)@.wf(),
            change@.header.storable(),
        ensures
            final(self)@.wf(),
            final(self)@.table == old(self)@.table,
            match r {
                Ok(written) => {
                    &&& final(self)@.contents() == with_version(old(self)@.contents(), change@)
                    &&& written == !old(self)@.contents().contains_key(change_key(change@))
                    &&& final(self)@.next == old(self)@.next + if written {
                        1int
                    } else {
                        0
                    }
                    &&& !written ==> *final(self) == *old(self)
                },
                Err(e) => {
                    &&& *final(self) == *old(self)
                    &&& !old(self)@.contents().contains_key(change_key(change@))
                    &&& old(self)@.next == u64::MAX
                    &&& e == InternalError::Bug(Bug::HeapFull(old(self)@.table))
                },
            },
    {
        if self.find(change.header.row, change.header.seq).is_some() {
            return Ok(false);
        }
        let ghost before = self@;
        let mut bytes: Vec<u8> = Vec::with_capacity(VERSION_PREFIX_LEN);
        change.header.write_to(&mut bytes);
        put_bytes(&mut bytes, change.columns.as_slice());
        assert(bytes@ =~= change.header.encoded() + change.columns@);
        proof {
            lemma_written(change.header, change.columns@);
        }
        let rid: Rid = match self.heap.insert(bytes.as_slice()) {
            Ok(rid) => rid,
            Err(e) => {
                return Err(e);
            },
        };
        self.versions.push(Placed { rid, header: change.header });
        proof {
            lemma_put(before.heap, rid.0, bytes@);
            lemma_tracks_more(before.versions, before.heap, self.versions@.last(), bytes@);
        }
        Ok(true)
    }

    /// Sets `xmax` on the version `(row, seq)`, and answers whether it wrote. A version that
    /// already carries an `xmax` is left as it stands.
    ///
    /// # Errors
    ///
    /// A corruption when the heap does not hold the version.
    pub fn hide_version(&mut self, row: RowId, seq: u64, txn: TxnId) -> (r: Result<bool, InternalError>)
        requires
            old(self)@.wf(),
        ensures
            final(self)@.wf(),
            final(self)@.table == old(self)@.table,
            final(self)@.next == old(self)@.next,
            match r {
                Ok(written) => {
                    &&& old(self)@.contents().contains_key((row.0, seq))
                    &&& final(self)@.contents() == with_hidden(
                        old(self)@.contents(),
                        (row.0, seq),
                        txn,
                    )
                    &&& written == (old(self)@.contents()[(row.0, seq)].header.xmax is None)
                },
                Err(e) => {
                    &&& *final(self) == *old(self)
                    &&& !old(self)@.contents().contains_key((row.0, seq))
                    &&& e == InternalError::Corruption(
                        Corruption::HiddenVersionMissing { table: old(self)@.table, row, seq },
                    )
                },
            },
    {
        match self.find(row, seq) {
            Some(i) => Ok(self.rewrite(i, txn)),
            None => Err(
                InternalError::Corruption(
                    Corruption::HiddenVersionMissing { table: self.heap.table, row, seq },
                ),
            ),
        }
    }

    /// Sets `xmax` on the version of `row` that comes before `seq`: the one an update replaces.
    /// Answers whether it wrote; a row with no earlier version in the heap leaves nothing to
    /// hide.
    pub fn hide_previous(&mut self, row: RowId, seq: u64, txn: TxnId) -> (r: bool)
        requires
            old(self)@.wf(),
        ensures
            final(self)@.wf(),
            final(self)@.table == old(self)@.table,
            final(self)@.next == old(self)@.next,
            final(self)@.contents() == with_previous_hidden(
                old(self)@.contents(),
                row.0,
                seq,
                txn,
            ),
            r == match previous(old(self)@.contents(), row.0, seq) {
                Some(p) => old(self)@.contents()[(row.0, p)].header.xmax is None,
                None => false,
            },
    {
        let ghost c = self@.contents();
        let mut best: Option<usize> = None;
        for i in 0..self.versions.len()
            invariant
                self@.wf(),
                self@ == old(self)@,
                match best {
                    Some(b) => {
                        &&& b < i
                        &&& self.versions@[b as int].header.row == row
                        &&& self.versions@[b as int].header.seq < seq
                        &&& forall|k: int|
                            0 <= k < i && (#[trigger] self.versions@[k]).header.row == row
                                && self.versions@[k].header.seq < seq
                                ==> self.versions@[k].header.seq <= self.versions@[b as int].header.seq
                    },
                    None => forall|k: int|
                        0 <= k < i ==> !((#[trigger] self.versions@[k]).header.row == row
                            && self.versions@[k].header.seq < seq),
                },
        {
            let header: VersionHeader = self.versions[i].header;
            if header.row == row && header.seq < seq {
                let better: bool = match best {
                    Some(b) => self.versions[b].header.seq < header.seq,
                    None => true,
                };
                if better {
                    best = Some(i);
                }
            }
        }
        proof {
            assert forall|q: u64| q < seq && #[trigger] c.contains_key((row.0, q)) implies exists|
                k: int,
            |
                0 <= k < self.versions@.len() && (#[trigger] self.versions@[k]).header.row == row
                    && self.versions@[k].header.seq == q by {
                lemma_placed(self.heap@, (row.0, q));
                let rid = place(self.heap@, (row.0, q));
                assert(self.heap@.contains_key(rid));
                let k = choose|k: int|
                    0 <= k < self.versions@.len() && #[trigger] self.versions@[k].rid.0 == rid;
                assert(self.versions@[k].header.row == row);
            }
        }
        match best {
            Some(b) => {
                proof {
                    let p = self.versions@[b as int].header.seq;
                    lemma_contents_at(self.heap@, self.versions@[b as int].rid.0);
                    assert(is_previous(c, row.0, seq, p));
                    let chosen = choose|x: u64| is_previous(c, row.0, seq, x);
                    assert(is_previous(c, row.0, seq, chosen));
                    assert(chosen == p);
                }
                self.rewrite(b, txn)
            },
            None => {
                proof {
                    assert forall|p: u64| !is_previous(c, row.0, seq, p) by {
                        if is_previous(c, row.0, seq, p) {
                            assert(c.contains_key((row.0, p)));
                        }
                    }
                }
                false
            },
        }
    }

    /// Rewrites the version at `at` in the list with `xmax` set to `txn`, when it does not carry
    /// one already.
    fn rewrite(&mut self, at: usize, txn: TxnId) -> (r: bool)
        requires
            old(self)@.wf(),
            at < old(self).versions@.len(),
        ensures
            final(self)@.wf(),
            final(self)@.table == old(self)@.table,
            final(self)@.next == old(self)@.next,
            ({
                let header = old(self).versions@[at as int].header;
                &&& r == (header.xmax is None)
                &&& final(self)@.contents() == with_hidden(
                    old(self)@.contents(),
                    (header.row.0, header.seq),
                    txn,
                )
            }),
    {
        let placed: Placed = self.versions[at];
        let ghost before = self@;
        proof {
            lemma_contents_at(self.heap@, placed.rid.0);
        }
        if placed.header.xmax.is_some() {
            return false;
        }
        let ghost record = self.heap@[placed.rid.0];
        let rewritten: Vec<u8> = match self.heap.get(placed.rid) {
            Some(bytes) => match with_xmax(bytes.as_slice(), Some(txn)) {
                Ok(rewritten) => rewritten,
                Err(_) => {
                    assert(false);
                    return false;
                },
            },
            None => {
                assert(false);
                return false;
            },
        };
        proof {
            let xmax = xmax_of(txn.0);
            assert(xmax_field(xmax) == xmax_field(Some(txn)));
            assert(patched(record, Some(txn)) == patched(record, xmax));
            lemma_hidden(before.heap, placed.rid.0, xmax);
        }
        let xmax: Option<TxnId> = if txn.0 == NO_XMAX {
            None
        } else {
            Some(txn)
        };
        let header: VersionHeader = VersionHeader {
            row: placed.header.row,
            xmin: placed.header.xmin,
            xmax,
            seq: placed.header.seq,
        };
        self.heap.replace(placed.rid, rewritten);
        self.versions.set(at, Placed { rid: placed.rid, header });
        proof {
            let list = before.versions;
            let now = self.versions@;
            assert forall|i: int| 0 <= i < now.len() implies self.heap@.contains_key(
                (#[trigger] now[i]).rid.0,
            ) && header_of(self.heap@[now[i].rid.0]) == now[i].header by {
                assert(before.heap.contains_key(list[i].rid.0));
                assert(i != at ==> list[i].rid != list[at as int].rid);
            }
            assert forall|rid: u64| #[trigger] self.heap@.contains_key(rid) implies exists|i: int|
                0 <= i < now.len() && #[trigger] now[i].rid.0 == rid by {
                assert(before.heap.contains_key(rid));
                let i = choose|i: int| 0 <= i < list.len() && #[trigger] list[i].rid.0 == rid;
                assert(now[i].rid.0 == rid);
            }
        }
        true
    }
}

/// A record more and an entry more keep the list the one of the heap.
proof fn lemma_tracks_more(list: Seq<Placed>, h: Map<u64, Seq<u8>>, placed: Placed, s: Seq<u8>)
    requires
        tracks(list, h),
        !h.contains_key(placed.rid.0),
        header_of(s) == placed.header,
    ensures
        tracks(list.push(placed), h.insert(placed.rid.0, s)),
{
    let now = list.push(placed);
    let after = h.insert(placed.rid.0, s);
    assert forall|rid: u64| #[trigger] after.contains_key(rid) implies exists|i: int|
        0 <= i < now.len() && #[trigger] now[i].rid.0 == rid by {
        if rid == placed.rid.0 {
            assert(now[list.len() as int].rid.0 == rid);
        } else {
            assert(h.contains_key(rid));
            let i = choose|i: int| 0 <= i < list.len() && #[trigger] list[i].rid.0 == rid;
            assert(now[i].rid.0 == rid);
        }
    }
}

/// How far a redo has come: the versions of each table, and how many records it wrote, found
/// already written, or could place nowhere.
#[verifier::ext_equal]
pub struct Redone {
    /// The versions of each table.
    pub tables: Map<u64, Map<(u64, u64), StoredModel>>,
    /// Records written.
    pub applied: nat,
    /// Records found already written.
    pub skipped: nat,
    /// Records of a table that is not there.
    pub unplaced: nat,
}

/// Whether the redo applies a record: a row record of a winner that no savepoint took back.
pub open spec fn replays(r: RecordModel, winners: Set<u64>, cancelled: Set<u64>) -> bool {
    is_row(r.kind) && winners.contains(r.txn.0) && !cancelled.contains(r.lsn.0)
}

/// What the redo of one record does; `None` when the record cannot be replayed.
pub open spec fn redo_step(
    s: Redone,
    r: RecordModel,
    winners: Set<u64>,
    cancelled: Set<u64>,
) -> Option<Redone> {
    let change = change_of(r.payload);
    let table = change.table.0 as u64;
    if !replays(r, winners, cancelled) {
        Some(s)
    } else if r.payload.len() < PREFIX_LEN {
        None
    } else if !s.tables.contains_key(table) {
        Some(Redone { unplaced: s.unplaced + 1, ..s })
    } else {
        match replayed(s.tables[table], r.kind, change, r.txn) {
            Some((versions, written)) => {
                let tables = s.tables.insert(table, versions);
                if written {
                    Some(Redone { tables, applied: s.applied + 1, ..s })
                } else {
                    Some(Redone { tables, skipped: s.skipped + 1, ..s })
                }
            },
            None => None,
        }
    }
}

/// The error of a record that cannot be replayed.
pub open spec fn redo_error(r: RecordModel, e: InternalError) -> bool {
    let change = change_of(r.payload);
    if r.payload.len() < PREFIX_LEN {
        e == InternalError::Corruption(Corruption::ShortChange { bytes: r.payload.len() as usize })
    } else {
        e == InternalError::Corruption(
            Corruption::HiddenVersionMissing {
                table: change.table,
                row: change.header.row,
                seq: change.header.seq,
            },
        )
    }
}

/// What the redo of the first `n` records does; `None` when one cannot be replayed.
pub open spec fn redone(
    s: Redone,
    records: Seq<RecordModel>,
    n: int,
    winners: Set<u64>,
    cancelled: Set<u64>,
) -> Option<Redone>
    decreases n,
{
    if n <= 0 {
        Some(s)
    } else {
        match redone(s, records, n - 1, winners, cancelled) {
            Some(t) => redo_step(t, records[n - 1], winners, cancelled),
            None => None,
        }
    }
}

/// The versions of each table.
pub open spec fn versions_of(heaps: Map<u64, RedoModel>) -> Map<
    u64,
    Map<(u64, u64), StoredModel>,
> {
    Map::new(|t: u64| heaps.contains_key(t), |t: u64| heaps[t].contents())
}

/// A redo that has not begun.
pub open spec fn before_redo(heaps: Map<u64, RedoModel>) -> Redone {
    Redone { tables: versions_of(heaps), applied: 0, skipped: 0, unplaced: 0 }
}

/// Whether each heap is sound and filed under its table.
pub open spec fn heaps_ok(heaps: Map<u64, RedoModel>) -> bool {
    forall|t: u64| #[trigger]
        heaps.contains_key(t) ==> heaps[t].wf() && heaps[t].table.0 as u64 == t
}

/// The transactions of a list, as a set of numbers.
pub open spec fn numbers(txns: Seq<TxnId>) -> Set<u64> {
    Set::new(|t: u64| txns.contains(TxnId(t)))
}

/// The transactions of a list.
fn id_set(txns: &Vec<TxnId>) -> (r: IdSet)
    ensures
        r@ == numbers(txns@),
{
    let mut set = IdSet::new();
    for i in 0..txns.len()
        invariant
            forall|t: u64| #[trigger]
                set@.contains(t) <==> exists|k: int| 0 <= k < i && #[trigger] txns@[k] == TxnId(t),
    {
        set.insert(txns[i].0);
        assert(txns@[i as int] == TxnId(txns@[i as int].0));
    }
    assert(set@ =~= numbers(txns@));
    set
}

/// Applies one row record to the heap of its table, and answers whether it wrote.
fn replay(redo: &mut RedoHeap, kind: WalRecordKind, change: &RowChange, txn: TxnId) -> (r: Result<
    bool,
    InternalError,
>)
    requires
        old(redo)@.wf(),
        is_row(kind),
        change@.header.storable(),
    ensures
        final(redo)@.wf(),
        final(redo)@.table == old(redo)@.table,
        match r {
            Ok(written) => {
                &&& replayed(old(redo)@.contents(), kind, change@, txn) == Some(
                    (final(redo)@.contents(), written),
                )
                &&& final(redo)@.next <= old(redo)@.next + 1
            },
            Err(e) => {
                ||| e == InternalError::Bug(Bug::HeapFull(old(redo)@.table)) && old(redo)@.next
                    == u64::MAX
                ||| replayed(old(redo)@.contents(), kind, change@, txn) is None && e
                    == InternalError::Corruption(
                    Corruption::HiddenVersionMissing {
                        table: old(redo)@.table,
                        row: change.header.row,
                        seq: change.header.seq,
                    },
                )
            },
        },
{
    match kind {
        WalRecordKind::Insert => redo.insert(change),
        WalRecordKind::Update => {
            let ghost c = redo@.contents();
            redo.hide_previous(change.header.row, change.header.seq, txn);
            proof {
                let key = change_key(change@);
                match previous(c, key.0, key.1) {
                    Some(p) => {
                        assert(is_previous(c, key.0, key.1, p));
                        assert(redo@.contents().contains_key(key) <==> c.contains_key(key));
                    },
                    None => {},
                }
            }
            redo.insert(change)
        },
        // The header of a delete record carries the version it hides.
        _ => redo.hide_version(change.header.row, change.header.seq, txn),
    }
}

/// Second pass: the row records of the winners, in journal order, applied to the heaps.
///
/// # Errors
///
/// A corruption for a payload shorter than its fixed part and for a delete record naming a
/// version no heap holds; a bug when a heap has no address left.
pub fn redo(records: &Vec<WalRecord>, recovery: &mut Recovery, heaps: &mut OrdMap<RedoHeap>) -> (r:
    Result<(), InternalError>)
    requires
        heaps_ok(old(heaps)@),
        old(recovery).applied == 0,
        old(recovery).skipped == 0,
        old(recovery).unplaced == 0,
    ensures
        heaps_ok(final(heaps)@),
        final(heaps)@.dom() == old(heaps)@.dom(),
        final(recovery).winners == old(recovery).winners,
        final(recovery).losers == old(recovery).losers,
        final(recovery).next_row_id == old(recovery).next_row_id,
        final(recovery).next_seq == old(recovery).next_seq,
        final(recovery).tables == old(recovery).tables,
        final(recovery).cancelled == old(recovery).cancelled,
        ({
            let log = records.deep_view();
            let won = numbers(old(recovery).winners@);
            let out = old(recovery).cancelled@;
            let start = before_redo(old(heaps)@);
            match r {
                Ok(_) => redone(start, log, log.len() as int, won, out) == Some(
                    Redone {
                        tables: versions_of(final(heaps)@),
                        applied: final(recovery).applied as nat,
                        skipped: final(recovery).skipped as nat,
                        unplaced: final(recovery).unplaced as nat,
                    },
                ),
                Err(e) => {
                    ||| exists|n: int|
                        0 <= n < log.len() && #[trigger] redone(start, log, n, won, out) is Some
                            && redone(start, log, n + 1, won, out) is None && redo_error(log[n], e)
                    ||| exists|t: u64| #[trigger]
                        old(heaps)@.contains_key(t) && old(heaps)@[t].next + log.len() > u64::MAX
                            && e == InternalError::Bug(Bug::HeapFull(old(heaps)@[t].table))
                },
            }
        }),
{
    let ghost log = records.deep_view();
    let ghost won = numbers(recovery.winners@);
    let ghost out = recovery.cancelled@;
    let ghost first = heaps@;
    let ghost start = before_redo(first);
    let winners: IdSet = id_set(&recovery.winners);
    let mut applied: usize = 0;
    let mut skipped: usize = 0;
    let mut unplaced: usize = 0;
    for n in 0..records.len()
        invariant
            log == records.deep_view(),
            won == winners@,
            won == numbers(recovery.winners@),
            out == recovery.cancelled@,
            *recovery == *old(recovery),
            first == old(heaps)@,
            start == before_redo(first),
            heaps_ok(heaps@),
            heaps@.dom() == first.dom(),
            forall|t: u64| #[trigger]
                heaps@.contains_key(t) ==> heaps@[t].next <= first[t].next + n && heaps@[t].table
                    == first[t].table,
            applied + skipped + unplaced <= n,
            redone(start, log, n as int, won, out) == Some(
                Redone {
                    tables: versions_of(heaps@),
                    applied: applied as nat,
                    skipped: skipped as nat,
                    unplaced: unplaced as nat,
                },
            ),
    {
        let record: &WalRecord = &records[n];
        assert(log[n as int] == record@);
        let ghost s = redone(start, log, n as int, won, out)->0;
        assert(redone(start, log, n + 1, won, out) == redo_step(s, record@, won, out));
        let row: bool = match record.kind {
            WalRecordKind::Insert | WalRecordKind::Update | WalRecordKind::Delete => true,
            _ => false,
        };
        if row && winners.contains(record.txn.0) && !recovery.cancelled.contains(record.lsn.0) {
            let change: RowChange = match RowChange::decode(record.payload.as_slice()) {
                Ok(change) => change,
                Err(e) => {
                    return Err(e);
                },
            };
            proof {
                law_record_is_prefix_then_columns(record.payload@.skip(4));
            }
            let table: u64 = change.table.0 as u64;
            let ghost before = heaps@;
            match heaps.remove(table) {
                Some(mut heap) => {
                    let ghost was = heap@;
                    assert(before.contains_key(table));
                    let written = replay(&mut heap, record.kind, &change, record.txn);
                    let ghost now = heap@;
                    heaps.insert(table, heap);
                    proof {
                        assert(heaps@ =~= before.insert(table, now));
                        assert(heaps@.dom() =~= before.dom());
                        assert(versions_of(heaps@) =~= versions_of(before).insert(
                            table,
                            now.contents(),
                        ));
                        assert(first.contains_key(table));
                    }
                    match written {
                        Ok(true) => {
                            applied = applied + 1;
                        },
                        Ok(false) => {
                            skipped = skipped + 1;
                        },
                        Err(e) => {
                            return Err(e);
                        },
                    }
                },
                None => {
                    assert(heaps@ =~= before);
                    unplaced = unplaced + 1;
                },
            }
        }
    }
    recovery.applied = applied;
    recovery.skipped = skipped;
    recovery.unplaced = unplaced;
    Ok(())
}

} // verus!
