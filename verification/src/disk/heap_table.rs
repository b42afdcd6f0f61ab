//! One table of an instance: the versions of its rows in a heap, the directory of the most recent
//! version of each row, and the undo logs of the transactions that wrote in it.
//!
//! A write appends its record to the journal before it changes the heap. The end of a
//! transaction drops its undo log or replays it backwards.

use vstd::prelude::*;

use super::bytes::put_bytes;
use super::contents::{
    contents, lemma_contents_at, lemma_hidden, lemma_placed, lemma_put, lemma_taken, lemma_written,
    distinct, sound, stored_in, StoredModel,
};
use super::encode::{decode_row, parse_row, row_bytes};
use super::heap::{Heap, Rid};
use super::table_model::{
    illegible, key_before, legible, HeapTableModel, IndexChange, IndexChangeModel, RowUndo,
};
use super::version::{
    encode_version, header_of, patched, too_short, with_xmax, VersionHeader, NO_XMAX, VERSION_PREFIX_LEN,
};
use crate::error::{Bug, Corruption, InternalError};
use crate::ids::{RowId, TableId, TxnId};
use crate::ordmap::{IdSet, OrdMap};
use crate::row::Row;
use crate::shape::{TableShape, TableShapeModel};

verus! {

/// One version as it was read from the heap: where it sits, its prefix and its bytes.
#[derive(Debug)]
pub struct StoredVersion {
    /// Address of the record in the heap.
    pub rid: Rid,
    /// The prefix, already decoded.
    pub header: VersionHeader,
    /// The whole record: the prefix then the columns.
    pub bytes: Vec<u8>,
}

impl StoredVersion {
    /// Whether this is the record at its address in `h`.
    pub open spec fn reads(&self, h: Map<u64, Seq<u8>>) -> bool {
        &&& h.contains_key(self.rid.0)
        &&& h[self.rid.0] == self.bytes@
        &&& self.header == header_of(self.bytes@)
    }

    /// The row and the serial of the version.
    pub open spec fn key(&self) -> (u64, u64) {
        (self.header.row.0, self.header.seq)
    }

    /// The columns of the version.
    ///
    /// # Errors
    ///
    /// A corruption naming the version for a record that ends before its columns; a corruption for
    /// columns that are no row.
    pub fn row(&self) -> (r: Result<Row, InternalError>)
        ensures
            match r {
                Ok(row) => self.bytes@.len() >= VERSION_PREFIX_LEN && parse_row(
                    self.bytes@.skip(32),
                ) == Some(row@),
                Err(e) => e == InternalError::Corruption(
                    if self.bytes@.len() < VERSION_PREFIX_LEN {
                        Corruption::NoColumns { row: self.header.row, seq: self.header.seq }
                    } else {
                        Corruption::NotARow { bytes: (self.bytes@.len() - 32) as usize }
                    },
                ) && (self.bytes@.len() >= VERSION_PREFIX_LEN ==> parse_row(self.bytes@.skip(32)) is None),
            },
    {
        if self.bytes.len() < VERSION_PREFIX_LEN {
            return Err(
                InternalError::Corruption(
                    Corruption::NoColumns { row: self.header.row, seq: self.header.seq },
                ),
            );
        }
        let columns: &[u8] = vstd::slice::slice_subrange(
            self.bytes.as_slice(),
            VERSION_PREFIX_LEN,
            self.bytes.len(),
        );
        assert(columns@ =~= self.bytes@.skip(32));
        decode_row(columns)
    }
}

/// What one table holds for one transaction: the writes to undo, in chronological order.
#[derive(Debug)]
pub struct TableTxn {
    /// The writes, dropped by a commit and consumed by a rollback.
    pub writes: Vec<RowUndo>,
}

impl DeepView for TableTxn {
    type V = Seq<RowUndo>;

    open spec fn deep_view(&self) -> Seq<RowUndo> {
        self.writes@
    }
}

/// The mutable state of one table, beside its heap.
#[derive(Debug)]
pub struct TableState {
    /// The next row identifier to hand out; it grows, so one taken away by a rollback is not
    /// handed out a second time.
    pub next_row_id: u64,
    /// The next serial to hand out; it grows likewise.
    pub next_seq: u64,
    /// Where the most recent version of each logical row sits.
    pub directory: OrdMap<Rid>,
    /// The rows whose place in the directory holds no record any more.
    pub lost: IdSet,
    /// The transactions that wrote in this table.
    pub txns: OrdMap<TableTxn>,
    /// What the writes since the log was last taken mean for an index.
    pub index_log: Vec<IndexChange>,
    /// Whether the counters and the directory have been rebuilt from what the recovery found.
    pub resumed: bool,
}

impl TableState {
    /// Whether the state still has to be rebuilt from what the recovery found.
    pub fn needs_resume(&self) -> (r: bool)
        ensures
            r == !self.resumed,
    {
        !self.resumed
    }

    /// Notes that the rebuild has been done.
    pub fn resumed(&mut self)
        ensures
            *final(self) == (TableState { resumed: true, ..*old(self) }),
    {
        self.resumed = true;
    }
}

impl Default for TableState {
    /// An empty table: no version written, the two counters at 1.
    fn default() -> (r: Self)
        ensures
            r.next_row_id == 1,
            r.next_seq == 1,
            r.directory@ == Map::<u64, Rid>::empty(),
            r.lost@ == Set::<u64>::empty(),
            r.txns@ == Map::<u64, Seq<RowUndo>>::empty(),
            r.index_log@.len() == 0,
            !r.resumed,
    {
        TableState {
            next_row_id: 1,
            next_seq: 1,
            directory: OrdMap::new(),
            lost: IdSet::new(),
            txns: OrdMap::new(),
            index_log: Vec::new(),
            resumed: false,
        }
    }
}

/// One table stored as a heap of versioned rows.
#[derive(Debug)]
pub struct HeapTable {
    /// The heap holding the versions of this table.
    pub heap: Heap,
    /// Shape of the table: the arity a row of this table must have.
    pub shape: TableShape,
    /// The counters, the directory, the undo logs and the maintenance log.
    pub state: TableState,
}

impl View for HeapTable {
    type V = HeapTableModel;

    open spec fn view(&self) -> HeapTableModel {
        HeapTableModel {
            table: self.heap.table,
            arity: self.shape.columns@.len(),
            contents: contents(self.heap@),
            current: Map::new(
                |row: u64| self.state.directory@.contains_key(row),
                |row: u64| header_of(self.heap@[self.state.directory@[row].0]).seq,
            ),
            lost: self.state.lost@,
            next_row_id: self.state.next_row_id,
            next_seq: self.state.next_seq,
            next_address: self.heap.next,
            writes: self.state.txns@,
            changes: self.state.index_log.deep_view(),
            resumed: self.state.resumed,
        }
    }
}

/// The parts of a [`HeapTable`], as they are kept.
#[verifier::ext_equal]
pub struct HeapParts {
    /// The table.
    pub table: TableId,
    /// The records.
    pub records: Map<u64, Seq<u8>>,
    /// The next address.
    pub next: u64,
    /// The shape.
    pub shape: TableShapeModel,
    /// Where the most recent version of each row sits.
    pub directory: Map<u64, Rid>,
    /// The rows that are lost.
    pub lost: Set<u64>,
    /// The next row identifier.
    pub next_row_id: u64,
    /// The next serial.
    pub next_seq: u64,
    /// The undo logs.
    pub writes: Map<u64, Seq<RowUndo>>,
    /// The maintenance log.
    pub changes: Seq<IndexChangeModel>,
    /// Whether the counters were rebuilt.
    pub resumed: bool,
}

impl DeepView for HeapTable {
    type V = HeapParts;

    open spec fn deep_view(&self) -> HeapParts {
        HeapParts {
            table: self.heap.table,
            records: self.heap@,
            next: self.heap.next,
            shape: self.shape@,
            directory: self.state.directory@,
            lost: self.state.lost@,
            next_row_id: self.state.next_row_id,
            next_seq: self.state.next_seq,
            writes: self.state.txns@,
            changes: self.state.index_log.deep_view(),
            resumed: self.state.resumed,
        }
    }
}

impl HeapParts {
    /// What the table stands for.
    pub open spec fn model(self) -> HeapTableModel {
        HeapTableModel {
            table: self.table,
            arity: self.shape.columns.len(),
            contents: contents(self.records),
            current: Map::new(
                |row: u64| self.directory.contains_key(row),
                |row: u64| header_of(self.records[self.directory[row].0]).seq,
            ),
            lost: self.lost,
            next_row_id: self.next_row_id,
            next_seq: self.next_seq,
            next_address: self.next,
            writes: self.writes,
            changes: self.changes,
            resumed: self.resumed,
        }
    }

    /// Whether the heap and the directory are consistent.
    pub open spec fn wf(self) -> bool {
        &&& forall|rid: u64| #[trigger] self.records.contains_key(rid) ==> rid < self.next
        &&& sound(self.records)
        &&& directs(self.directory, self.records)
        &&& self.model().wf()
    }
}

/// A table and its parts say the same.
pub proof fn lemma_parts(t: HeapTable)
    ensures
        t.deep_view().model() == t@,
        t.deep_view().wf() == t.wf(),
        t.deep_view().shape == t.shape@,
        t.deep_view().table == t@.table,
{
    assert(t.deep_view().model().current =~= t@.current);
    assert(t.deep_view().model() =~= t@);
}

/// Whether each row of a directory is at a record of its own in the heap.
pub open spec fn directs(directory: Map<u64, Rid>, h: Map<u64, Seq<u8>>) -> bool {
    forall|row: u64| #[trigger]
        directory.contains_key(row) ==> h.contains_key(directory[row].0) && header_of(
            h[directory[row].0],
        ).row.0 == row
}

/// Whether `list` holds the versions of the heap that belong to `only`, in order.
pub open spec fn lists(
    list: Seq<StoredVersion>,
    h: Map<u64, Seq<u8>>,
    only: Option<RowId>,
) -> bool {
    &&& forall|i: int|
        0 <= i < list.len() ==> (#[trigger] list[i]).reads(h) && belongs(list[i].header.row, only)
    &&& forall|i: int, j: int|
        0 <= i < j < list.len() ==> key_before((#[trigger] list[i]).key(), (#[trigger] list[j]).key())
    &&& forall|rid: u64| #[trigger]
        h.contains_key(rid) && belongs(header_of(h[rid]).row, only) ==> exists|i: int|
            0 <= i < list.len() && #[trigger] list[i].rid.0 == rid
}

/// Whether a row is `only`, or any row.
pub open spec fn belongs(row: RowId, only: Option<RowId>) -> bool {
    match only {
        Some(wanted) => row == wanted,
        None => true,
    }
}

impl HeapTable {
    /// Whether the records of the heap are versions, no two the same, and the directory leads to
    /// them.
    pub open spec fn attached(&self) -> bool {
        &&& self.heap.wf()
        &&& sound(self.heap@)
        &&& directs(self.state.directory@, self.heap@)
    }

    /// Whether the heap, the directory and the counters are consistent.
    pub open spec fn wf(&self) -> bool {
        &&& self.attached()
        &&& self@.wf()
    }

    /// Creates an empty table.
    pub fn create(table: TableId, shape: TableShape) -> (r: Self)
        ensures
            r.wf(),
            r.shape == shape,
            r.heap@ == Map::<u64, Seq<u8>>::empty(),
            r.state.directory@ == Map::<u64, Rid>::empty(),
            r.state.lost@ == Set::<u64>::empty(),
            r@ == (HeapTableModel {
                table,
                arity: shape.columns@.len(),
                contents: Map::empty(),
                current: Map::empty(),
                lost: Set::empty(),
                next_row_id: 1,
                next_seq: 1,
                next_address: 1,
                writes: Map::empty(),
                changes: Seq::empty(),
                resumed: false,
            }),
    {
        let r = HeapTable { heap: Heap::create(table), shape, state: TableState::default() };
        proof {
            assert(r@.contents =~= Map::<(u64, u64), StoredModel>::empty()) by {
                assert forall|k: (u64, u64)| !r@.contents.contains_key(k) by {
                    if r@.contents.contains_key(k) {
                        lemma_placed(r.heap@, k);
                    }
                }
            }
            assert(r@.current =~= Map::<u64, u64>::empty());
            assert(r@.changes =~= Seq::<IndexChangeModel>::empty());
        }
        r
    }

    /// The table these rows belong to.
    pub fn table(&self) -> (r: TableId)
        ensures
            r == self@.table,
    {
        self.heap.table
    }

    /// The next row identifier the table hands out.
    pub fn next_row_id(&self) -> (r: u64)
        ensures
            r == self@.next_row_id,
    {
        self.state.next_row_id
    }

    /// Checks the arity of `row` against the shape of the table.
    pub(crate) fn check_arity(&self, row: &Row) -> (r: Result<(), InternalError>)
        ensures
            match r {
                Ok(_) => row@.len() == self@.arity,
                Err(e) => row@.len() != self@.arity && e == InternalError::Bug(
                    Bug::WrongArity {
                        table: self@.table,
                        values: row@.len() as usize,
                        columns: self@.arity as usize,
                    },
                ),
            },
    {
        let columns: usize = self.shape.columns.len();
        if row.0.len() != columns {
            return Err(
                InternalError::Bug(
                    Bug::WrongArity { table: self.heap.table, values: row.0.len(), columns },
                ),
            );
        }
        Ok(())
    }

    /// The most recent version of `id`, read through the directory.
    ///
    /// # Errors
    ///
    /// A bug for a row the directory does not hold; a corruption for one that is lost.
    pub(crate) fn current(&self, id: RowId) -> (r: Result<StoredVersion, InternalError>)
        requires
            self.attached(),
        ensures
            match r {
                Ok(v) => {
                    &&& self@.current.contains_key(id.0)
                    &&& v.rid == self.state.directory@[id.0]
                    &&& v.reads(self.heap@)
                    &&& v.key() == (id.0, self@.current[id.0])
                    &&& stored_in(v.bytes@) == self@.version(id)
                    &&& v.bytes@.len() >= VERSION_PREFIX_LEN
                },
                Err(e) => !self@.current.contains_key(id.0) && e == self@.missing(id),
            },
    {
        match self.state.directory.get(id.0) {
            Some(rid) => {
                let rid: Rid = *rid;
                proof {
                    assert(self.state.directory@.contains_key(id.0));
                    lemma_contents_at(self.heap@, rid.0);
                }
                self.read(rid)
            },
            None => if self.state.lost.contains(id.0) {
                Err(
                    InternalError::Corruption(
                        Corruption::NoRecord { table: self.heap.table, row: id },
                    ),
                )
            } else {
                Err(InternalError::Bug(Bug::UnknownRow { table: self.heap.table, row: id }))
            },
        }
    }

    /// The version at `rid`.
    ///
    /// # Errors
    ///
    /// A corruption for a record too short for its prefix.
    pub(crate) fn read(&self, rid: Rid) -> (r: Result<StoredVersion, InternalError>)
        requires
            self.heap.wf(),
            distinct(self.heap@),
            self.heap@.contains_key(rid.0),
        ensures
            match r {
                Ok(v) => {
                    &&& v.rid == rid
                    &&& v.reads(self.heap@)
                    &&& v.bytes@.len() >= VERSION_PREFIX_LEN
                    &&& self@.contents.contains_key(v.key())
                    &&& self@.contents[v.key()] == stored_in(v.bytes@)
                },
                Err(e) => self.heap@[rid.0].len() < VERSION_PREFIX_LEN && too_short(
                    self.heap@[rid.0].len(),
                    e,
                ),
            },
    {
        proof {
            lemma_contents_at(self.heap@, rid.0);
        }
        match self.heap.get(rid) {
            Some(bytes) => {
                let mut copy: Vec<u8> = Vec::with_capacity(bytes.len());
                put_bytes(&mut copy, bytes.as_slice());
                assert(copy@ =~= bytes@);
                match VersionHeader::read_from(copy.as_slice()) {
                    Ok(header) => Ok(StoredVersion { rid, header, bytes: copy }),
                    Err(e) => Err(e),
                }
            },
            None => {
                assert(false);
                Err(InternalError::Bug(Bug::HeapFull(self.heap.table)))
            },
        }
    }

    /// Rewrites the version `stored` with another `xmax`.
    pub(crate) fn set_xmax(&mut self, stored: &StoredVersion, xmax: Option<TxnId>)
        requires
            old(self).wf(),
            stored.reads(old(self).heap@),
            xmax != Some(TxnId(NO_XMAX)),
        ensures
            final(self).wf(),
            final(self).shape == old(self).shape,
            final(self).state == old(self).state,
            final(self).heap@ == old(self).heap@.insert(
                stored.rid.0,
                patched(stored.bytes@, xmax),
            ),
            final(self)@ == (HeapTableModel {
                contents: old(self)@.contents.insert(
                    stored.key(),
                    stored_in(stored.bytes@).with_xmax(xmax),
                ),
                ..old(self)@
            }),
    {
        let ghost before = *self;
        let ghost h = self.heap@;
        proof {
            lemma_hidden(h, stored.rid.0, xmax);
            lemma_contents_at(h, stored.rid.0);
        }
        match with_xmax(stored.bytes.as_slice(), xmax) {
            Ok(rewritten) => {
                let ghost bytes = rewritten@;
                self.heap.replace(stored.rid, rewritten);
                proof {
                    assert(self.heap@ == h.insert(stored.rid.0, bytes));
                    assert(bytes == patched(h[stored.rid.0], xmax));
                    assert forall|row: u64| #[trigger]
                        self.state.directory@.contains_key(row) implies self.heap@.contains_key(
                        self.state.directory@[row].0,
                    ) && header_of(self.heap@[self.state.directory@[row].0]).row.0 == row
                        && header_of(self.heap@[self.state.directory@[row].0]).seq == header_of(
                        h[self.state.directory@[row].0],
                    ).seq by {
                        let at = self.state.directory@[row].0;
                        if at == stored.rid.0 {
                            assert(stored_in(bytes).key() == stored_in(h[at]).key());
                        }
                    }
                    assert(self@.current =~= before@.current);
                    assert(self@ =~= (HeapTableModel {
                        contents: before@.contents.insert(
                            stored.key(),
                            stored_in(stored.bytes@).with_xmax(xmax),
                        ),
                        ..before@
                    }));
                    lemma_contents_ok_insert(
                        before@,
                        self@,
                        stored.key(),
                        stored_in(stored.bytes@).with_xmax(xmax),
                    );
                }
            },
            Err(_) => {
                assert(false);
            },
        }
    }

    /// Removes the most recent version of a row from the heap and from the directory, and notes
    /// it in the maintenance log.
    ///
    /// # Errors
    ///
    /// A corruption for a version whose columns are no row: it is out of the heap, and its row is
    /// lost.
    pub(crate) fn remove_version(&mut self, row: RowId, stored: &StoredVersion) -> (r: Result<
        (),
        InternalError,
    >)
        requires
            old(self).wf(),
            old(self)@.current.contains_key(row.0),
            stored.rid == old(self).state.directory@[row.0],
            stored.reads(old(self).heap@),
            stored.bytes@.len() >= VERSION_PREFIX_LEN,
        ensures
            final(self).wf(),
            final(self).shape == old(self).shape,
            ({
                let v = old(self)@.version(row);
                match r {
                    Ok(_) => legible(v) && final(self)@ == old(self)@.without_tail(row),
                    Err(e) => {
                        &&& !legible(v)
                        &&& e == illegible(v)
                        &&& final(self)@ == old(self)@.losing(row)
                    },
                }
            }),
    {
        let ghost before = *self;
        proof {
            lemma_contents_at(self.heap@, stored.rid.0);
            lemma_taken(self.heap@, stored.rid.0);
            assert(self.state.directory@.contains_key(row.0));
            assert(stored.key() == (row.0, self@.current[row.0]));
        }
        self.heap.delete(stored.rid);
        self.state.directory.remove(row.0);
        proof {
            assert forall|r: u64| #[trigger] self.state.directory@.contains_key(r) implies
                self.heap@.contains_key(self.state.directory@[r].0) && header_of(
                self.heap@[self.state.directory@[r].0],
            ).row.0 == r && self.heap@[self.state.directory@[r].0]
                == before.heap@[self.state.directory@[r].0] by {
                assert(before.state.directory@.contains_key(r));
            }
            assert(self@.current =~= before@.current.remove(row.0));
            assert forall|r: u64| #[trigger] self@.current.contains_key(r) implies
                self@.contents.contains_key((r, self@.current[r])) && !self@.lost.contains(r) && r
                != row.0 by {
                assert(before@.current.contains_key(r));
            }
            assert forall|k: (u64, u64)| #[trigger] self@.contents.contains_key(k) implies
                before@.contents.contains_key(k) by {}
        }
        match stored.row() {
            Ok(data) => {
                let change = IndexChange::Removed { row, seq: stored.header.seq, data };
                let ghost noted = change.deep_view();
                self.state.index_log.push(change);
                proof {
                    assert(self@.changes =~= before@.changes.push(noted));
                    assert(self@.current =~= before@.current.remove(row.0));
                    assert(self@ =~= before@.without_tail(row));
                }
                Ok(())
            },
            Err(e) => {
                self.state.lost.insert(row.0);
                proof {
                    assert(self@.current =~= before@.current.remove(row.0));
                    assert(self@ =~= before@.losing(row));
                }
                Err(e)
            },
        }
    }

    /// Writes one version in the heap: the most recent one of its row. The serial of `header` is
    /// the one handed out last.
    pub(crate) fn write_version(&mut self, header: &VersionHeader, row: &Row)
        requires
            old(self).wf(),
            header.xmax is None,
            header.seq + 1 == old(self)@.next_seq,
            !old(self)@.contents.contains_key((header.row.0, header.seq)),
            old(self)@.next_address < u64::MAX,
        ensures
            final(self).wf(),
            final(self).shape == old(self).shape,
            ({
                let v = StoredModel { header: *header, columns: row_bytes(row@) };
                final(self)@ == (HeapTableModel {
                    contents: old(self)@.contents.insert(v.key(), v),
                    current: old(self)@.current.insert(header.row.0, header.seq),
                    lost: old(self)@.lost.remove(header.row.0),
                    next_address: (old(self)@.next_address + 1) as u64,
                    changes: old(self)@.changes.push(
                        IndexChangeModel::Added { row: header.row, seq: header.seq, data: row@ },
                    ),
                    ..old(self)@
                })
            }),
    {
        let ghost before = *self;
        let ghost h = self.heap@;
        let bytes: Vec<u8> = encode_version(header, row);
        let ghost v = StoredModel { header: *header, columns: row_bytes(row@) };
        proof {
            lemma_written(*header, row_bytes(row@));
            assert(stored_in(bytes@) == v);
        }
        match self.heap.insert(bytes.as_slice()) {
            Ok(rid) => {
                self.state.directory.insert(header.row.0, rid);
                self.state.lost.remove(header.row.0);
                let change = IndexChange::Added {
                    row: header.row,
                    seq: header.seq,
                    data: row.duplicate(),
                };
                let ghost noted = change.deep_view();
                self.state.index_log.push(change);
                proof {
                    lemma_put(h, rid.0, bytes@);
                    assert forall|r: u64| #[trigger]
                        self.state.directory@.contains_key(r) implies self.heap@.contains_key(
                        self.state.directory@[r].0,
                    ) && header_of(self.heap@[self.state.directory@[r].0]).row.0 == r && (r
                        != header.row.0 ==> self.heap@[self.state.directory@[r].0]
                        == h[before.state.directory@[r].0]) by {
                        if r != header.row.0 {
                            assert(before.state.directory@.contains_key(r));
                        }
                    }
                    assert(self@.current =~= before@.current.insert(header.row.0, header.seq));
                    assert(self@.changes =~= before@.changes.push(noted));
                    assert(self@ =~= (HeapTableModel {
                        contents: before@.contents.insert(v.key(), v),
                        current: before@.current.insert(header.row.0, header.seq),
                        lost: before@.lost.remove(header.row.0),
                        next_address: (before@.next_address + 1) as u64,
                        changes: before@.changes.push(noted),
                        ..before@
                    }));
                    lemma_contents_ok_insert(before@, self@, v.key(), v);
                    assert forall|r: u64| #[trigger] self@.current.contains_key(r) implies
                        self@.contents.contains_key((r, self@.current[r])) by {
                        if r != header.row.0 {
                            assert(before@.current.contains_key(r));
                        }
                    }
                }
            },
            Err(_) => {
                assert(false);
            },
        }
    }
}

/// A version whose serial was handed out keeps the versions in place.
proof fn lemma_contents_ok_insert(
    before: HeapTableModel,
    after: HeapTableModel,
    key: (u64, u64),
    v: StoredModel,
)
    requires
        before.wf(),
        after.contents == before.contents.insert(key, v),
        after.next_seq >= before.next_seq,
        v.key() == key,
        v.header.storable(),
        key.1 < after.next_seq,
    ensures
        forall|k: (u64, u64)| #[trigger]
            after.contents.contains_key(k) ==> {
                &&& after.contents[k].key() == k
                &&& after.contents[k].header.storable()
                &&& k.1 < after.next_seq
            },
        after.current == before.current && after.lost == before.lost ==> after.wf(),
{
    assert forall|k: (u64, u64)| #[trigger] after.contents.contains_key(k) implies {
        &&& after.contents[k].key() == k
        &&& after.contents[k].header.storable()
        &&& k.1 < after.next_seq
    } by {
        if k != key {
            assert(before.contents.contains_key(k));
        }
    }
    if after.current == before.current && after.lost == before.lost {
        assert forall|row: u64| #[trigger] after.current.contains_key(row) implies
            after.contents.contains_key((row, after.current[row])) && !after.lost.contains(row) by {
            assert(before.current.contains_key(row));
        }
    }
}

} // verus!
