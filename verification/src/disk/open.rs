//! Opening an instance: the journal is read and replayed, the tables and their counters are
//! rebuilt, and the indexes are checked.

use vstd::prelude::*;

use super::catalogue::{catalogue_of, catalogue_over, Catalogue, CatalogueModel};
use super::contents::{
    contents, distinct, lemma_contents_at, lemma_placed, stored_in, StoredModel,
};
use super::definitions::TableEntryModel;
use super::data::{contents_in, next_in, redo_start, short_held, Data, DataModel};
use super::heap::Heap;
use super::heap_reads::{larger, resumes_at, short_record, unfit, unfit_error};
use super::heap_table::{lemma_parts, HeapTable};
use super::journal::{Journal, JournalModel, TxnRecordModel};
use super::lists::{can_build, lemma_cannot_build};
use super::page::PageId;
use super::recover::{
    has_kind, has_seen, is_cancelled, max_row, max_serial, one_past, payload_error, payload_ok,
    sorted, Recovery, Scan,
};
use super::redo::{
    before_redo, heaps_ok, numbers, redo, redo_error, redone, versions_of, RedoHeap, RedoModel,
    Redone,
};
use super::shapes::{
    check_index_shape, check_shape, index_shape_ok, shape_ok, DiskOptions,
};
use super::table_model::{HeapTableModel, RowUndo};
use super::control::Control;
use super::version::{too_short, VERSION_PREFIX_LEN};
use super::storage::{DiskModel, DiskStorage, DiskTable, DiskTableModel};
use super::wal::{
    journal_end, journal_records, scan_error, tail_ok, RecordModel, Wal, WalRecord, WalRecordKind,
};
use crate::error::{Bug, Corruption, InternalError};
use crate::ids::{IndexId, TableId, TxnId};
use crate::memory::key_order::order_of;
use crate::ordmap::{increasing, OrdMap};
use crate::snapshot::TxnStatus;

verus! {

impl CatalogueModel {
    /// Whether every table and every index is filed under its identifier.
    pub open spec fn filed(self) -> bool {
        &&& forall|d: u64| #[trigger] self.databases.contains_key(d) ==> d <= u32::MAX
        &&& forall|t: u64| #[trigger]
            self.tables.contains_key(t) ==> self.tables[t].table.0 as u64 == t
        &&& forall|x: u64| #[trigger]
            self.indexes.contains_key(x) ==> self.indexes[x].index.0 as u64 == x
    }

    /// Whether every table can be stored and every index fits a table of the catalogue.
    pub open spec fn storable(self) -> bool {
        &&& forall|t: u64| #[trigger]
            self.tables.contains_key(t) ==> shape_ok(self.tables[t].shape)
        &&& forall|x: u64| #[trigger] self.indexes.contains_key(x) ==> self.index_fits(x)
    }

    /// Whether `e` is the error of the first table that cannot be stored or, if there is none, of
    /// the first index that fits no table.
    pub open spec fn unstorable(self, e: InternalError) -> bool {
        ||| exists|t: u64|
            {
                &&& #[trigger] self.tables.contains_key(t)
                &&& !shape_ok(self.tables[t].shape)
                &&& e == InternalError::Corruption(broken(t))
                &&& forall|s: u64|
                    s < t && #[trigger] self.tables.contains_key(s) ==> shape_ok(
                        self.tables[s].shape,
                    )
            }
        ||| {
            &&& forall|s: u64| #[trigger]
                self.tables.contains_key(s) ==> shape_ok(self.tables[s].shape)
            &&& exists|x: u64|
                {
                    &&& #[trigger] self.indexes.contains_key(x)
                    &&& !self.index_fits(x)
                    &&& e == InternalError::Corruption(broken(x))
                    &&& forall|y: u64|
                        y < x && #[trigger] self.indexes.contains_key(y) ==> self.index_fits(y)
                }
        }
    }

    /// Whether an index fits a table of the catalogue.
    pub open spec fn index_fits(self, x: u64) -> bool {
        let e = self.indexes[x];
        let t = e.table.0 as u64;
        self.tables.contains_key(t) && index_shape_ok(e.shape, self.tables[t].shape.columns.len())
    }
}

/// The catalogue a journal leaves over a filed one is filed.
pub proof fn lemma_filed(data: DataModel, log: Seq<RecordModel>, n: int)
    requires
        data.catalogue.filed(),
        0 <= n <= log.len(),
    ensures
        data.defines(log, n) matches Some(c) ==> c.filed(),
    decreases n,
{
    if n > 0 {
        lemma_filed(data, log, n - 1);
        match data.defines(log, n - 1) {
            None => {},
            Some(b) => {
                match b.replayed(log[n - 1]) {
                    None => {},
                    Some(c) => {
                        assert forall|d: u64| #[trigger] c.databases.contains_key(d) implies d
                            <= u32::MAX by {
                            if b.databases.contains_key(d) {
                            }
                        }
                        assert forall|t: u64| #[trigger] c.tables.contains_key(t) implies
                            c.tables[t].table.0 as u64 == t by {
                            if b.tables.contains_key(t) {
                            }
                        }
                        assert forall|x: u64| #[trigger] c.indexes.contains_key(x) implies
                            c.indexes[x].index.0 as u64 == x by {
                            if b.indexes.contains_key(x) {
                            }
                        }
                    },
                }
            },
        }
    }
}

/// One past the largest key of a map, and at least `next`.
fn past_keys<V: DeepView>(map: &OrdMap<V>, next: u64) -> (r: u64)
    requires
        forall|k: u64| #[trigger] map@.contains_key(k) ==> k <= u32::MAX,
    ensures
        r >= next,
        forall|k: u64| #[trigger] map@.contains_key(k) ==> k < r,
        r == next || exists|k: u64| #[trigger] map@.contains_key(k) && r == k + 1,
{
    let keys: Vec<u64> = map.keys();
    let mut r: u64 = next;
    for i in 0..keys.len()
        invariant
            forall|k: u64| #[trigger] map@.contains_key(k) ==> k <= u32::MAX,
            forall|k: u64| #[trigger] keys@.contains(k) <==> map@.contains_key(k),
            r >= next,
            forall|k: int| 0 <= k < i ==> #[trigger] keys@[k] < r,
            r == next || exists|k: u64| #[trigger] map@.contains_key(k) && r == k + 1,
    {
        assert(keys@.contains(keys@[i as int]));
        assert(map@.contains_key(keys@[i as int]));
        if keys[i] >= r {
            r = keys[i] + 1;
        }
    }
    proof {
        assert forall|k: u64| #[trigger] map@.contains_key(k) implies k < r by {
            assert(keys@.contains(k));
            let i = choose|i: int| 0 <= i < keys@.len() && keys@[i] == k;
        }
    }
    r
}

/// Checks that every table of a catalogue can be stored and every index fits its table.
///
/// # Errors
///
/// A corruption for the first that does not.
fn check_catalogue(c: &Catalogue) -> (r: Result<(), InternalError>)
    ensures
        match r {
            Ok(_) => c@.storable(),
            Err(e) => !c@.storable() && c@.unstorable(e),
        },
{
    let tables: Vec<u64> = c.tables.keys();
    for i in 0..tables.len()
        invariant
            increasing(tables@),
            forall|k: u64| #[trigger] tables@.contains(k) <==> c.tables@.contains_key(k),
            forall|k: int| 0 <= k < i ==> shape_ok(c.tables@[#[trigger] tables@[k]].shape),
    {
        let id: u64 = tables[i];
        assert(tables@.contains(id));
        match c.tables.get(id) {
            Some(entry) => match check_shape(&entry.shape) {
                Ok(_) => {},
                Err(_) => {
                    proof {
                        assert(c@.tables.contains_key(id));
                        assert(!c@.storable());
                        assert forall|s: u64|
                            s < id && #[trigger] c@.tables.contains_key(s) implies shape_ok(
                            c@.tables[s].shape,
                        ) by {
                            assert(tables@.contains(s));
                            let k = choose|k: int| 0 <= k < tables@.len() && tables@[k] == s;
                            assert(k < i) by {
                                if k > i {
                                    assert(tables@[i as int] < tables@[k]);
                                }
                            }
                            assert(shape_ok(c.tables@[tables@[k]].shape));
                        }
                    }
                    return Err(InternalError::Corruption(Corruption::BrokenDefinition { id }));
                },
            },
            None => {
                assert(false);
            },
        }
    }
    proof {
        assert forall|t: u64| #[trigger] c@.tables.contains_key(t) implies shape_ok(
            c@.tables[t].shape,
        ) by {
            assert(tables@.contains(t));
            let i = choose|i: int| 0 <= i < tables@.len() && tables@[i] == t;
            assert(shape_ok(c.tables@[tables@[i]].shape));
        }
    }
    let indexes: Vec<u64> = c.indexes.keys();
    for i in 0..indexes.len()
        invariant
            increasing(indexes@),
            forall|t: u64| #[trigger]
                c@.tables.contains_key(t) ==> shape_ok(c@.tables[t].shape),
            forall|k: u64| #[trigger] indexes@.contains(k) <==> c.indexes@.contains_key(k),
            forall|k: int| 0 <= k < i ==> c@.index_fits(#[trigger] indexes@[k]),
    {
        let id: u64 = indexes[i];
        assert(indexes@.contains(id));
        assert(c@.indexes.contains_key(id));
        let fits: bool = match c.indexes.get(id) {
            Some(entry) => match c.tables.get(entry.table.0 as u64) {
                Some(t) => check_index_shape(&entry.shape, &t.shape).is_ok(),
                None => false,
            },
            None => false,
        };
        if !fits {
            proof {
                assert(!c@.index_fits(id));
                assert(!c@.storable());
                assert forall|y: u64| y < id && #[trigger] c@.indexes.contains_key(y) implies
                    c@.index_fits(y) by {
                    assert(indexes@.contains(y));
                    let k = choose|k: int| 0 <= k < indexes@.len() && indexes@[k] == y;
                    assert(k < i) by {
                        if k > i {
                            assert(indexes@[i as int] < indexes@[k]);
                        }
                    }
                    assert(c@.index_fits(indexes@[k]));
                }
            }
            return Err(InternalError::Corruption(Corruption::BrokenDefinition { id }));
        }
    }
    proof {
        assert forall|x: u64| #[trigger] c@.indexes.contains_key(x) implies c@.index_fits(x) by {
            assert(indexes@.contains(x));
            let i = choose|i: int| 0 <= i < indexes@.len() && indexes@[i] == x;
            assert(c@.index_fits(indexes@[i]));
        }
    }
    Ok(())
}

/// The corruption of a definition that cannot be stored.
pub open spec fn broken(id: u64) -> Corruption {
    Corruption::BrokenDefinition { id }
}

/// A redo that has not begun, over the tables of a catalogue, all empty.
pub open spec fn blank_redo(c: CatalogueModel) -> Redone {
    Redone {
        tables: Map::new(|t: u64| c.tables.contains_key(t), |t: u64| Map::empty()),
        applied: 0,
        skipped: 0,
        unplaced: 0,
    }
}

/// The heap of each table of a catalogue, as the data file holds it or empty, and the head pages.
///
/// # Errors
///
/// A corruption for a record too short for its prefix.
fn attach_heaps(c: &Catalogue, held: OrdMap<Heap>) -> (r: Result<
    (OrdMap<RedoHeap>, OrdMap<PageId>),
    InternalError,
>)
    requires
        c@.filed(),
        forall|t: u64| #[trigger]
            held@.contains_key(t) ==> held@[t].table.0 as u64 == t && held@[t].wf() && distinct(
                held@[t].records,
            ),
    ensures
        match r {
            Ok((heaps, pages)) => {
                &&& heaps_ok(heaps@)
                &&& heaps@.dom() == c@.tables.dom()
                &&& before_redo(heaps@) == redo_start(held@, c@)
                &&& forall|t: u64| #[trigger]
                    heaps@.contains_key(t) ==> heaps@[t].next == next_in(held@, t)
                &&& pages@.dom() == c@.tables.dom()
                &&& forall|t: u64| #[trigger]
                    pages@.contains_key(t) ==> pages@[t] == c@.tables[t].first_page
            },
            Err(e) => short_held(held@, c@, e),
        },
{
    let ghost all = held@;
    let mut rest: OrdMap<Heap> = held;
    let keys: Vec<u64> = c.tables.keys();
    let mut heaps: OrdMap<RedoHeap> = OrdMap::new();
    let mut pages: OrdMap<PageId> = OrdMap::new();
    for i in 0..keys.len()
        invariant
            all == held@,
            c@.filed(),
            increasing(keys@),
            forall|t: u64| #[trigger]
                all.contains_key(t) ==> all[t].table.0 as u64 == t && all[t].wf() && distinct(
                    all[t].records,
                ),
            forall|k: u64| #[trigger] keys@.contains(k) <==> c@.tables.contains_key(k),
            forall|k: int|
                i <= k < keys@.len() ==> (rest@.contains_key(#[trigger] keys@[k])
                    <==> all.contains_key(keys@[k])) && (all.contains_key(keys@[k])
                    ==> rest@[keys@[k]] == all[keys@[k]]),
            heaps_ok(heaps@),
            forall|t: u64| #[trigger]
                heaps@.contains_key(t) <==> keys@.take(i as int).contains(t),
            forall|t: u64| #[trigger]
                heaps@.contains_key(t) ==> heaps@[t].contents() == contents_in(all, t)
                    && heaps@[t].next == next_in(all, t),
            forall|t: u64| #[trigger]
                pages@.contains_key(t) <==> keys@.take(i as int).contains(t),
            forall|t: u64| #[trigger]
                pages@.contains_key(t) ==> pages@[t] == c@.tables[t].first_page,
    {
        let key: u64 = keys[i];
        assert(keys@.contains(key));
        assert(c@.tables.contains_key(key));
        proof {
            assert(keys@.take(i + 1) =~= keys@.take(i as int).push(key));
            super::storage::lemma_push_contains(keys@.take(i as int), key);
        }
        let ghost left = rest@;
        match c.tables.get(key) {
            Some(entry) => {
                let heap: Heap = match rest.remove(key) {
                    Some(heap) => heap,
                    None => Heap::create(entry.table),
                };
                proof {
                    assert(all.contains_key(keys@[i as int]) ==> left[key] == all[key]);
                    if !all.contains_key(key) {
                        let none = contents(heap@);
                        assert forall|k: (u64, u64)| !none.contains_key(k) by {
                            if none.contains_key(k) {
                                lemma_placed(heap@, k);
                            }
                        }
                        assert(none =~= Map::<(u64, u64), StoredModel>::empty());
                    }
                    assert(contents(heap@) == contents_in(all, key));
                    assert(heap.next == next_in(all, key));
                    assert forall|k: int| i + 1 <= k < keys@.len() implies (rest@.contains_key(
                        #[trigger] keys@[k],
                    ) <==> all.contains_key(keys@[k])) && (all.contains_key(keys@[k])
                        ==> rest@[keys@[k]] == all[keys@[k]]) by {
                        assert(keys@[i as int] < keys@[k]);
                        assert(left.contains_key(keys@[k]) <==> all.contains_key(keys@[k]));
                    }
                }
                let ghost records = heap@;
                let redo: RedoHeap = match RedoHeap::over(heap) {
                    Ok(redo) => redo,
                    Err(e) => {
                        proof {
                            let rid = choose|rid: u64| #[trigger]
                                records.contains_key(rid) && records[rid].len()
                                    < VERSION_PREFIX_LEN && too_short(records[rid].len(), e);
                            assert(all.contains_key(key)) by {
                                if !all.contains_key(key) {
                                    assert(records == Map::<u64, Seq<u8>>::empty());
                                }
                            }
                            assert(records == all[key].records);
                            assert(short_record(all[key].records, e));
                            assert(short_held(all, c@, e));
                        }
                        return Err(e);
                    },
                };
                heaps.insert(key, redo);
                pages.insert(key, entry.first_page);
            },
            None => {
                assert(false);
            },
        }
    }
    proof {
        assert(keys@.take(keys@.len() as int) =~= keys@);
        assert(heaps@.dom() =~= c@.tables.dom());
        assert(pages@.dom() =~= c@.tables.dom());
        let a = before_redo(heaps@);
        let b = redo_start(all, c@);
        assert forall|t: u64| #[trigger] a.tables.contains_key(t) <==> b.tables.contains_key(t) by {
            assert(heaps@.dom().contains(t) <==> c@.tables.dom().contains(t));
        }
        assert(a.tables =~= b.tables);
    }
    Ok((heaps, pages))
}

/// loser created as its current version.
pub open spec fn rebuilt(
    e: TableEntryModel,
    heap: RedoModel,
    t: DiskTableModel,
    st: Map<u64, TxnStatus>,
    next_row_id: u64,
    next_seq: u64,
) -> bool {
    let model = t.store.model();
    &&& t.db == e.db
    &&& t.first_page == e.first_page
    &&& t.store.shape == e.shape
    &&& t.store.table == e.table
    &&& t.store.wf()
    &&& model.contents == heap.contents()
    &&& model.next_row_id == larger(1, next_row_id)
    &&& model.next_seq == larger(1, next_seq)
    &&& model.writes == Map::<u64, Seq<RowUndo>>::empty()
    &&& model.lost == Set::<u64>::empty()
    &&& forall|row: u64, seq: u64| #[trigger]
        resumes_at(model, st, row, seq) ==> model.current.contains_key(row)
    &&& forall|row: u64| #[trigger]
        model.current.contains_key(row) ==> resumes_at(model, st, row, model.current[row])
}

/// Whether a record of the heap of a table cannot be resumed.
pub open spec fn unfit_in(
    c: CatalogueModel,
    heaps: Map<u64, RedoModel>,
    next_seq: u64,
    t: u64,
    e: InternalError,
) -> bool {
    &&& heaps.contains_key(t)
    &&& exists|rid: u64| #[trigger]
        unfit(heaps[t].heap, larger(1, next_seq), rid) && e == unfit_error(
            heaps[t].table,
            heaps[t].heap[rid],
        )
}

/// The tables of a catalogue over what the redo left in their heaps.
///
/// # Errors
///
/// A corruption for a version that is no row of its table; a bug for a serial past the counter.
fn build_tables(
    c: &Catalogue,
    heaps: OrdMap<RedoHeap>,
    journal: &Journal,
    next_row_id: u64,
    next_seq: u64,
) -> (r: Result<OrdMap<DiskTable>, InternalError>)
    requires
        c@.filed(),
        heaps_ok(heaps@),
        heaps@.dom() == c@.tables.dom(),
    ensures
        match r {
            Ok(tables) => {
                &&& tables@.dom() == c@.tables.dom()
                &&& forall|t: u64| #[trigger]
                    tables@.contains_key(t) ==> rebuilt(
                        c@.tables[t],
                        heaps@[t],
                        tables@[t],
                        journal@.st(),
                        next_row_id,
                        next_seq,
                    )
            },
            Err(e) => exists|t: u64| #[trigger] unfit_in(c@, heaps@, next_seq, t, e),
        },
{
    let ghost all = heaps@;
    let mut rest: OrdMap<RedoHeap> = heaps;
    let keys: Vec<u64> = c.tables.keys();
    proof {
        assert forall|k: int| 0 <= k < keys@.len() implies rest@.contains_key(#[trigger] keys@[k]) by {
            assert(keys@.contains(keys@[k]));
            assert(rest@.dom().contains(keys@[k]));
        }
    }
    let mut tables: OrdMap<DiskTable> = OrdMap::new();
    for i in 0..keys.len()
        invariant
            c@.filed(),
            increasing(keys@),
            forall|k: u64| #[trigger] keys@.contains(k) <==> c@.tables.contains_key(k),
            all == heaps@,
            heaps_ok(all),
            all.dom() == c@.tables.dom(),
            forall|k: int|
                i <= k < keys@.len() ==> rest@.contains_key(#[trigger] keys@[k])
                    && rest@[keys@[k]] == all[keys@[k]],
            forall|t: u64| #[trigger]
                tables@.contains_key(t) <==> keys@.take(i as int).contains(t),
            forall|t: u64| #[trigger]
                tables@.contains_key(t) ==> rebuilt(
                    c@.tables[t],
                    all[t],
                    tables@[t],
                    journal@.st(),
                    next_row_id,
                    next_seq,
                ),
    {
        let key: u64 = keys[i];
        assert(keys@.contains(key));
        assert(c@.tables.contains_key(key));
        proof {
            assert(keys@.take(i + 1) =~= keys@.take(i as int).push(key));
            super::storage::lemma_push_contains(keys@.take(i as int), key);
            assert(all.dom().contains(key));
            assert(all.contains_key(key));
        }
        let ghost left = rest@;
        match (c.tables.get(key), rest.remove(key)) {
            (Some(entry), Some(redo)) => {
                assert(redo@ == all[key]);
                let ghost heap = redo@;
                let mut store: HeapTable = HeapTable::open(redo.heap, entry.shape.duplicate());
                let ghost fresh = store;
                match store.resume(journal, next_row_id, next_seq) {
                    Ok(_) => {},
                    Err(e) => {
                        proof {
                            let rid = choose|rid: u64| #[trigger]
                                unfit(fresh.heap@, store@.next_seq, rid) && e == unfit_error(
                                    fresh@.table,
                                    fresh.heap@[rid],
                                );
                            assert(unfit(all[key].heap, larger(1, next_seq), rid));
                            assert(unfit_in(c@, all, next_seq, key, e));
                        }
                        return Err(e);
                    },
                }
                proof {
                    lemma_parts(store);
                }
                let held = DiskTable { db: entry.db, first_page: entry.first_page, store };
                let ghost parts = held.deep_view();
                assert(rebuilt(
                    c@.tables[key],
                    all[key],
                    parts,
                    journal@.st(),
                    next_row_id,
                    next_seq,
                ));
                tables.insert(key, held);
                assert forall|k: int| i + 1 <= k < keys@.len() implies rest@.contains_key(
                    #[trigger] keys@[k],
                ) && rest@[keys@[k]] == all[keys@[k]] by {
                    assert(keys@[i as int] < keys@[k]);
                    assert(left.contains_key(keys@[k]));
                }
            },
            _ => {
                assert(false);
            },
        }
    }
    proof {
        assert(keys@.take(keys@.len() as int) =~= keys@);
        assert(tables@.dom() =~= c@.tables.dom());
    }
    Ok(tables)
}

/// Whether the most recent version of each row is its last one that no aborted transaction created,
/// and no row is lost.
pub open spec fn resumed_rows(t: HeapTableModel, st: Map<u64, TxnStatus>) -> bool {
    &&& t.lost == Set::<u64>::empty()
    &&& forall|row: u64, seq: u64| #[trigger]
        resumes_at(t, st, row, seq) ==> t.current.contains_key(row)
    &&& forall|row: u64| #[trigger]
        t.current.contains_key(row) ==> resumes_at(t, st, row, t.current[row])
}

/// What the recovery of a journal found, as its records say.
pub open spec fn recovered(log: Seq<RecordModel>, control: Control, r: Recovery) -> bool {
    let n = log.len() as int;
    &&& sorted(r.winners@)
    &&& forall|t: TxnId| #[trigger]
        r.winners@.contains(t) <==> has_kind(log, WalRecordKind::Commit, t.0)
    &&& sorted(r.losers@)
    &&& forall|t: TxnId| #[trigger]
        r.losers@.contains(t) <==> has_seen(log, t.0) && !has_kind(
            log,
            WalRecordKind::Commit,
            t.0,
        )
    &&& r.next_row_id as nat == if one_past(max_row(log, n)) > control.next_row_id {
        one_past(max_row(log, n))
    } else {
        control.next_row_id as nat
    }
    &&& r.next_seq as nat == one_past(max_serial(log, n))
    &&& forall|l: u64| #[trigger] r.cancelled@.contains(l) <==> is_cancelled(log, n, l)
}

/// Whether an instance is the one its data file and its journal tell: the definitions of the file and
/// of the records, and in each table the versions the redo of the winners leaves on what the file
/// holds.
pub open spec fn tells(data: DataModel, log: Seq<RecordModel>, control: Control, s: DiskStorage) -> bool {
    let n = log.len() as int;
    let m = s@;
    let r = s.recovery;
    &&& recovered(log, control, r)
    &&& data.defines(log, n) matches Some(c)
    &&& m.databases == c.databases
    &&& m.indexes == c.indexes
    &&& m.tables.dom() == c.tables.dom()
    &&& forall|t: u64| #[trigger]
        m.tables.contains_key(t) ==> {
            &&& m.tables[t].db == c.tables[t].db
            &&& m.tables[t].first_page == c.tables[t].first_page
            &&& m.tables[t].store.shape == c.tables[t].shape
            &&& m.tables[t].store.model().next_row_id == larger(1, r.next_row_id)
            &&& m.tables[t].store.model().next_seq == larger(1, r.next_seq)
            &&& forall|x: TxnId| (#[trigger] m.tables[t].store.model().writes_of(x)).len() == 0
            &&& resumed_rows(m.tables[t].store.model(), m.journal.st())
        }
    &&& redone(data.redo_start(c), log, n, numbers(r.winners@), r.cancelled@) == Some(
        Redone {
            tables: Map::new(
                |t: u64| m.tables.contains_key(t),
                |t: u64| m.tables[t].store.model().contents,
            ),
            applied: r.applied as nat,
            skipped: r.skipped as nat,
            unplaced: r.unplaced as nat,
        },
    )
    &&& m.journal.log == log
    &&& m.journal.txns == settled_txns(r.winners@, r.losers@)
    &&& m.control.next_row_id == r.next_row_id
    &&& m.control.next_page_id == control.next_page_id
    &&& m.control.latest_checkpoint_lsn == control.latest_checkpoint_lsn
    &&& m.control.durable_lsn == control.durable_lsn
    &&& covers(control.next_db_id, m.control.next_db_id, c.databases.dom())
    &&& covers(control.next_table_id, m.control.next_table_id, c.tables.dom())
    &&& covers(control.next_index_id, m.control.next_index_id, c.indexes.dom())
}

/// Whether an instance is the one the records of its journal tell by themselves: the catalogue of the
/// definition records, and in each table the versions the redo of the winners leaves on empty heaps.
pub open spec fn tells_alone(log: Seq<RecordModel>, control: Control, s: DiskStorage) -> bool {
    let n = log.len() as int;
    let m = s@;
    let r = s.recovery;
    &&& recovered(log, control, r)
    &&& catalogue_of(log, n) matches Some(c)
    &&& m.databases == c.databases
    &&& m.indexes == c.indexes
    &&& m.tables.dom() == c.tables.dom()
    &&& forall|t: u64| #[trigger]
        m.tables.contains_key(t) ==> {
            &&& m.tables[t].db == c.tables[t].db
            &&& m.tables[t].first_page == c.tables[t].first_page
            &&& m.tables[t].store.shape == c.tables[t].shape
            &&& m.tables[t].store.model().next_row_id == larger(1, r.next_row_id)
            &&& m.tables[t].store.model().next_seq == larger(1, r.next_seq)
            &&& forall|x: TxnId| (#[trigger] m.tables[t].store.model().writes_of(x)).len() == 0
            &&& resumed_rows(m.tables[t].store.model(), m.journal.st())
        }
    &&& redone(blank_redo(c), log, n, numbers(r.winners@), r.cancelled@) matches Some(z)
    &&& z.tables == Map::new(
        |t: u64| m.tables.contains_key(t),
        |t: u64| m.tables[t].store.model().contents,
    )
    &&& m.journal.log == log
    &&& m.journal.txns == settled_txns(r.winners@, r.losers@)
    &&& m.control.next_row_id == r.next_row_id
    &&& m.control.next_page_id == control.next_page_id
    &&& m.control.latest_checkpoint_lsn == control.latest_checkpoint_lsn
    &&& m.control.durable_lsn == control.durable_lsn
    &&& covers(control.next_db_id, m.control.next_db_id, c.databases.dom())
    &&& covers(control.next_table_id, m.control.next_table_id, c.tables.dom())
    &&& covers(control.next_index_id, m.control.next_index_id, c.indexes.dom())
}

/// Whether a counter moved from `before` to `after` to be past every identifier of `ids`, and no
/// further.
pub open spec fn covers(before: u64, after: u64, ids: Set<u64>) -> bool {
    &&& after >= before
    &&& forall|k: u64| #[trigger] ids.contains(k) ==> k < after
    &&& after == before || exists|k: u64| #[trigger] ids.contains(k) && after == k + 1
}

/// The register of an instance that has just been opened.
pub open spec fn settled_txns(winners: Seq<TxnId>, losers: Seq<TxnId>) -> Map<u64, TxnRecordModel> {
    let none = JournalModel {
        log: Seq::empty(),
        durable: super::page::Lsn(0),
        txns: Map::empty(),
        next_savepoint_id: 0,
    };
    none.settled(winners, TxnStatus::Committed).settled(losers, TxnStatus::Aborted).txns
}

/// The register depends on the register alone.
proof fn lemma_settled_txns(a: JournalModel, b: JournalModel, txns: Seq<TxnId>, status: TxnStatus)
    requires
        a.txns == b.txns,
    ensures
        a.settled(txns, status).txns == b.settled(txns, status).txns,
        a.settled(txns, status).log == a.log,
        a.settled(txns, status).durable == a.durable,
        a.settled(txns, status).next_savepoint_id == a.next_savepoint_id,
    decreases txns.len(),
{
    if txns.len() > 0 {
        lemma_settled_txns(a, b, txns.drop_last(), status);
    }
}

/// Whether the record `k` is the first definition that does not read, and `e` its error.
pub open spec fn undefined_at(data: DataModel, log: Seq<RecordModel>, k: int, e: InternalError) -> bool {
    &&& 0 <= k < log.len()
    &&& data.defines(log, k) is Some
    &&& data.defines(log, k + 1) is None
    &&& e == InternalError::Corruption(
        Corruption::NotADefinition { bytes: log[k].payload.len() as usize },
    )
}

/// The error of a heap without an address left.
pub open spec fn heap_full(table: TableId) -> InternalError {
    InternalError::Bug(Bug::HeapFull(table))
}

/// Why the records of a journal cannot be replayed over what the data file holds.
pub open spec fn replay_error(
    data: DataModel,
    log: Seq<RecordModel>,
    control: Control,
    e: InternalError,
) -> bool {
    let n = log.len() as int;
    ||| exists|i: int|
        0 <= i < n && !payload_ok(#[trigger] log[i]) && payload_error(log[i], e) && forall|j: int|
            0 <= j < i ==> payload_ok(#[trigger] log[j])
    ||| exists|k: int| #[trigger] undefined_at(data, log, k, e)
    ||| data.defines(log, n) matches Some(c) && c.unstorable(e)
    ||| data.defines(log, n) matches Some(c) && short_held(data.heaps, c, e)
    ||| redo_failed(data, log, control, e)
    ||| exists|table: TableId|
        next_in(data.heaps, table.0 as u64) + n > u64::MAX && e == #[trigger] heap_full(table)
}

/// Why an instance cannot be opened.
pub open spec fn open_error(
    options: DiskOptions,
    control: Control,
    data: DataModel,
    bytes: Seq<u8>,
    e: InternalError,
) -> bool {
    let log = journal_records(bytes);
    ||| options.buffer_pages == 0 && e == InternalError::Bug(Bug::NoFrame)
    ||| !tail_ok(bytes) && scan_error(bytes, e)
    ||| replay_error(data, log, control, e)
    ||| rows_unfit(data, log, control, e)
    ||| index_unbuilt(data, log, control, e)
}

/// Whether the redo left a version that no table can resume.
pub open spec fn rows_unfit(data: DataModel, log: Seq<RecordModel>, control: Control, e: InternalError) -> bool {
    exists|r: Recovery, c: CatalogueModel, s: Redone, t: u64, k: (u64, u64)| #[trigger]
        leaves_unfit(data, log, control, r, c, s, t, k) && e == InternalError::Bug(
            Bug::SerialsExhausted(c.tables[t].table),
        )
}

/// Whether the version `k`, left in the table `t` by the redo `s` of the journal, has a serial the
/// recovery does not cover.
pub open spec fn leaves_unfit(
    data: DataModel,
    log: Seq<RecordModel>,
    control: Control,
    r: Recovery,
    c: CatalogueModel,
    s: Redone,
    t: u64,
    k: (u64, u64),
) -> bool {
    let n = log.len() as int;
    &&& recovered(log, control, r)
    &&& data.defines(log, n) == Some(c)
    &&& redone(data.redo_start(c), log, n, numbers(r.winners@), r.cancelled@) == Some(s)
    &&& s.tables.contains_key(t)
    &&& s.tables[t].contains_key(k)
    &&& s.tables[t][k].header.seq >= larger(1, r.next_seq)
}

/// Whether the instance the journal tells has an index that cannot be built.
pub open spec fn index_unbuilt(data: DataModel, log: Seq<RecordModel>, control: Control, e: InternalError) -> bool {
    exists|s: DiskStorage, x: u64|
        {
            &&& #[trigger] tells(data, log, control, s)
            &&& #[trigger] s@.indexes.contains_key(x)
            &&& !s@.indexes[x].shared
            &&& !s@.index_built(x)
            &&& e == InternalError::Corruption(unbuilt(s@.indexes[x].index))
        }
}

/// The corruption of an index that cannot be built.
pub open spec fn unbuilt(x: IndexId) -> Corruption {
    Corruption::IndexRebuild(x)
}

impl DiskStorage {
    /// Checks that each index can be built over the rows the recovery left; one that shares the
    /// order of its clustered table is left alone.
    ///
    /// # Errors
    ///
    /// A corruption naming the first index that cannot be built.
    fn rebuild_indexes(&self) -> (r: Result<(), InternalError>)
        requires
            self.wf(),
        ensures
            match r {
                Ok(_) => forall|x: u64| #[trigger]
                    self@.indexes.contains_key(x) && !self@.indexes[x].shared ==> self@.index_built(
                        x,
                    ),
                Err(e) => exists|x: u64|
                    {
                        &&& #[trigger] self@.indexes.contains_key(x)
                        &&& !self@.indexes[x].shared
                        &&& !self@.index_built(x)
                        &&& e == InternalError::Corruption(unbuilt(self@.indexes[x].index))
                    },
            },
    {
        let keys: Vec<u64> = self.indexes.keys();
        let ghost m = self@;
        for i in 0..keys.len()
            invariant
                m == self@,
                self.wf(),
                forall|k: u64| #[trigger] keys@.contains(k) <==> m.indexes.contains_key(k),
                forall|k: int|
                    0 <= k < i && !m.indexes[#[trigger] keys@[k]].shared ==> m.index_built(keys@[k]),
        {
            let x: u64 = keys[i];
            assert(keys@.contains(x));
            assert(m.indexes.contains_key(x));
            match self.indexes.get(x) {
                Some(entry) => {
                    if !entry.shared {
                        let ghost t = m.store(entry.table);
                        let ghost order = order_of(
                            entry.shape@.columns,
                            m.shape_of(entry.table).columns,
                        );
                        let checked = self.check_index_rows(
                            entry.table,
                            entry.index,
                            &entry.shape,
                        );
                        match checked {
                            Ok(_) => {},
                            Err(e) => {
                                proof {
                                    lemma_cannot_build(
                                        t,
                                        order,
                                        entry.shape@.unique,
                                        entry.table,
                                        entry.index,
                                        e,
                                    );
                                }
                                return Err(
                                    InternalError::Corruption(Corruption::IndexRebuild(entry.index)),
                                );
                            },
                        }
                        assert(m.index_built(x));
                    }
                },
                None => {
                    assert(false);
                },
            }
        }
        proof {
            assert forall|x: u64| #[trigger]
                m.indexes.contains_key(x) && !m.indexes[x].shared implies m.index_built(x) by {
                assert(keys@.contains(x));
                let i = choose|i: int| 0 <= i < keys@.len() && keys@[i] == x;
                assert(!m.indexes[keys@[i]].shared);
            }
        }
        Ok(())
    }
}

/// Two increasing lists of the same members are the same list.
pub proof fn lemma_same_list(a: Seq<(u64, u64)>, b: Seq<(u64, u64)>)
    requires
        forall|i: int, j: int| 0 <= i < j < a.len() ==> (#[trigger] a[i]).0 < (#[trigger] a[j]).0,
        forall|i: int, j: int| 0 <= i < j < b.len() ==> (#[trigger] b[i]).0 < (#[trigger] b[j]).0,
        forall|k: (u64, u64)| #[trigger] a.contains(k) <==> b.contains(k),
    ensures
        a == b,
    decreases a.len(),
{
    if a.len() == 0 {
        if b.len() > 0 {
            assert(b.contains(b[0]));
            assert(a.contains(b[0]));
        }
        assert(a =~= b);
    } else {
        let x = a.last();
        assert(a.contains(a[a.len() - 1]));
        assert(b.contains(x));
        assert(b.len() > 0);
        let y = b.last();
        assert(b.contains(b[b.len() - 1]));
        assert(a.contains(y));
        let i = choose|i: int| 0 <= i < b.len() && b[i] == x;
        let j = choose|j: int| 0 <= j < a.len() && a[j] == y;
        assert(x == y) by {
            if i < b.len() - 1 && j < a.len() - 1 {
                assert(b[i].0 < b[b.len() - 1].0);
                assert(a[j].0 < a[a.len() - 1].0);
            }
        }
        let p = a.drop_last();
        let q = b.drop_last();
        assert forall|k: (u64, u64)| #[trigger] p.contains(k) <==> q.contains(k) by {
            if p.contains(k) {
                let z = choose|z: int| 0 <= z < p.len() && p[z] == k;
                assert(a[z] == k);
                assert(a.contains(k));
                assert(a[z].0 < a[a.len() - 1].0);
                let w = choose|w: int| 0 <= w < b.len() && b[w] == k;
                assert(w < b.len() - 1);
                assert(q[w] == k);
            }
            if q.contains(k) {
                let z = choose|z: int| 0 <= z < q.len() && q[z] == k;
                assert(b[z] == k);
                assert(b.contains(k));
                assert(b[z].0 < b[b.len() - 1].0);
                assert(b[b.len() - 1] == y && a[a.len() - 1] == x);
                assert(a.contains(k));
                let w = choose|w: int| 0 <= w < a.len() && a[w] == k;
                assert(w < a.len() - 1);
                assert(p[w] == k);
            }
        }
        lemma_same_list(p, q);
        assert(a =~= p.push(x));
        assert(b =~= q.push(y));
    }
}

impl DiskModel {
    /// Whether an index can be built over the live rows of its table.
    pub open spec fn index_built(self, x: u64) -> bool {
        let e = self.indexes[x];
        let t = self.store(e.table);
        can_build(t, order_of(e.shape.columns, self.shape_of(e.table).columns), e.shape.unique)
    }
}

/// Replays the records of a journal over what the data file holds: the definitions, then the row
/// records of the winners. Answers the definitions, what the recovery found and the heaps.
///
/// # Errors
///
/// A corruption for a payload or a definition that does not read, for a definition that cannot be
/// stored, for a record of the data file too short for its prefix and for a row record that cannot be
/// replayed; a bug when a heap has no address left.
fn replay(control: Control, data: Data, records: &Vec<WalRecord>) -> (r: Result<
    (Catalogue, Recovery, OrdMap<RedoHeap>),
    InternalError,
>)
    requires
        data@.wf(),
    ensures
        ({
            let log = records.deep_view();
            match r {
                Ok((c, recovery, heaps)) => {
                    &&& c@.filed()
                    &&& c@.storable()
                    &&& heaps_ok(heaps@)
                    &&& heaps@.dom() == c@.tables.dom()
                    &&& recovered(log, control, recovery)
                    &&& data@.defines(log, log.len() as int) == Some(c@)
                    &&& redone(
                        data@.redo_start(c@),
                        log,
                        log.len() as int,
                        numbers(recovery.winners@),
                        recovery.cancelled@,
                    ) == Some(
                        Redone {
                            tables: versions_of(heaps@),
                            applied: recovery.applied as nat,
                            skipped: recovery.skipped as nat,
                            unplaced: recovery.unplaced as nat,
                        },
                    )
                },
                Err(e) => replay_error(data@, log, control, e),
            }
        }),
{
    let ghost log = records.deep_view();
    let ghost n = log.len() as int;
    let ghost held = data@;
    assert(records@.len() == records.deep_view().len());
    let scan: Scan = match Scan::of(records) {
        Ok(scan) => scan,
        Err(e) => {
            return Err(e);
        },
    };
    let catalogue: Catalogue = match data.catalogue.redo_ddl(records) {
        Ok(catalogue) => catalogue,
        Err(e) => {
            proof {
                let k = choose|k: int|
                    {
                        &&& 0 <= k < records@.len()
                        &&& #[trigger] catalogue_over(held.catalogue, log, k) is Some
                        &&& catalogue_over(held.catalogue, log, k + 1) is None
                        &&& e == InternalError::Corruption(
                            Corruption::NotADefinition {
                                bytes: log[k].payload.len() as usize,
                            },
                        )
                    };
                assert(undefined_at(held, log, k, e));
            }
            return Err(e);
        },
    };
    let ghost c = catalogue@;
    proof {
        lemma_filed(held, log, n);
    }
    match check_catalogue(&catalogue) {
        Ok(_) => {},
        Err(e) => {
            return Err(e);
        },
    }
    let (mut heaps, pages) = match attach_heaps(&catalogue, data.heaps) {
        Ok(attached) => attached,
        Err(e) => {
            return Err(e);
        },
    };
    let ghost start = heaps@;
    let mut recovery: Recovery = scan.into_recovery(control.next_row_id, pages);
    proof {
        assert(log.take(n) =~= log);
        assert(recovered(log, control, recovery));
    }
    let ghost first = recovery;
    match redo(records, &mut recovery, &mut heaps) {
        Ok(_) => {},
        Err(e) => {
            proof {
                lemma_redo_error(held, log, control, first, c, start, e);
            }
            return Err(e);
        },
    }
    assert(recovered(log, control, recovery));
    Ok((catalogue, recovery, heaps))
}

impl DiskStorage {
    /// Opens the instance whose control block is `control`, whose data file holds `data` and whose
    /// journal holds `bytes`; an empty journal and a data file without pages are an instance nothing
    /// was done on.
    ///
    /// The journal is read, a tail that an unfinished append left behind dropped. The definitions
    /// are replayed first, over those of the data file, then the row records of the transactions that
    /// hold a `Commit`, on the heaps of the data file, from the first record on: what a heap already
    /// holds is skipped. The counters of the control block take the identifiers the
    /// journal names; the ended transactions are registered; the indexes are checked.
    ///
    /// # Errors
    ///
    /// A bug for a pool of no frame; a corruption for a journal that does not read, for a
    /// definition that does not read or cannot be stored, for a row record that cannot be
    /// replayed, for a version that is no row of its table and for an index that cannot be built.
    pub fn open(options: DiskOptions, control: Control, data: Data, bytes: Vec<u8>) -> (r: Result<
        Self,
        InternalError,
    >)
        requires
            data@.wf(),
        ensures
            match r {
                Ok(s) => {
                    &&& s.wf()
                    &&& s.options == options
                    &&& options.buffer_pages > 0
                    &&& tail_ok(bytes@)
                    &&& tells(data@, journal_records(bytes@), control, s)
                    &&& s.journal.wal.bytes@ == bytes@.take(journal_end(bytes@))
                    &&& s@.journal.next_savepoint_id == 0
                    &&& forall|x: u64| #[trigger]
                        s@.indexes.contains_key(x) && !s@.indexes[x].shared ==> s@.index_built(x)
                },
                Err(e) => open_error(options, control, data@, bytes@, e),
            },
    {
        match options.validate() {
            Ok(_) => {},
            Err(e) => {
                return Err(e);
            },
        }
        let ghost log = journal_records(bytes@);
        let ghost held = data@;
        let wal: Wal = match Wal::open(bytes) {
            Ok(wal) => wal,
            Err(e) => {
                return Err(e);
            },
        };
        let records: Vec<WalRecord> = wal.iter();
        match replay(control, data, &records) {
            Ok((catalogue, recovery, heaps)) => DiskStorage::assemble(
                options,
                control,
                catalogue,
                wal,
                recovery,
                heaps,
                Ghost(held),
            ),
            Err(e) => Err(e),
        }
    }

    /// The instance of a catalogue over the heaps the redo left, what the recovery found in its
    /// registers and its counters.
    ///
    /// # Errors
    ///
    /// A bug for a version whose serial the recovery does not cover; a corruption for an index that
    /// cannot be built.
    fn assemble(
        options: DiskOptions,
        control: Control,
        catalogue: Catalogue,
        wal: Wal,
        recovery: Recovery,
        heaps: OrdMap<RedoHeap>,
        held: Ghost<DataModel>,
    ) -> (r: Result<Self, InternalError>)
        requires
            wal.wf(),
            catalogue@.filed(),
            catalogue@.storable(),
            heaps_ok(heaps@),
            heaps@.dom() == catalogue@.tables.dom(),
            recovered(wal.log(), control, recovery),
            held@.defines(wal.log(), wal.log().len() as int) == Some(catalogue@),
            redone(
                held@.redo_start(catalogue@),
                wal.log(),
                wal.log().len() as int,
                numbers(recovery.winners@),
                recovery.cancelled@,
            ) == Some(
                Redone {
                    tables: versions_of(heaps@),
                    applied: recovery.applied as nat,
                    skipped: recovery.skipped as nat,
                    unplaced: recovery.unplaced as nat,
                },
            ),
        ensures
            match r {
                Ok(s) => {
                    &&& s.wf()
                    &&& s.options == options
                    &&& tells(held@, wal.log(), control, s)
                    &&& s.journal.wal == wal
                    &&& s@.journal.next_savepoint_id == 0
                    &&& forall|x: u64| #[trigger]
                        s@.indexes.contains_key(x) && !s@.indexes[x].shared ==> s@.index_built(x)
                },
                Err(e) => rows_unfit(held@, wal.log(), control, e) || index_unbuilt(
                    held@,
                    wal.log(),
                    control,
                    e,
                ),
            },
    {
        let ghost log = wal.log();
        let ghost c = catalogue@;
        let ghost held = held@;
        let mut journal: Journal = Journal::over(wal);
        let ghost bare = journal@;
        journal.register_recovered(&recovery.winners, &recovery.losers);
        proof {
            let none = JournalModel {
                log: Seq::empty(),
                durable: super::page::Lsn(0),
                txns: Map::empty(),
                next_savepoint_id: 0,
            };
            lemma_settled_txns(bare, none, recovery.winners@, TxnStatus::Committed);
            lemma_settled_txns(
                bare.settled(recovery.winners@, TxnStatus::Committed),
                none.settled(recovery.winners@, TxnStatus::Committed),
                recovery.losers@,
                TxnStatus::Aborted,
            );
        }
        let ghost left = heaps@;
        assert(left.dom() == c.tables.dom());
        let tables: OrdMap<DiskTable> = match build_tables(
            &catalogue,
            heaps,
            &journal,
            recovery.next_row_id,
            recovery.next_seq,
        ) {
            Ok(tables) => tables,
            Err(e) => {
                proof {
                    let s = Redone {
                        tables: versions_of(left),
                        applied: recovery.applied as nat,
                        skipped: recovery.skipped as nat,
                        unplaced: recovery.unplaced as nat,
                    };
                    lemma_unfit_found(held, log, control, recovery, c, s, left, e);
                }
                return Err(e);
            },
        };
        proof {
            assert forall|t: u64| #[trigger] tables@.contains_key(t) implies t <= u32::MAX by {
                assert(c.tables.dom().contains(t));
                assert(c.tables.contains_key(t));
            }
            assert forall|x: u64| #[trigger] c.indexes.contains_key(x) implies x <= u32::MAX by {}
            assert(catalogue.databases@ == c.databases);
            assert(catalogue.indexes@ == c.indexes);
        }
        let moved = Control {
            next_page_id: control.next_page_id,
            next_db_id: past_keys(&catalogue.databases, control.next_db_id),
            next_table_id: past_keys(&tables, control.next_table_id),
            next_index_id: past_keys(&catalogue.indexes, control.next_index_id),
            next_row_id: recovery.next_row_id,
            latest_checkpoint_lsn: control.latest_checkpoint_lsn,
            durable_lsn: control.durable_lsn,
        };
        let storage = DiskStorage {
            options,
            control: moved,
            databases: catalogue.databases,
            tables,
            indexes: catalogue.indexes,
            journal,
            recovery,
        };
        proof {
            let m = storage@;
            assert forall|t: u64| #[trigger] m.tables.contains_key(t) implies c.tables.contains_key(
                t,
            ) && rebuilt(
                c.tables[t],
                left[t],
                m.tables[t],
                m.journal.st(),
                recovery.next_row_id,
                recovery.next_seq,
            ) by {
                assert(c.tables.dom().contains(t));
            }
            assert(m.wf()) by {
                assert forall|x: u64| #[trigger] m.indexes.contains_key(x) implies {
                    let e = m.indexes[x];
                    &&& e.index.0 as u64 == x
                    &&& m.has_table(e.table)
                    &&& index_shape_ok(e.shape, m.shape_of(e.table).columns.len())
                    &&& x < m.control.next_index_id
                } by {
                    assert(c.indexes.contains_key(x));
                    assert(c.index_fits(x));
                    assert(m.tables.dom().contains(m.indexes[x].table.0 as u64));
                    assert(m.tables.contains_key(m.indexes[x].table.0 as u64));
                }
            }
            let after = Map::new(
                |t: u64| m.tables.contains_key(t),
                |t: u64| m.tables[t].store.model().contents,
            );
            assert(after =~= versions_of(left)) by {
                assert forall|t: u64| #[trigger] after.contains_key(t) <==> versions_of(
                    left,
                ).contains_key(t) by {
                    assert(m.tables.dom().contains(t) <==> left.dom().contains(t));
                }
                assert forall|t: u64| #[trigger] after.contains_key(t) implies after[t]
                    == versions_of(left)[t] by {
                    assert(m.tables.contains_key(t));
                    assert(left.dom().contains(t));
                }
            }
            assert(covers(control.next_db_id, m.control.next_db_id, c.databases.dom()));
            assert(covers(control.next_table_id, m.control.next_table_id, c.tables.dom())) by {
                assert(m.tables.dom() == c.tables.dom());
                assert forall|k: u64| #[trigger] c.tables.dom().contains(k) implies k
                    < m.control.next_table_id by {
                    assert(m.tables.contains_key(k));
                }
                if m.control.next_table_id != control.next_table_id {
                    let k = choose|k: u64| #[trigger]
                        m.tables.contains_key(k) && m.control.next_table_id == k + 1;
                    assert(c.tables.dom().contains(k));
                }
            }
            assert(covers(control.next_index_id, m.control.next_index_id, c.indexes.dom()));
            assert(tells(held, log, control, storage));
        }
        match storage.rebuild_indexes() {
            Ok(_) => Ok(storage),
            Err(e) => {
                proof {
                    assert(index_unbuilt(held, log, control, e));
                }
                Err(e)
            },
        }
    }
}

/// The error of a version that cannot be resumed, as the error of an open.
proof fn lemma_unfit_found(
    data: DataModel,
    log: Seq<RecordModel>,
    control: Control,
    r: Recovery,
    c: CatalogueModel,
    s: Redone,
    heaps: Map<u64, RedoModel>,
    e: InternalError,
)
    requires
        recovered(log, control, r),
        c.storable(),
        c.filed(),
        heaps_ok(heaps),
        heaps.dom() == c.tables.dom(),
        data.defines(log, log.len() as int) == Some(c),
        s.tables == versions_of(heaps),
        redone(
            data.redo_start(c),
            log,
            log.len() as int,
            numbers(r.winners@),
            r.cancelled@,
        ) == Some(s),
        exists|t: u64| #[trigger] unfit_in(c, heaps, r.next_seq, t, e),
    ensures
        rows_unfit(data, log, control, e),
{
    let t = choose|t: u64| #[trigger] unfit_in(c, heaps, r.next_seq, t, e);
    let h = heaps[t].heap;
    let rid = choose|rid: u64| #[trigger]
        unfit(h, larger(1, r.next_seq), rid) && e == unfit_error(heaps[t].table, h[rid]);
    let v = stored_in(h[rid]);
    let k = v.key();
    assert(heaps.dom().contains(t));
    assert(c.tables.contains_key(t));
    lemma_contents_at(h, rid);
    assert(s.tables[t].contains_key(k) && s.tables[t][k] == v);
    assert(leaves_unfit(data, log, control, r, c, s, t, k));
}

/// The error of a redo, as the error of an open.
proof fn lemma_redo_error(
    data: DataModel,
    log: Seq<RecordModel>,
    control: Control,
    r: Recovery,
    c: CatalogueModel,
    heaps: Map<u64, RedoModel>,
    e: InternalError,
)
    requires
        recovered(log, control, r),
        data.defines(log, log.len() as int) == Some(c),
        before_redo(heaps) == data.redo_start(c),
        heaps_ok(heaps),
        forall|t: u64| #[trigger]
            heaps.contains_key(t) ==> heaps[t].next == next_in(data.heaps, t),
        ({
            let won = numbers(r.winners@);
            let out = r.cancelled@;
            let start = before_redo(heaps);
            ||| exists|n: int|
                0 <= n < log.len() && #[trigger] redone(start, log, n, won, out) is Some && redone(
                    start,
                    log,
                    n + 1,
                    won,
                    out,
                ) is None && redo_error(log[n], e)
            ||| exists|t: u64| #[trigger]
                heaps.contains_key(t) && heaps[t].next + log.len() > u64::MAX && e
                    == InternalError::Bug(Bug::HeapFull(heaps[t].table))
        }),
    ensures
        redo_failed(data, log, control, e) || exists|table: TableId|
            next_in(data.heaps, table.0 as u64) + log.len() > u64::MAX && e == #[trigger] heap_full(
                table,
            ),
{
    let won = numbers(r.winners@);
    let out = r.cancelled@;
    let start = before_redo(heaps);
    if exists|n: int|
        0 <= n < log.len() && #[trigger] redone(start, log, n, won, out) is Some && redone(
            start,
            log,
            n + 1,
            won,
            out,
        ) is None && redo_error(log[n], e) {
        let n = choose|n: int|
            0 <= n < log.len() && #[trigger] redone(start, log, n, won, out) is Some && redone(
                start,
                log,
                n + 1,
                won,
                out,
            ) is None && redo_error(log[n], e);
        assert(redo_stops(data, log, c, won, out, n, e));
    } else {
        let t = choose|t: u64| #[trigger]
            heaps.contains_key(t) && heaps[t].next + log.len() > u64::MAX && e
                == InternalError::Bug(Bug::HeapFull(heaps[t].table));
        assert(e == heap_full(heaps[t].table) && heaps[t].table.0 as u64 == t);
    }
}

/// Whether the redo of the record `i` fails.
pub open spec fn redo_stops(
    data: DataModel,
    log: Seq<RecordModel>,
    c: CatalogueModel,
    won: Set<u64>,
    out: Set<u64>,
    i: int,
    e: InternalError,
) -> bool {
    &&& 0 <= i < log.len()
    &&& data.defines(log, log.len() as int) == Some(c)
    &&& redone(data.redo_start(c), log, i, won, out) is Some
    &&& redone(data.redo_start(c), log, i + 1, won, out) is None
    &&& redo_error(log[i], e)
}

/// Whether the redo of a journal fails with `e`.
pub open spec fn redo_failed(data: DataModel, log: Seq<RecordModel>, control: Control, e: InternalError) -> bool {
    exists|r: Recovery, c: CatalogueModel, i: int|
        recovered(log, control, r) && #[trigger] redo_stops(
            data,
            log,
            c,
            numbers(r.winners@),
            r.cancelled@,
            i,
            e,
        )
}

} // verus!
