//! Reading the in-memory storage: single rows, scans and index seeks.

use vstd::prelude::*;

use super::index::{
    all_comparable, entries_ok, entry_before, find_version, in_range, lemma_with_entry_ok, names,
    range_comparable, range_error, range_ok, slot, version_at, with_entry, EntryModel, Index,
    IndexEntry, IndexModel,
};
use super::key_order::{
    fits, key_in, key_relation, keys_comparable, partition_point, short_row, Column, KeyOrder,
};
use super::model::{table_ok, StorageModel};
use super::table::{Table, Version, VersionModel};
use super::MemoryStorage;
use crate::error::{bug, Bug, SqlError, SqlResult};
use crate::ids::{IndexId, RowId, TableId, TxnId};
use crate::key_range::{Direction, KeyRange, KeyRangeModel};
use crate::row::Row;
use crate::snapshot::{Snapshot, TxnStatus};
use crate::value::{Relation, Value, ValueModel};

verus! {

/// The first version of a chain `snap` sees.
pub open spec fn first_seen(
    chain: Seq<VersionModel>,
    snap: Snapshot,
    st: Map<u64, TxnStatus>,
) -> Option<VersionModel>
    decreases chain.len(),
{
    if chain.len() == 0 {
        None
    } else if snap.visible(chain[0].xmin, chain[0].xmax, st) {
        Some(chain[0])
    } else {
        first_seen(chain.drop_first(), snap, st)
    }
}

/// The rows a list of rows stands for.
pub open spec fn rows_view(rows: Seq<(RowId, Row)>) -> Seq<(RowId, Seq<ValueModel>)> {
    Seq::new(rows.len(), |i: int| (rows[i].0, rows[i].1@))
}

/// The order of two rows of a clustered table: by clustered key, then by row.
pub open spec fn row_before(
    order: Seq<Column>,
    a: (RowId, Seq<ValueModel>),
    b: (RowId, Seq<ValueModel>),
) -> bool {
    match key_relation(order, key_in(order, a.1), key_in(order, b.1)) {
        Relation::Less => true,
        Relation::Equal => a.0.0 < b.0.0,
        Relation::Greater => false,
    }
}

impl StorageModel {
    /// What `snap` sees of the row `id` of `table`.
    pub open spec fn seen(self, snap: Snapshot, table: TableId, id: RowId) -> Option<
        Seq<ValueModel>,
    > {
        let rows = self.table(table).rows;
        if rows.contains_key(id.0) {
            match first_seen(rows[id.0], snap, self.st()) {
                Some(v) => Some(v.data),
                None => None,
            }
        } else {
            None
        }
    }

    /// Whether `out` lists exactly the rows of `table` that `snap` sees, in increasing row order
    /// for a heap and in clustered-key order otherwise, each once.
    pub open spec fn scanned(
        self,
        snap: Snapshot,
        table: TableId,
        out: Seq<(RowId, Seq<ValueModel>)>,
    ) -> bool {
        &&& forall|id: RowId, data: Seq<ValueModel>| #[trigger]
            out.contains((id, data)) <==> self.seen(snap, table, id) == Some(data)
        &&& match self.table(table).clustered {
            None => forall|i: int, j: int|
                0 <= i < j < out.len() ==> (#[trigger] out[i]).0.0 < (#[trigger] out[j]).0.0,
            Some(order) => forall|i: int, j: int|
                0 <= i < j < out.len() ==> row_before(order, #[trigger] out[i], #[trigger] out[j]),
        }
    }

    /// Whether `snap` sees two rows of the clustered table `table` whose keys are not
    /// comparable.
    pub open spec fn scan_clash(self, snap: Snapshot, table: TableId) -> bool {
        &&& self.table(table).clustered matches Some(order)
        &&& exists|a: RowId, b: RowId|
            #![trigger self.seen(snap, table, a), self.seen(snap, table, b)]
            {
                &&& self.seen(snap, table, a) matches Some(x)
                &&& self.seen(snap, table, b) matches Some(y)
                &&& !keys_comparable(order, key_in(order, x), key_in(order, y))
            }
    }

    /// Whether `snap` sees the version an entry of the index `ix` names.
    pub open spec fn entry_seen(self, snap: Snapshot, ix: IndexModel, e: EntryModel) -> bool {
        &&& version_at(self.table(ix.table).rows, e.row, e.version) matches Some(v)
        &&& self.sees(snap, v)
    }

    /// The rows an index serves for a range, in index order: one per entry in the range whose
    /// version `snap` sees.
    pub open spec fn sought(
        self,
        snap: Snapshot,
        ix: IndexModel,
        range: KeyRangeModel,
        entries: Seq<EntryModel>,
    ) -> Seq<(RowId, Seq<ValueModel>)> {
        entries.filter(
            |e: EntryModel| in_range(ix.order, e.key, range) && self.entry_seen(snap, ix, e),
        ).map_values(
            |e: EntryModel|
                (e.row, version_at(self.table(ix.table).rows, e.row, e.version)->0.data),
        )
    }
}

/// One row on its way to clustered-key order.
#[derive(Debug)]
pub struct SortedRow {
    /// Its clustered key.
    pub key: Vec<Value>,
    /// Its identifier.
    pub id: RowId,
    /// Its content.
    pub row: Row,
}

/// The rows as entries of an index on the clustered key.
pub open spec fn as_entries(rows: Seq<SortedRow>) -> Seq<EntryModel> {
    Seq::new(
        rows.len(),
        |i: int| EntryModel { key: rows[i].key.deep_view(), row: rows[i].id, version: 0 },
    )
}

/// Whether two rows of a list have keys that are not comparable.
pub open spec fn keys_clash(order: Seq<Column>, rows: Seq<(RowId, Seq<ValueModel>)>) -> bool {
    exists|i: int, j: int|
        0 <= i < rows.len() && 0 <= j < rows.len() && !keys_comparable(
            order,
            key_in(order, (#[trigger] rows[i]).1),
            key_in(order, (#[trigger] rows[j]).1),
        )
}

/// Sorts `rows` by `order` then by increasing row, with a fallible comparator: the rows are
/// inserted one by one at their binary-search position.
///
/// # Errors
///
/// A corruption for a row that does not hold every key column; the error of the comparison of two
/// rows whose keys are not comparable.
pub fn sort_rows(order: &KeyOrder, rows: Vec<(RowId, Row)>) -> (r: SqlResult<Vec<(RowId, Row)>>)
    requires
        distinct_rows(rows@),
    ensures
        match r {
            Ok(out) => {
                &&& forall|i: int|
                    0 <= i < rows@.len() ==> fits(order@, (#[trigger] rows@[i]).1@.len())
                &&& !keys_clash(order@, rows_view(rows@))
                &&& out@.len() == rows@.len()
                &&& forall|x: (RowId, Seq<ValueModel>)| #[trigger]
                    rows_view(out@).contains(x) <==> rows_view(rows@).contains(x)
                &&& forall|i: int, j: int|
                    0 <= i < j < out@.len() ==> row_before(
                        order@,
                        #[trigger] rows_view(out@)[i],
                        #[trigger] rows_view(out@)[j],
                    )
            },
            Err(e) => {
                ||| keys_clash(order@, rows_view(rows@)) && e == SqlError::IncomparableValues
                ||| exists|i: int|
                    0 <= i < rows@.len() && short_row(order@, (#[trigger] rows@[i]).1@.len(), e)
            },
        },
{
    let ghost input = rows_view(rows@);
    let mut sorted: Vec<SortedRow> = Vec::with_capacity(rows.len());
    for item in it: rows
        invariant
            it.seq() == rows@,
            input == rows_view(rows@),
            forall|i: int|
                0 <= i < it.index() ==> fits(order@, (#[trigger] rows@[i]).1@.len()),
            distinct_rows(rows@),
            sorted@.len() == it.index(),
            entries_ok(order@, as_entries(sorted@)),
            holds_rows(order@, sorted@, input.take(it.index() as int)),
    {
        let ghost n = it.index() as int;
        let ghost before = sorted@;
        let (id, row): (RowId, Row) = item;
        assert(rows@[n] == item);
        assert(input[n] == (id, row@));
        let key: Vec<Value> = match order.extract(&row) {
            Ok(key) => key,
            Err(e) => {
                assert(short_row(order@, rows@[n].1@.len(), e));
                return Err(e);
            },
        };
        let ghost target = EntryModel { key: key.deep_view(), row: id, version: 0 };
        let pos: usize = match place_of(order, &sorted, &key, id) {
            Ok(p) => p,
            Err(e) => {
                proof {
                    let i = choose|i: int|
                        0 <= i < before.len() && !keys_comparable(
                            order@,
                            (#[trigger] before[i]).key.deep_view(),
                            key.deep_view(),
                        );
                    let x = (before[i].id, before[i].row@);
                    assert(input.take(n).contains(x));
                    let a = input.take(n).index_of(x);
                    assert(input[a] == x);
                    assert(!keys_comparable(
                        order@,
                        key_in(order@, input[a].1),
                        key_in(order@, input[n].1),
                    ));
                }
                return Err(e);
            },
        };
        proof {
            let entries = as_entries(before);
            lemma_not_there(order@, before, rows@, n);
            assert forall|i: int| 0 <= i < entries.len() implies !names(
                #[trigger] entries[i],
                target.row,
                target.version,
            ) by {
                assert(before[i].id != rows@[n].0);
            }
            lemma_with_entry_ok(order@, entries, target);
        }
        sorted.insert(pos, SortedRow { key, id, row });
        proof {
            let more = sorted@;
            assert(as_entries(more) =~= with_entry(order@, as_entries(before), target));
            lemma_row_added(order@, before, more, input, n, pos as int);
        }
    }
    assert(input.take(input.len() as int) =~= input);
    let ghost done = sorted@;
    let mut out: Vec<(RowId, Row)> = Vec::with_capacity(sorted.len());
    for item in it: sorted
        invariant
            it.seq() == done,
            out@.len() == it.index(),
            forall|i: int|
                0 <= i < out@.len() ==> #[trigger] rows_view(out@)[i] == (done[i].id, done[i].row@),
    {
        let ghost n = it.index() as int;
        assert(done[n] == item);
        let ghost listed = rows_view(out@);
        out.push((item.id, item.row));
        assert(rows_view(out@) =~= listed.push((item.id, item.row@)));
    }
    proof {
        let entries = as_entries(done);
        assert forall|x: (RowId, Seq<ValueModel>)| #[trigger]
            rows_view(out@).contains(x) <==> input.contains(x) by {
            if rows_view(out@).contains(x) {
                let i = rows_view(out@).index_of(x);
                assert((done[i].id, done[i].row@) == x);
            }
            if input.contains(x) {
                let i = choose|i: int|
                    0 <= i < done.len() && ((#[trigger] done[i]).id, done[i].row@) == x;
                assert(rows_view(out@)[i] == x);
            }
        }
        assert forall|i: int, j: int| 0 <= i < j < out@.len() implies row_before(
            order@,
            #[trigger] rows_view(out@)[i],
            #[trigger] rows_view(out@)[j],
        ) by {
            assert(entry_before(order@, entries[i], entries[j]));
            assert(done[i].key.deep_view() == key_in(order@, done[i].row@));
            assert(done[j].key.deep_view() == key_in(order@, done[j].row@));
        }
        assert(!keys_clash(order@, input)) by {
            if keys_clash(order@, input) {
                let (a, b) = choose|a: int, b: int|
                    0 <= a < input.len() && 0 <= b < input.len() && !keys_comparable(
                        order@,
                        key_in(order@, (#[trigger] input[a]).1),
                        key_in(order@, (#[trigger] input[b]).1),
                    );
                assert(input.contains(input[a]) && input.contains(input[b]));
                let i = choose|i: int|
                    0 <= i < done.len() && ((#[trigger] done[i]).id, done[i].row@) == input[a];
                let j = choose|j: int|
                    0 <= j < done.len() && ((#[trigger] done[j]).id, done[j].row@) == input[b];
                assert(keys_comparable(order@, entries[i].key, entries[j].key));
            }
        }
    }
    Ok(out)
}

/// The position of a row among the sorted ones: after the last one that comes before it.
///
/// # Errors
///
/// The error of the comparison of two keys that are not comparable.
fn place_of(order: &KeyOrder, sorted: &Vec<SortedRow>, key: &Vec<Value>, id: RowId) -> (r: SqlResult<
    usize,
>)
    requires
        entries_ok(order@, as_entries(sorted@)),
        key.deep_view().len() == order@.len(),
    ensures
        ({
            let entries = as_entries(sorted@);
            match r {
                Ok(pos) => {
                    &&& pos <= sorted@.len()
                    &&& all_comparable(order@, entries, key.deep_view())
                    &&& pos == slot(
                        order@,
                        entries,
                        EntryModel { key: key.deep_view(), row: id, version: 0 },
                    )
                },
                Err(e) => e == SqlError::IncomparableValues && exists|i: int|
                    0 <= i < sorted@.len() && !keys_comparable(
                        order@,
                        (#[trigger] sorted@[i]).key.deep_view(),
                        key.deep_view(),
                    ),
            }
        }),
{
    let found = partition_point(
        sorted,
        |s: &SortedRow| -> (r: SqlResult<bool>)
            ensures
                super::index::probed(
                    order@,
                    s.key.deep_view(),
                    key.deep_view(),
                    entry_before(
                        order@,
                        (EntryModel { key: s.key.deep_view(), row: s.id, version: 0 }),
                        (EntryModel { key: key.deep_view(), row: id, version: 0 }),
                    ),
                    r,
                )
            {
                match order.compare_prefix(&s.key, key) {
                    Ok(Relation::Less) => Ok(true),
                    Ok(Relation::Equal) => Ok(s.id.0 < id.0),
                    Ok(Relation::Greater) => Ok(false),
                    Err(x) => Err(x),
                }
            },
    );
    match found {
        Ok(pos) => {
            proof {
                let entries = as_entries(sorted@);
                let target = EntryModel { key: key.deep_view(), row: id, version: 0 };
                if pos > 0 {
                    assert(entries[pos - 1].key == sorted@[pos - 1].key.deep_view());
                }
                if pos < sorted@.len() {
                    assert(entries[pos as int].key == sorted@[pos as int].key.deep_view());
                }
                super::index::lemma_slot(order@, entries, target, pos as int);
            }
            Ok(pos)
        },
        Err(e) => Err(e),
    }
}

/// Whether no row is listed twice.
#[verifier::opaque]
pub open spec fn distinct_rows(rows: Seq<(RowId, Row)>) -> bool {
    forall|i: int, j: int|
        0 <= i < j < rows.len() ==> (#[trigger] rows[i]).0 != (#[trigger] rows[j]).0
}

/// Rows by increasing identifier are listed once.
pub proof fn lemma_increasing_rows(rows: Seq<(RowId, Row)>)
    requires
        forall|i: int, j: int|
            0 <= i < j < rows.len() ==> (#[trigger] rows[i]).0.0 < (#[trigger] rows[j]).0.0,
    ensures
        distinct_rows(rows),
{
    reveal(distinct_rows);
}

/// A row that comes next is not among the sorted ones.
proof fn lemma_not_there(
    order: Seq<Column>,
    before: Seq<SortedRow>,
    rows: Seq<(RowId, Row)>,
    n: int,
)
    requires
        0 <= n < rows.len(),
        distinct_rows(rows),
        holds_rows(order, before, rows_view(rows).take(n)),
    ensures
        forall|i: int| 0 <= i < before.len() ==> (#[trigger] before[i]).id != rows[n].0,
{
    reveal(distinct_rows);
    let done = rows_view(rows).take(n);
    assert forall|i: int| 0 <= i < before.len() implies (#[trigger] before[i]).id != rows[n].0 by {
        let x = (before[i].id, before[i].row@);
        assert(done.contains(x));
        let a = done.index_of(x);
        assert(rows[a].0 == x.0);
    }
}

/// One more row among the sorted ones.
proof fn lemma_row_added(
    order: Seq<Column>,
    before: Seq<SortedRow>,
    more: Seq<SortedRow>,
    input: Seq<(RowId, Seq<ValueModel>)>,
    n: int,
    pos: int,
)
    requires
        0 <= n < input.len(),
        0 <= pos <= before.len(),
        more.len() == before.len() + 1,
        forall|i: int| 0 <= i < pos ==> more[i] == before[i],
        forall|i: int| pos < i < more.len() ==> more[i] == before[i - 1],
        (more[pos].id, more[pos].row@) == input[n],
        more[pos].key.deep_view() == key_in(order, more[pos].row@),
        holds_rows(order, before, input.take(n)),
    ensures
        holds_rows(order, more, input.take(n + 1)),
{
    let done = input.take(n);
    let now = input.take(n + 1);
    assert(now =~= done.push(input[n]));
    assert forall|i: int| 0 <= i < more.len() implies now.contains(
        ((#[trigger] more[i]).id, more[i].row@),
    ) && more[i].key.deep_view() == key_in(order, more[i].row@) by {
        if i == pos {
            assert(now[n] == (more[i].id, more[i].row@));
        } else {
            let k = if i < pos { i } else { i - 1 };
            assert(more[i] == before[k]);
            let x = (before[k].id, before[k].row@);
            assert(done.contains(x));
            assert(now[done.index_of(x)] == x);
        }
    }
    assert forall|x: (RowId, Seq<ValueModel>)| #[trigger] now.contains(x) implies exists|i: int|
        0 <= i < more.len() && ((#[trigger] more[i]).id, more[i].row@) == x by {
        if x == input[n] {
            assert((more[pos].id, more[pos].row@) == x);
        } else {
            assert(done[now.index_of(x)] == x);
            assert(done.contains(x));
            let k = choose|k: int|
                0 <= k < before.len() && ((#[trigger] before[k]).id, before[k].row@) == x;
            let i = if k < pos { k } else { k + 1 };
            assert(more[i] == before[k]);
        }
    }
}

/// Whether the sorted rows are the rows `done`, each with its key.
spec fn holds_rows(
    order: Seq<Column>,
    sorted: Seq<SortedRow>,
    done: Seq<(RowId, Seq<ValueModel>)>,
) -> bool {
    &&& forall|i: int|
        0 <= i < sorted.len() ==> done.contains(((#[trigger] sorted[i]).id, sorted[i].row@))
            && sorted[i].key.deep_view() == key_in(order, sorted[i].row@)
    &&& forall|x: (RowId, Seq<ValueModel>)| #[trigger]
        done.contains(x) ==> exists|i: int|
            0 <= i < sorted.len() && ((#[trigger] sorted[i]).id, sorted[i].row@) == x
}

impl MemoryStorage {
    /// Whether `snap` sees a version.
    fn sees(&self, snap: &Snapshot, v: &Version) -> (r: bool)
        ensures
            r == self@.sees(*snap, v@),
    {
        let xmax: Option<(TxnId, TxnStatus)> = match v.xmax {
            Some(x) => Some((x, self.status(x))),
            None => None,
        };
        snap.is_visible((v.xmin, self.status(v.xmin)), xmax)
    }

    /// The version of `versions` visible to `snap`, if any.
    fn visible<'v>(&self, snap: &Snapshot, versions: &'v Vec<Version>) -> (r: Option<&'v Version>)
        ensures
            match r {
                Some(v) => first_seen(versions.deep_view(), *snap, self@.st()) == Some(v@),
                None => first_seen(versions.deep_view(), *snap, self@.st()) is None,
            },
    {
        let ghost chain = versions.deep_view();
        let mut i: usize = 0;
        assert(chain.skip(0) =~= chain);
        while i < versions.len()
            invariant
                i <= versions@.len(),
                chain == versions.deep_view(),
                first_seen(chain.skip(i as int), *snap, self@.st()) == first_seen(
                    chain,
                    *snap,
                    self@.st(),
                ),
            decreases versions@.len() - i,
        {
            assert(chain.skip(i as int)[0] == versions@[i as int]@);
            assert(chain.skip(i as int).drop_first() =~= chain.skip(i + 1));
            if self.sees(snap, &versions[i]) {
                return Some(&versions[i]);
            }
            i = i + 1;
        }
        None
    }

    /// The content of the row `id` of `table` as `snap` sees it, `None` when it sees none.
    ///
    /// # Errors
    ///
    /// A bug for an unknown table.
    pub fn get(&self, snap: &Snapshot, table: TableId, id: RowId) -> (r: SqlResult<Option<Row>>)
        ensures
            match r {
                Ok(found) => {
                    &&& self@.has_table(table)
                    &&& match found {
                        Some(row) => self@.seen(*snap, table, id) == Some(row@),
                        None => self@.seen(*snap, table, id) is None,
                    }
                },
                Err(e) => !self@.has_table(table) && e.is_bug(Bug::UnknownTable(table)),
            },
    {
        let t: &Table = match self.table(table) {
            Ok(t) => t,
            Err(e) => {
                return Err(e);
            },
        };
        match t.rows.get(id.0) {
            Some(versions) => match self.visible(snap, versions) {
                Some(v) => Ok(Some(v.data.duplicate())),
                None => Ok(None),
            },
            None => Ok(None),
        }
    }

    /// The rows of `table` that `snap` sees: in increasing row order, or in clustered-key order
    /// when the table has a clustered key.
    ///
    /// # Errors
    ///
    /// A bug for an unknown table; the error of the comparison when two of the rows have
    /// clustered keys that are not comparable.
    pub fn scan(&self, snap: &Snapshot, table: TableId) -> (r: SqlResult<Vec<(RowId, Row)>>)
        requires
            self@.wf(),
        ensures
            match r {
                Ok(out) => {
                    &&& self@.has_table(table)
                    &&& !self@.scan_clash(*snap, table)
                    &&& self@.scanned(*snap, table, rows_view(out@))
                },
                Err(e) => if !self@.has_table(table) {
                    e.is_bug(Bug::UnknownTable(table))
                } else {
                    self@.scan_clash(*snap, table) && e == SqlError::IncomparableValues
                },
            },
    {
        let ghost m = self@;
        let t: &Table = match self.table(table) {
            Ok(t) => t,
            Err(e) => {
                return Err(e);
            },
        };
        assert(table_ok(m.table(table)));
        let mut rows: Vec<(RowId, Row)> = Vec::new();
        let keys: Vec<u64> = t.rows.keys();
        for n in 0..keys.len()
            invariant
                m == self@,
                t@ == m.table(table),
                table_ok(t@),
                crate::ordmap::increasing(keys@),
                forall|k: u64| #[trigger] keys@.contains(k) <==> t@.rows.contains_key(k),
                forall|i: int|
                    0 <= i < rows@.len() ==> keys@.take(n as int).contains(
                        (#[trigger] rows@[i]).0.0,
                    ) && m.seen(*snap, table, rows@[i].0) == Some(rows@[i].1@),
                forall|i: int, j: int|
                    0 <= i < j < rows@.len() ==> (#[trigger] rows@[i]).0.0 < (
                    #[trigger] rows@[j]).0.0,
                forall|j: int|
                    0 <= j < n && m.seen(*snap, table, RowId(#[trigger] keys@[j])) is Some
                        ==> exists|i: int|
                        0 <= i < rows@.len() && (#[trigger] rows@[i]).0.0 == keys@[j],
        {
            let k: u64 = keys[n];
            let ghost before = rows@;
            proof {
                assert(keys@.contains(k));
                assert forall|i: int| 0 <= i < rows@.len() implies (#[trigger] rows@[i]).0.0 < k by {
                    let x = keys@.take(n as int).index_of(rows@[i].0.0);
                    assert(keys@.take(n as int)[x] == keys@[x]);
                    assert(keys@[x] < keys@[n as int]);
                }
                assert forall|x: u64| keys@.take(n as int).contains(x) implies #[trigger] keys@.take(
                    n + 1,
                ).contains(x) by {
                    assert(keys@.take(n + 1)[keys@.take(n as int).index_of(x)] == x);
                }
                assert(keys@.take(n + 1)[n as int] == k);
            }
            if let Some(versions) = t.rows.get(k) {
                if let Some(v) = self.visible(snap, versions) {
                    rows.push((RowId(k), v.data.duplicate()));
                }
            }
            proof {
                assert forall|j: int|
                    0 <= j < n + 1 && m.seen(*snap, table, RowId(#[trigger] keys@[j]))
                        is Some implies exists|i: int|
                    0 <= i < rows@.len() && (#[trigger] rows@[i]).0.0 == keys@[j] by {
                    if j < n {
                        let i = choose|i: int|
                            0 <= i < before.len() && (#[trigger] before[i]).0.0 == keys@[j];
                        assert(rows@[i] == before[i]);
                    } else {
                        assert(rows@[before.len() as int].0.0 == k);
                    }
                }
            }
        }
        let ghost listed = rows_view(rows@);
        proof {
            assert forall|id: RowId, data: Seq<ValueModel>| #[trigger]
                listed.contains((id, data)) <==> m.seen(*snap, table, id) == Some(data) by {
                if listed.contains((id, data)) {
                    let i = listed.index_of((id, data));
                    assert(rows@[i].0 == id);
                }
                if m.seen(*snap, table, id) == Some(data) {
                    assert(keys@.contains(id.0));
                    let j = keys@.index_of(id.0);
                    assert(RowId(keys@[j]) == id);
                    let i = choose|i: int|
                        0 <= i < rows@.len() && (#[trigger] rows@[i]).0.0 == keys@[j];
                    assert(rows@[i].0 == id);
                    assert(listed[i] == (id, data));
                }
            }
        }
        match &t.clustered {
            Some(order) => {
                proof {
                    assert(m.table(table).clustered == Some(order@));
                    assert forall|i: int| 0 <= i < rows@.len() implies fits(
                        order@,
                        (#[trigger] rows@[i]).1@.len(),
                    ) by {
                        lemma_seen_arity(m, *snap, table, rows@[i].0);
                        let key = t@.shape.clustered_key->0;
                        assert forall|c: int| 0 <= c < order@.len() implies (#[trigger] order@[c]).position
                            < rows@[i].1@.len() by {
                            assert(key[c].column < t@.shape.columns.len());
                        }
                    }
                    // Two listed rows whose keys clash are two rows the snapshot sees.
                    if keys_clash(order@, listed) {
                        let (a, b) = choose|a: int, b: int|
                            0 <= a < listed.len() && 0 <= b < listed.len() && !keys_comparable(
                                order@,
                                key_in(order@, (#[trigger] listed[a]).1),
                                key_in(order@, (#[trigger] listed[b]).1),
                            );
                        assert(listed.contains(listed[a]) && listed.contains(listed[b]));
                        assert(m.seen(*snap, table, listed[a].0) == Some(listed[a].1));
                        assert(m.seen(*snap, table, listed[b].0) == Some(listed[b].1));
                        assert(m.scan_clash(*snap, table));
                    }
                    if m.scan_clash(*snap, table) {
                        let (a, b) = choose|a: RowId, b: RowId|
                            #![trigger m.seen(*snap, table, a), m.seen(*snap, table, b)]
                            {
                                &&& m.seen(*snap, table, a) matches Some(x)
                                &&& m.seen(*snap, table, b) matches Some(y)
                                &&& !keys_comparable(order@, key_in(order@, x), key_in(order@, y))
                            };
                        let x = m.seen(*snap, table, a)->0;
                        let y = m.seen(*snap, table, b)->0;
                        assert(listed.contains((a, x)) && listed.contains((b, y)));
                        let i = listed.index_of((a, x));
                        let j = listed.index_of((b, y));
                        assert(!keys_comparable(
                            order@,
                            key_in(order@, listed[i].1),
                            key_in(order@, listed[j].1),
                        ));
                        assert(keys_clash(order@, listed));
                    }
                }
                proof {
                    lemma_increasing_rows(rows@);
                }
                sort_rows(order, rows)
            },
            None => Ok(rows),
        }
    }

    /// The tail of the chain of the row `id` of `table`, whatever the statuses: the transaction
    /// that wrote its most recent state (the deleter if there is one, else the creator) and its
    /// content.
    ///
    /// # Errors
    ///
    /// A bug for an unknown table.
    pub fn latest_version(&self, table: TableId, id: RowId) -> (r: SqlResult<Option<(TxnId, Row)>>)
        ensures
            match r {
                Ok(found) => {
                    let rows = self@.table(table).rows;
                    &&& self@.has_table(table)
                    &&& found is Some <==> rows.contains_key(id.0) && rows[id.0].len() > 0
                    &&& found matches Some(x) ==> {
                        let last = rows[id.0].last();
                        &&& x.0 == match last.xmax {
                            Some(deleter) => deleter,
                            None => last.xmin,
                        }
                        &&& x.1@ == last.data
                    }
                },
                Err(e) => !self@.has_table(table) && e.is_bug(Bug::UnknownTable(table)),
            },
    {
        let t: &Table = match self.table(table) {
            Ok(t) => t,
            Err(e) => {
                return Err(e);
            },
        };
        match t.latest(id) {
            Some(v) => {
                let writer: TxnId = match v.xmax {
                    Some(x) => x,
                    None => v.xmin,
                };
                Ok(Some((writer, v.data.duplicate())))
            },
            None => Ok(None),
        }
    }

    /// The rows the index `index` serves for `range` as `snap` sees them, in index order or in
    /// the reverse of it.
    ///
    /// # Errors
    ///
    /// A bug for an unknown index and for a key of the range that is too long or of the wrong
    /// variant; the error of the comparison for a key that is not comparable to the entries.
    pub fn seek(
        &self,
        snap: &Snapshot,
        index: IndexId,
        range: &KeyRange,
        dir: Direction,
    ) -> (r: SqlResult<Vec<(RowId, Row)>>)
        requires
            self@.wf(),
        ensures
            ({
                let m = self@;
                let ix = m.indexes[index.0 as u64];
                match r {
                    Ok(out) => {
                        &&& m.indexes.contains_key(index.0 as u64)
                        &&& range_ok(ix.order, range@)
                        &&& range_comparable(ix.order, ix.entries, range@)
                        &&& rows_view(out@) == match dir {
                            Direction::Forward => m.sought(*snap, ix, range@, ix.entries),
                            Direction::Backward => m.sought(
                                *snap,
                                ix,
                                range@,
                                ix.entries,
                            ).reverse(),
                        }
                    },
                    Err(e) => if !m.indexes.contains_key(index.0 as u64) {
                        e.is_bug(Bug::UnknownIndex(index))
                    } else if !range_ok(ix.order, range@) {
                        range_error(ix.order, range@, e)
                    } else {
                        !range_comparable(ix.order, ix.entries, range@) && e
                            == SqlError::IncomparableValues
                    },
                }
            }),
    {
        let ghost m = self@;
        let idx: &Index = match self.indexes.get(index.0 as u64) {
            Some(idx) => idx,
            None => {
                return bug(Bug::UnknownIndex(index));
            },
        };
        let ghost ix = m.indexes[index.0 as u64];
        proof {
            super::lemma_points_into(m, index.0 as u64);
        }
        let t: &Table = match self.table(idx.table) {
            Ok(t) => t,
            Err(e) => {
                return Err(e);
            },
        };
        let (start, end): (usize, usize) = match idx.positions(range) {
            Ok(p) => p,
            Err(e) => {
                return Err(e);
            },
        };
        let mut out: Vec<(RowId, Row)> = Vec::new();
        let ghost wanted = |e: EntryModel|
            in_range(ix.order, e.key, range@) && m.entry_seen(*snap, ix, e);
        let ghost served = |e: EntryModel|
            (e.row, version_at(m.table(ix.table).rows, e.row, e.version)->0.data);
        proof {
            lemma_none_sought(m, *snap, ix, range@, ix.entries.take(start as int));
            assert(rows_view(out@) =~= m.sought(*snap, ix, range@, ix.entries.take(start as int)));
        }
        let mut i: usize = start;
        while i < end
            invariant
                m == self@,
                m.wf(),
                idx@ == ix,
                t@ == m.table(ix.table),
                start <= i <= end <= ix.entries.len(),
                super::index::points_into(t@.rows, ix.entries),
                forall|j: int|
                    0 <= j < ix.entries.len() ==> (start <= j < end <==> in_range(
                        ix.order,
                        (#[trigger] ix.entries[j]).key,
                        range@,
                    )),
                rows_view(out@) == m.sought(*snap, ix, range@, ix.entries.take(i as int)),
            decreases end - i,
        {
            let entry: &IndexEntry = &idx.entries[i];
            assert(entry@ == ix.entries[i as int]);
            assert(version_at(t@.rows, ix.entries[i as int].row, ix.entries[i as int].version) is Some);
            let ghost listed = rows_view(out@);
            proof {
                lemma_sought_one_more(m, *snap, ix, range@, i as int);
            }
            if let Some(v) = find_version(&t.rows, entry.row, entry.version) {
                if self.sees(snap, v) {
                    out.push((entry.row, v.data.duplicate()));
                    assert(rows_view(out@) =~= listed.push((entry.row, v@.data)));
                }
            }
            i = i + 1;
        }
        proof {
            lemma_sought_tail(m, *snap, ix, range@, end as int);
        }
        if dir == Direction::Backward {
            let forward = out;
            let reversed = reverse_rows(forward);
            return Ok(reversed);
        }
        Ok(out)
    }
}

/// The rows in the reverse order.
pub fn reverse_rows(rows: Vec<(RowId, Row)>) -> (r: Vec<(RowId, Row)>)
    ensures
        rows_view(r@) == rows_view(rows@).reverse(),
{
    let mut from: Vec<(RowId, Row)> = rows;
    let mut r: Vec<(RowId, Row)> = Vec::with_capacity(from.len());
    while from.len() > 0
        invariant
            from@.len() + r@.len() == rows@.len(),
            forall|i: int| 0 <= i < from@.len() ==> from@[i] == rows@[i],
            forall|i: int|
                0 <= i < r@.len() ==> #[trigger] r@[i] == rows@[rows@.len() - 1 - i],
        decreases from@.len(),
    {
        if let Some(last) = from.pop() {
            r.push(last);
        }
    }
    assert(rows_view(r@) =~= rows_view(rows@).reverse());
    r
}

/// A row a snapshot sees has one value per column.
pub proof fn lemma_seen_arity(m: StorageModel, snap: Snapshot, table: TableId, id: RowId)
    requires
        m.has_table(table),
        table_ok(m.table(table)),
        m.seen(snap, table, id) is Some,
    ensures
        m.seen(snap, table, id)->0.len() == m.table(table).shape.columns.len(),
{
    let chain = m.table(table).rows[id.0];
    lemma_first_seen(chain, snap, m.st());
    let v = first_seen(chain, snap, m.st())->0;
    assert(chain[chain.index_of(v)].data.len() == m.table(table).shape.columns.len());
}

/// What a snapshot sees of a chain is one of its versions, and a visible one.
pub proof fn lemma_first_seen(chain: Seq<VersionModel>, snap: Snapshot, st: Map<u64, TxnStatus>)
    ensures
        match first_seen(chain, snap, st) {
            Some(v) => chain.contains(v) && snap.visible(v.xmin, v.xmax, st),
            None => forall|i: int|
                0 <= i < chain.len() ==> !snap.visible(
                    (#[trigger] chain[i]).xmin,
                    chain[i].xmax,
                    st,
                ),
        },
    decreases chain.len(),
{
    if chain.len() > 0 {
        let rest = chain.drop_first();
        lemma_first_seen(rest, snap, st);
        if snap.visible(chain[0].xmin, chain[0].xmax, st) {
            assert(chain.contains(chain[0]));
        } else {
            match first_seen(rest, snap, st) {
                Some(v) => {
                    assert(chain[rest.index_of(v) + 1] == v);
                },
                None => {
                    assert forall|i: int| 0 <= i < chain.len() implies !snap.visible(
                        (#[trigger] chain[i]).xmin,
                        chain[i].xmax,
                        st,
                    ) by {
                        if i > 0 {
                            assert(rest[i - 1] == chain[i]);
                        }
                    }
                },
            }
        }
    }
}

/// Entries outside the range serve no row.
proof fn lemma_none_sought(
    m: StorageModel,
    snap: Snapshot,
    ix: IndexModel,
    range: KeyRangeModel,
    entries: Seq<EntryModel>,
)
    requires
        forall|i: int| 0 <= i < entries.len() ==> !in_range(ix.order, (#[trigger] entries[i]).key, range),
    ensures
        m.sought(snap, ix, range, entries).len() == 0,
    decreases entries.len(),
{
    reveal(Seq::filter);
    if entries.len() > 0 {
        let shorter = entries.drop_last();
        assert forall|i: int| 0 <= i < shorter.len() implies !in_range(
            ix.order,
            (#[trigger] shorter[i]).key,
            range,
        ) by {
            assert(shorter[i] == entries[i]);
        }
        lemma_none_sought(m, snap, ix, range, shorter);
        assert(!in_range(ix.order, entries[entries.len() - 1].key, range));
    }
}

/// One more entry serves at most one more row.
proof fn lemma_sought_one_more(
    m: StorageModel,
    snap: Snapshot,
    ix: IndexModel,
    range: KeyRangeModel,
    i: int,
)
    requires
        0 <= i < ix.entries.len(),
    ensures
        ({
            let e = ix.entries[i];
            let before = m.sought(snap, ix, range, ix.entries.take(i));
            m.sought(snap, ix, range, ix.entries.take(i + 1)) == if in_range(
                ix.order,
                e.key,
                range,
            ) && m.entry_seen(snap, ix, e) {
                before.push((e.row, version_at(m.table(ix.table).rows, e.row, e.version)->0.data))
            } else {
                before
            }
        }),
{
    reveal(Seq::filter);
    let longer = ix.entries.take(i + 1);
    let e = ix.entries[i];
    assert(longer.drop_last() =~= ix.entries.take(i));
    assert(longer.last() == e);
    let before = m.sought(snap, ix, range, ix.entries.take(i));
    if in_range(ix.order, e.key, range) && m.entry_seen(snap, ix, e) {
        assert(m.sought(snap, ix, range, longer) =~= before.push(
            (e.row, version_at(m.table(ix.table).rows, e.row, e.version)->0.data),
        ));
    } else {
        assert(m.sought(snap, ix, range, longer) =~= before);
    }
}

/// The entries past the range serve no row.
proof fn lemma_sought_tail(
    m: StorageModel,
    snap: Snapshot,
    ix: IndexModel,
    range: KeyRangeModel,
    end: int,
)
    requires
        0 <= end <= ix.entries.len(),
        forall|j: int|
            end <= j < ix.entries.len() ==> !in_range(
                ix.order,
                (#[trigger] ix.entries[j]).key,
                range,
            ),
    ensures
        m.sought(snap, ix, range, ix.entries) == m.sought(snap, ix, range, ix.entries.take(end)),
    decreases ix.entries.len() - end,
{
    if end < ix.entries.len() {
        lemma_sought_one_more(m, snap, ix, range, end);
        assert(!in_range(ix.order, ix.entries[end].key, range));
        lemma_sought_tail(m, snap, ix, range, end + 1);
    } else {
        assert(ix.entries.take(end) =~= ix.entries);
    }
}

} // verus!
