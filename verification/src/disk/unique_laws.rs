//! A `unique` index of a durable table: no two rows with the same key are live in it, whoever wrote
//! them, and a row is refused for the key of another row alone.

use vstd::prelude::*;

use super::bytes::lemma_byte_ranges;
use super::encode::law_short_row_reads_back;
use super::journal::JournalModel;
use super::rows::{duplicated, incomparable, is_row_outcome, key_matches, lives, unreadable};
use super::shapes::{key_values, same_from};
use super::storage::DiskModel;
use super::table_model::{data_of, HeapTableModel};
use super::wal::WalRecordKind;
use crate::error::{SqlError, SqlResult};
use crate::ids::{RowId, TableId, TxnId};
use crate::shape::{IndexShapeModel, KeyColumn, TableShapeModel};
use crate::snapshot::TxnStatus;
use crate::value::{
    lemma_families_decide, lemma_value_relation_flips, lemma_value_relation_transitive,
    value_relation, Collation, Relation, ValueModel,
};

verus! {

/// The collation a column of a table is compared under: the one it names, else the one that ignores
/// case.
pub open spec fn compared_under(shape: TableShapeModel, column: u16) -> Collation {
    match shape.columns[column as int].collation {
        Some(named) => named,
        None => Collation::CaseInsensitive,
    }
}

/// Whether two rows hold the same key: in every key column, values that compare as equal, `NULL` being
/// equal to `NULL`.
pub open spec fn same_key_in(
    a: Seq<ValueModel>,
    b: Seq<ValueModel>,
    columns: Seq<KeyColumn>,
    shape: TableShapeModel,
) -> bool {
    forall|i: int|
        0 <= i < columns.len() ==> {
            let c = (#[trigger] columns[i]).column;
            value_relation(a[c as int], b[c as int], compared_under(shape, c)) == Relation::Equal
        }
}

/// Whether a transaction rolled back.
pub open spec fn rolled_back(j: JournalModel, x: TxnId) -> bool {
    j.txns.contains_key(x.0) && j.txns[x.0].status == TxnStatus::Aborted
}

/// Whether a transaction is still running.
pub open spec fn running(j: JournalModel, x: TxnId) -> bool {
    j.txns.contains_key(x.0) && j.txns[x.0].status == TxnStatus::InProgress
}

impl HeapTableModel {
    /// Whether a version stands: nothing hides it, and its creator has not rolled back.
    pub open spec fn stands(self, j: JournalModel, k: (u64, u64)) -> bool {
        &&& self.contents.contains_key(k)
        &&& self.contents[k].header.xmax is None
        &&& !rolled_back(j, self.contents[k].header.xmin)
    }

    /// Whether a version counts against the key of a row that `txn` writes: it stands, or another
    /// transaction that is still running hides it.
    pub open spec fn counts(self, j: JournalModel, txn: TxnId, k: (u64, u64)) -> bool {
        &&& self.contents.contains_key(k)
        &&& !rolled_back(j, self.contents[k].header.xmin)
        &&& self.contents[k].header.xmax matches Some(x) ==> x != txn && running(j, x)
    }

    /// Whether no two rows hold the same key of `def` in versions that stand.
    pub open spec fn keys_differ(
        self,
        j: JournalModel,
        def: IndexShapeModel,
        shape: TableShapeModel,
    ) -> bool {
        forall|a: (u64, u64), b: (u64, u64)|
            #![trigger self.stands(j, a), self.stands(j, b)]
            a.0 != b.0 && self.stands(j, a) && self.stands(j, b) ==> !same_key_in(
                data_of(self.contents[a]),
                data_of(self.contents[b]),
                def.columns,
                shape,
            )
    }
}

impl DiskModel {
    /// Whether the `unique` indexes hold what they promise: no two rows hold the same key in versions
    /// that stand.
    pub open spec fn unique_keys_differ(self) -> bool {
        forall|x: u64| #[trigger]
            self.indexes.contains_key(x) && self.indexes[x].shape.unique ==> self.store(
                self.indexes[x].table,
            ).keys_differ(self.journal, self.indexes[x].shape, self.shape_of(self.indexes[x].table))
    }

    /// Whether every version of a table reads back as a row of its width.
    pub open spec fn reads_whole(self, table: TableId) -> bool {
        let t = self.store(table);
        forall|k: (u64, u64)| #[trigger]
            t.contents.contains_key(k) ==> super::table_model::legible(t.contents[k]) && data_of(
                t.contents[k],
            ).len() == self.shape_of(table).columns.len()
    }
}

/// Two keys are compared as equal exactly when they are the same key from there on.
proof fn lemma_same_from(
    a: Seq<ValueModel>,
    b: Seq<ValueModel>,
    columns: Seq<KeyColumn>,
    shape: TableShapeModel,
    i: int,
)
    requires
        0 <= i <= columns.len(),
        forall|j: int| 0 <= j < columns.len() ==> (#[trigger] columns[j]).column < a.len(),
        forall|j: int| 0 <= j < columns.len() ==> (#[trigger] columns[j]).column < b.len(),
        forall|j: int|
            0 <= j < columns.len() ==> (#[trigger] columns[j]).column < shape.columns.len(),
    ensures
        same_from(key_values(a, columns), key_values(b, columns), columns, shape, i) == Some(true)
            <==> (forall|j: int|
            i <= j < columns.len() ==> {
                let c = (#[trigger] columns[j]).column;
                value_relation(a[c as int], b[c as int], compared_under(shape, c))
                    == Relation::Equal
            }),
    decreases columns.len() - i,
{
    if i < columns.len() {
        lemma_same_from(a, b, columns, shape, i + 1);
        let c = columns[i].column;
        let x = a[c as int];
        let y = b[c as int];
        assert(key_values(a, columns)[i] == x && key_values(b, columns)[i] == y);
        lemma_families_decide(x, y, compared_under(shape, c));
        lemma_value_relation_flips(x, y, compared_under(shape, c));
        crate::value_laws::law_null_comes_first(y, compared_under(shape, c));
        crate::value_laws::law_null_comes_first(x, compared_under(shape, c));
    }
}

/// The same key is the same key the other way round.
pub proof fn lemma_same_key_flips(
    a: Seq<ValueModel>,
    b: Seq<ValueModel>,
    columns: Seq<KeyColumn>,
    shape: TableShapeModel,
)
    requires
        same_key_in(a, b, columns, shape),
    ensures
        same_key_in(b, a, columns, shape),
{
    assert forall|i: int| 0 <= i < columns.len() implies {
        let c = (#[trigger] columns[i]).column;
        value_relation(b[c as int], a[c as int], compared_under(shape, c)) == Relation::Equal
    } by {
        let c = columns[i].column;
        lemma_value_relation_flips(a[c as int], b[c as int], compared_under(shape, c));
    }
}

/// Two keys that are the same as a third are the same.
proof fn lemma_same_key_joins(
    a: Seq<ValueModel>,
    b: Seq<ValueModel>,
    d: Seq<ValueModel>,
    columns: Seq<KeyColumn>,
    shape: TableShapeModel,
)
    requires
        same_key_in(a, b, columns, shape),
        same_key_in(b, d, columns, shape),
    ensures
        same_key_in(a, d, columns, shape),
{
    lemma_same_key_flips(a, b, columns, shape);
    lemma_same_key_flips(b, d, columns, shape);
    assert forall|i: int| 0 <= i < columns.len() implies {
        let c = (#[trigger] columns[i]).column;
        value_relation(a[c as int], d[c as int], compared_under(shape, c)) == Relation::Equal
    } by {
        let c = columns[i].column;
        let l = compared_under(shape, c);
        lemma_value_relation_transitive(a[c as int], b[c as int], d[c as int], l);
        lemma_value_relation_transitive(d[c as int], b[c as int], a[c as int], l);
        lemma_value_relation_flips(a[c as int], d[c as int], l);
    }
}

/// A row that the `unique` indexes take has a key that no version of another row holds that counts:
/// neither one that stands, whether its writer committed yet or not, nor one that another running
/// transaction is about to take away.
pub proof fn law_accepted_key_is_free(
    m: DiskModel,
    table: TableId,
    txn: TxnId,
    data: Seq<ValueModel>,
    skip: Option<RowId>,
    x: u64,
    k: (u64, u64),
)
    requires
        m.wf(),
        m.unique_ok(table, txn, data, skip),
        m.is_unique_on(x, table),
        m.reads_whole(table),
        data.len() == m.shape_of(table).columns.len(),
        m.store(table).counts(m.journal, txn, k),
        skip != Some(RowId(k.0)),
    ensures
        !same_key_in(
            data_of(m.store(table).contents[k]),
            data,
            m.indexes[x].shape.columns,
            m.shape_of(table),
        ),
{
    let e = m.indexes[x];
    let t = m.store(table);
    assert(!m.index_refuses(x, txn, data, skip));
    assert(m.has_table(e.table));
    lemma_same_from(data_of(t.contents[k]), data, e.shape.columns, m.shape_of(table), 0);
    let st = m.journal.st();
    let h = t.contents[k].header;
    assert(lives(h.xmin, h.xmax, Some(txn), st));
    let key = key_values(data, e.shape.columns);
    assert(!duplicated(t, e.shape, m.shape_of(table), key, txn, st, skip));
    assert(key_matches(t, e.shape, m.shape_of(table), key, k) != Some(true));
}

/// A row is refused for a duplicate key only where a version of another row that counts holds that
/// key in a `unique` index, the one the error names.
pub proof fn law_refused_key_is_taken(
    m: DiskModel,
    table: TableId,
    txn: TxnId,
    data: Seq<ValueModel>,
    skip: Option<RowId>,
    e: SqlError,
)
    requires
        m.wf(),
        m.has_table(table),
        m.unique_error(table, txn, data, skip, e),
        e is DuplicateKey,
        m.reads_whole(table),
        data.len() == m.shape_of(table).columns.len(),
    ensures
        e->DuplicateKey_table == table,
        exists|k: (u64, u64)|
            {
                let x = e->DuplicateKey_index.0 as u64;
                &&& #[trigger] m.store(table).counts(m.journal, txn, k)
                &&& skip != Some(RowId(k.0))
                &&& m.is_unique_on(x, table)
                &&& same_key_in(
                    data_of(m.store(table).contents[k]),
                    data,
                    m.indexes[x].shape.columns,
                    m.shape_of(table),
                )
            },
{
    let x = choose|x: u64|
        {
            &&& #[trigger] m.is_unique_on(x, table)
            &&& m.index_refuses(x, txn, data, skip)
            &&& forall|y: u64|
                y < x && #[trigger] m.is_unique_on(y, table) ==> !m.index_refuses(
                    y,
                    txn,
                    data,
                    skip,
                )
            &&& m.key_error(x, table, data, e)
        };
    let t = m.store(table);
    let def = m.indexes[x].shape;
    let shape = m.shape_of(table);
    let key = key_values(data, def.columns);
    let st = m.journal.st();
    assert(!unreadable(t));
    assert(!incomparable(t, def, shape, key));
    assert(duplicated(t, def, shape, key, txn, st, skip));
    let k = choose|k: (u64, u64)| #[trigger]
        t.contents.contains_key(k) && key_matches(t, def, shape, key, k) == Some(true) && Some(
            RowId(k.0),
        ) != skip && lives(
            t.contents[k].header.xmin,
            t.contents[k].header.xmax,
            Some(txn),
            st,
        );
    lemma_same_from(data_of(t.contents[k]), data, def.columns, shape, 0);
    assert(t.counts(m.journal, txn, k));
}

/// A row is refused for a duplicate key wherever a version of another row that counts holds its key in
/// a `unique` index.
pub proof fn law_taken_key_is_refused(
    m: DiskModel,
    table: TableId,
    txn: TxnId,
    data: Seq<ValueModel>,
    skip: Option<RowId>,
    x: u64,
    k: (u64, u64),
)
    requires
        m.wf(),
        m.is_unique_on(x, table),
        m.reads_whole(table),
        data.len() == m.shape_of(table).columns.len(),
        m.store(table).counts(m.journal, txn, k),
        skip != Some(RowId(k.0)),
        same_key_in(
            data_of(m.store(table).contents[k]),
            data,
            m.indexes[x].shape.columns,
            m.shape_of(table),
        ),
    ensures
        !m.unique_ok(table, txn, data, skip),
{
    if m.unique_ok(table, txn, data, skip) {
        law_accepted_key_is_free(m, table, txn, data, skip, x, k);
    }
}

/// An update that leaves the key of every `unique` index as it was is never refused for a duplicate, in
/// a table in which the keys of the versions that count differ from row to row.
pub proof fn law_unchanged_key_is_no_duplicate(
    m: DiskModel,
    table: TableId,
    txn: TxnId,
    id: RowId,
    data: Seq<ValueModel>,
    e: SqlError,
)
    requires
        m.wf(),
        m.has_table(table),
        m.reads_whole(table),
        data.len() == m.shape_of(table).columns.len(),
        m.store(table).replace_refusal(txn, id, Some(data.len()), m.journal) is None,
        forall|x: u64, a: (u64, u64), b: (u64, u64)|
            #![trigger m.is_unique_on(x, table), m.store(table).counts(m.journal, txn, a),
                m.store(table).counts(m.journal, txn, b)]
            m.is_unique_on(x, table) && a.0 != b.0 && m.store(table).counts(m.journal, txn, a)
                && m.store(table).counts(m.journal, txn, b) ==> !same_key_in(
                data_of(m.store(table).contents[a]),
                data_of(m.store(table).contents[b]),
                m.indexes[x].shape.columns,
                m.shape_of(table),
            ),
        forall|x: u64| #[trigger]
            m.is_unique_on(x, table) ==> same_key_in(
                data,
                data_of(m.store(table).version(id)),
                m.indexes[x].shape.columns,
                m.shape_of(table),
            ),
        m.unique_error(table, txn, data, Some(id), e),
    ensures
        !(e is DuplicateKey),
{
    if e is DuplicateKey {
        law_refused_key_is_taken(m, table, txn, data, Some(id), e);
        let x = e->DuplicateKey_index.0 as u64;
        let t = m.store(table);
        let k = choose|k: (u64, u64)|
            {
                &&& #[trigger] t.counts(m.journal, txn, k)
                &&& Some(id) != Some(RowId(k.0))
                &&& m.is_unique_on(x, table)
                &&& same_key_in(
                    data_of(t.contents[k]),
                    data,
                    m.indexes[x].shape.columns,
                    m.shape_of(table),
                )
            };
        let own = (id.0, t.current[id.0]);
        assert(t.counts(m.journal, txn, own)) by {
            assert(t.writable(txn, id, m.journal.st()));
            assert(m.tables[table.0 as u64].store.wf());
            assert(t.wf());
        }
        lemma_same_key_joins(
            data_of(t.contents[k]),
            data,
            data_of(t.version(id)),
            m.indexes[x].shape.columns,
            m.shape_of(table),
        );
        assert(k.0 != own.0);
        assert(false);
    }
}

/// The journal of a write rolls no transaction back.
pub proof fn lemma_write_rolls_nothing_back(
    j: JournalModel,
    txn: TxnId,
    table: TableId,
    kind: WalRecordKind,
    payload: Seq<u8>,
    x: TxnId,
)
    requires
        !j.finished(txn),
    ensures
        rolled_back(j.noted(txn, table), x) == rolled_back(j, x),
        rolled_back(j.begun(txn, table), x) == rolled_back(j, x),
        rolled_back(j.begun(txn, table).logged(kind, txn, payload), x) == rolled_back(j, x),
{
}

/// The columns of a version whose record the journal takes read back.
pub proof fn lemma_fresh_reads_back(t: HeapTableModel, j: JournalModel, txn: TxnId, row: RowId, data: Seq<ValueModel>)
    requires
        !j.refuses(t.fresh_change(txn, row, data).encoded().len()),
    ensures
        data_of(t.fresh(txn, row, data)) == data,
        super::table_model::legible(t.fresh(txn, row, data)),
{
    lemma_byte_ranges();
    law_short_row_reads_back(data);
}

/// The keys of other tables differ as they did.
proof fn lemma_keys_elsewhere(m: DiskModel, n: DiskModel, table: TableId)
    requires
        m.wf(),
        m.has_table(table),
        m.same_but(n, table),
        m.unique_keys_differ(),
        forall|x: TxnId| #[trigger] rolled_back(n.journal, x) == rolled_back(m.journal, x),
        forall|x: u64| #[trigger]
            m.is_unique_on(x, table) ==> n.store(table).keys_differ(
                n.journal,
                m.indexes[x].shape,
                m.shape_of(table),
            ),
    ensures
        n.unique_keys_differ(),
{
    assert forall|x: u64| #[trigger]
        n.indexes.contains_key(x) && n.indexes[x].shape.unique implies n.store(
        n.indexes[x].table,
    ).keys_differ(n.journal, n.indexes[x].shape, n.shape_of(n.indexes[x].table)) by {
        let e = m.indexes[x];
        assert(m.indexes.contains_key(x));
        assert(m.has_table(e.table));
        if e.table == table {
            assert(m.is_unique_on(x, table));
        } else {
            let t = m.store(e.table);
            assert(n.store(e.table) == t);
            assert forall|a: (u64, u64), b: (u64, u64)|
                #![trigger t.stands(n.journal, a), t.stands(n.journal, b)]
                a.0 != b.0 && t.stands(n.journal, a) && t.stands(n.journal, b) implies !same_key_in(
                data_of(t.contents[a]),
                data_of(t.contents[b]),
                e.shape.columns,
                m.shape_of(e.table),
            ) by {
                assert(t.stands(m.journal, a) && t.stands(m.journal, b));
            }
        }
    }
}

/// A table with one more version, of a key no other row holds, keeps its keys different.
proof fn lemma_fresh_differs(
    t: HeapTableModel,
    u: HeapTableModel,
    j: JournalModel,
    k: JournalModel,
    fresh: (u64, u64),
    def: IndexShapeModel,
    shape: TableShapeModel,
)
    requires
        t.keys_differ(j, def, shape),
        forall|x: TxnId| #[trigger] rolled_back(k, x) == rolled_back(j, x),
        forall|a: (u64, u64)| #[trigger]
            u.stands(k, a) && a != fresh ==> t.stands(j, a) && u.contents[a] == t.contents[a],
        forall|a: (u64, u64)| #[trigger]
            t.stands(j, a) && a.0 != fresh.0 ==> !same_key_in(
                data_of(t.contents[a]),
                data_of(u.contents[fresh]),
                def.columns,
                shape,
            ),
    ensures
        u.keys_differ(k, def, shape),
{
    assert forall|a: (u64, u64), b: (u64, u64)|
        #![trigger u.stands(k, a), u.stands(k, b)]
        a.0 != b.0 && u.stands(k, a) && u.stands(k, b) implies !same_key_in(
        data_of(u.contents[a]),
        data_of(u.contents[b]),
        def.columns,
        shape,
    ) by {
        if a == fresh && same_key_in(
            data_of(u.contents[a]),
            data_of(u.contents[b]),
            def.columns,
            shape,
        ) {
            assert(t.stands(j, b));
            lemma_same_key_flips(data_of(u.contents[a]), data_of(u.contents[b]), def.columns, shape);
        } else if b == fresh {
            assert(t.stands(j, a));
        } else if a != fresh {
            assert(t.stands(j, a) && t.stands(j, b));
        }
    }
}

/// An insert keeps the keys of the `unique` indexes different from row to row, whichever transaction
/// inserts, and whether those of the other rows are over or not.
pub proof fn law_insert_keeps_keys_different(
    m: DiskModel,
    n: DiskModel,
    txn: TxnId,
    table: TableId,
    data: Seq<ValueModel>,
    r: SqlResult<RowId>,
)
    requires
        m.wf(),
        m.has_table(table),
        m.reads_whole(table),
        m.unique_keys_differ(),
        m.store(table).insert_refusal(txn, data.len(), m.journal) is None,
        m.unique_ok(table, txn, data, None),
        m.same_but(n, table),
        is_row_outcome(
            m.store(table).insert_outcome(m.journal, txn, data).drained(),
            n.store(table),
            n.journal,
            r,
        ),
    ensures
        n.unique_keys_differ(),
        n.reads_whole(table),
{
    let t = m.store(table);
    let u = n.store(table);
    let j = m.journal;
    let row = RowId(t.next_row_id);
    let fresh = (row.0, t.next_seq);
    let o = t.insert_outcome(j, txn, data);
    let change = t.fresh_change(txn, row, data);
    assert(m.tables[table.0 as u64].store.wf());
    assert(t.wf());
    assert(t.arity == m.shape_of(table).columns.len());
    assert forall|x: TxnId| #[trigger] rolled_back(n.journal, x) == rolled_back(j, x) by {
        lemma_write_rolls_nothing_back(j, txn, t.table, WalRecordKind::Insert, change.encoded(), x);
    }
    if o.error is None {
        lemma_fresh_reads_back(t, j.begun(txn, t.table), txn, row, data);
        assert(u.contents == t.contents.insert(fresh, t.fresh(txn, row, data)));
        assert forall|x: u64| #[trigger] m.is_unique_on(x, table) implies u.keys_differ(
            n.journal,
            m.indexes[x].shape,
            m.shape_of(table),
        ) by {
            assert(m.indexes.contains_key(x));
            assert forall|a: (u64, u64)| #[trigger]
                t.stands(j, a) && a.0 != fresh.0 implies !same_key_in(
                data_of(t.contents[a]),
                data_of(u.contents[fresh]),
                m.indexes[x].shape.columns,
                m.shape_of(table),
            ) by {
                law_accepted_key_is_free(m, table, txn, data, None, x, a);
            }
            assert forall|a: (u64, u64)| #[trigger] u.stands(n.journal, a) && a != fresh implies
                t.stands(j, a) && u.contents[a] == t.contents[a] by {}
            lemma_fresh_differs(t, u, j, n.journal, fresh, m.indexes[x].shape, m.shape_of(table));
        }
    } else {
        assert(u.contents == t.contents);
        assert forall|x: u64| #[trigger] m.is_unique_on(x, table) implies u.keys_differ(
            n.journal,
            m.indexes[x].shape,
            m.shape_of(table),
        ) by {
            assert(m.indexes.contains_key(x));
            lemma_same_rows_differ(t, u, j, n.journal, m.indexes[x].shape, m.shape_of(table));
        }
    }
    lemma_keys_elsewhere(m, n, table);
}

/// A table with the same versions keeps its keys different.
proof fn lemma_same_rows_differ(
    t: HeapTableModel,
    u: HeapTableModel,
    j: JournalModel,
    k: JournalModel,
    def: IndexShapeModel,
    shape: TableShapeModel,
)
    requires
        t.keys_differ(j, def, shape),
        forall|x: TxnId| rolled_back(j, x) ==> #[trigger] rolled_back(k, x),
        forall|a: (u64, u64)| #[trigger]
            u.contents.contains_key(a) && u.contents[a].header.xmax is None
                ==> t.contents.contains_key(a) && u.contents[a] == t.contents[a],
    ensures
        u.keys_differ(k, def, shape),
{
    assert forall|a: (u64, u64)| #[trigger] u.stands(k, a) implies t.stands(j, a) && u.contents[a]
        == t.contents[a] by {
        assert(u.contents.contains_key(a));
    }
}

/// An update keeps the keys of the `unique` indexes different from row to row, whichever transaction
/// updates.
pub proof fn law_update_keeps_keys_different(
    m: DiskModel,
    n: DiskModel,
    txn: TxnId,
    table: TableId,
    id: RowId,
    data: Seq<ValueModel>,
    r: SqlResult<()>,
)
    requires
        m.wf(),
        m.has_table(table),
        m.reads_whole(table),
        m.unique_keys_differ(),
        m.store(table).replace_refusal(txn, id, Some(data.len()), m.journal) is None,
        m.unique_ok(table, txn, data, Some(id)),
        m.same_but(n, table),
        is_row_outcome(
            m.store(table).update_outcome(m.journal, txn, id, data).drained(),
            n.store(table),
            n.journal,
            r,
        ),
    ensures
        n.unique_keys_differ(),
        n.reads_whole(table),
{
    let t = m.store(table);
    let u = n.store(table);
    let j = m.journal;
    let fresh = (id.0, t.next_seq);
    let old = (id.0, t.current[id.0]);
    let o = t.update_outcome(j, txn, id, data);
    let change = t.fresh_change(txn, id, data);
    assert(m.tables[table.0 as u64].store.wf());
    assert(t.wf());
    assert(t.arity == m.shape_of(table).columns.len());
    assert forall|x: TxnId| #[trigger] rolled_back(n.journal, x) == rolled_back(j, x) by {
        lemma_write_rolls_nothing_back(j, txn, t.table, WalRecordKind::Update, change.encoded(), x);
    }
    if o.error is None {
        lemma_fresh_reads_back(t, j.begun(txn, t.table), txn, id, data);
        assert(u.contents == t.contents.insert(old, t.version(id).with_xmax(Some(txn))).insert(
            fresh,
            t.fresh(txn, id, data),
        ));
        assert(t.contents.contains_key(old));
        assert forall|x: u64| #[trigger] m.is_unique_on(x, table) implies u.keys_differ(
            n.journal,
            m.indexes[x].shape,
            m.shape_of(table),
        ) by {
            assert(m.indexes.contains_key(x));
            assert forall|a: (u64, u64)| #[trigger]
                t.stands(j, a) && a.0 != fresh.0 implies !same_key_in(
                data_of(t.contents[a]),
                data_of(u.contents[fresh]),
                m.indexes[x].shape.columns,
                m.shape_of(table),
            ) by {
                law_accepted_key_is_free(m, table, txn, data, Some(id), x, a);
            }
            assert forall|a: (u64, u64)| #[trigger] u.stands(n.journal, a) && a != fresh implies
                t.stands(j, a) && u.contents[a] == t.contents[a] by {}
            lemma_fresh_differs(t, u, j, n.journal, fresh, m.indexes[x].shape, m.shape_of(table));
        }
    } else {
        assert(u.contents == t.contents);
        assert forall|x: u64| #[trigger] m.is_unique_on(x, table) implies u.keys_differ(
            n.journal,
            m.indexes[x].shape,
            m.shape_of(table),
        ) by {
            assert(m.indexes.contains_key(x));
            lemma_same_rows_differ(t, u, j, n.journal, m.indexes[x].shape, m.shape_of(table));
        }
    }
    lemma_keys_elsewhere(m, n, table);
}

/// A delete keeps the keys of the `unique` indexes different from row to row.
pub proof fn law_delete_keeps_keys_different(
    m: DiskModel,
    n: DiskModel,
    txn: TxnId,
    table: TableId,
    id: RowId,
    r: SqlResult<()>,
)
    requires
        m.wf(),
        m.has_table(table),
        m.unique_keys_differ(),
        m.same_but(n, table),
        is_row_outcome(
            m.store(table).delete_outcome(m.journal, txn, id).drained(),
            n.store(table),
            n.journal,
            r,
        ),
    ensures
        n.unique_keys_differ(),
{
    let t = m.store(table);
    let u = n.store(table);
    let j = m.journal;
    assert(m.tables[table.0 as u64].store.wf());
    assert forall|x: TxnId| #[trigger] rolled_back(n.journal, x) == rolled_back(j, x) by {
        if !j.finished(txn) {
            lemma_write_rolls_nothing_back(
                j,
                txn,
                t.table,
                WalRecordKind::Delete,
                t.hidden_change(txn, id).encoded(),
                x,
            );
        }
    }
    assert forall|x: u64| #[trigger] m.is_unique_on(x, table) implies u.keys_differ(
        n.journal,
        m.indexes[x].shape,
        m.shape_of(table),
    ) by {
        assert(m.indexes.contains_key(x));
        lemma_same_rows_differ(t, u, j, n.journal, m.indexes[x].shape, m.shape_of(table));
    }
    lemma_keys_elsewhere(m, n, table);
}

/// A row is taken by every `unique` index where its key can be compared with those of all versions and no
/// version of another row that counts holds it.
pub proof fn law_free_key_is_accepted(
    m: DiskModel,
    table: TableId,
    txn: TxnId,
    data: Seq<ValueModel>,
    skip: Option<RowId>,
)
    requires
        m.wf(),
        m.has_table(table),
        m.reads_whole(table),
        data.len() == m.shape_of(table).columns.len(),
        forall|k: (u64, u64), c: int|
            #![trigger m.store(table).contents.contains_key(k), data[c]]
            m.store(table).contents.contains_key(k) && 0 <= c < data.len() ==> data_of(
                m.store(table).contents[k],
            )[c].comparable(data[c]),
        forall|x: u64, k: (u64, u64)|
            #![trigger m.is_unique_on(x, table), m.store(table).counts(m.journal, txn, k)]
            m.is_unique_on(x, table) && m.store(table).counts(m.journal, txn, k) && skip != Some(
                RowId(k.0),
            ) ==> !same_key_in(
                data_of(m.store(table).contents[k]),
                data,
                m.indexes[x].shape.columns,
                m.shape_of(table),
            ),
    ensures
        m.unique_ok(table, txn, data, skip),
{
    let t = m.store(table);
    let shape = m.shape_of(table);
    let st = m.journal.st();
    assert forall|x: u64| #[trigger] m.is_unique_on(x, table) implies !m.index_refuses(
        x,
        txn,
        data,
        skip,
    ) by {
        let def = m.indexes[x].shape;
        let key = key_values(data, def.columns);
        assert(m.indexes.contains_key(x));
        assert(!unreadable(t));
        assert forall|k: (u64, u64)| #[trigger] t.contents.contains_key(k) implies key_matches(
            t,
            def,
            shape,
            key,
            k,
        ) is Some by {
            lemma_comparable_from(data_of(t.contents[k]), data, def.columns, shape, 0);
        }
        if duplicated(t, def, shape, key, txn, st, skip) {
            let k = choose|k: (u64, u64)| #[trigger]
                t.contents.contains_key(k) && key_matches(t, def, shape, key, k) == Some(true)
                    && Some(RowId(k.0)) != skip && lives(
                    t.contents[k].header.xmin,
                    t.contents[k].header.xmax,
                    Some(txn),
                    st,
                );
            lemma_same_from(data_of(t.contents[k]), data, def.columns, shape, 0);
            assert(t.counts(m.journal, txn, k));
        }
    }
}

/// Keys whose columns can all be compared can be compared.
proof fn lemma_comparable_from(
    a: Seq<ValueModel>,
    b: Seq<ValueModel>,
    columns: Seq<KeyColumn>,
    shape: TableShapeModel,
    i: int,
)
    requires
        0 <= i <= columns.len(),
        forall|j: int| 0 <= j < columns.len() ==> (#[trigger] columns[j]).column < a.len(),
        a.len() == b.len(),
        forall|c: int| 0 <= c < b.len() ==> a[c].comparable(#[trigger] b[c]),
    ensures
        same_from(key_values(a, columns), key_values(b, columns), columns, shape, i) is Some,
    decreases columns.len() - i,
{
    if i < columns.len() {
        let c = columns[i].column;
        assert(a[c as int].comparable(b[c as int]));
        lemma_comparable_from(a, b, columns, shape, i + 1);
    }
}

/// A row is refused as one that cannot be compared only where a version of the table holds a value that
/// cannot be compared with its own.
pub proof fn law_incomparable_row_is_refused_for_a_reason(
    m: DiskModel,
    table: TableId,
    txn: TxnId,
    data: Seq<ValueModel>,
    skip: Option<RowId>,
)
    requires
        m.wf(),
        m.has_table(table),
        m.reads_whole(table),
        data.len() == m.shape_of(table).columns.len(),
        m.unique_error(table, txn, data, skip, SqlError::IncomparableValues),
    ensures
        exists|k: (u64, u64), c: int|
            #![trigger m.store(table).contents.contains_key(k), data[c]]
            m.store(table).contents.contains_key(k) && 0 <= c < data.len() && !data_of(
                m.store(table).contents[k],
            )[c].comparable(data[c]),
{
    let t = m.store(table);
    let shape = m.shape_of(table);
    let x = choose|x: u64|
        {
            &&& #[trigger] m.is_unique_on(x, table)
            &&& m.index_refuses(x, txn, data, skip)
            &&& forall|y: u64|
                y < x && #[trigger] m.is_unique_on(y, table) ==> !m.index_refuses(
                    y,
                    txn,
                    data,
                    skip,
                )
            &&& m.key_error(x, table, data, SqlError::IncomparableValues)
        };
    let def = m.indexes[x].shape;
    let key = key_values(data, def.columns);
    let k = choose|k: (u64, u64)| #[trigger]
        t.contents.contains_key(k) && key_matches(t, def, shape, key, k) is None;
    let held = data_of(t.contents[k]);
    if forall|c: int| 0 <= c < data.len() ==> held[c].comparable(#[trigger] data[c]) {
        lemma_comparable_from(held, data, def.columns, shape, 0);
    }
    let c = choose|c: int| 0 <= c < data.len() && !held[c].comparable(#[trigger] data[c]);
    assert(!held[c].comparable(data[c]));
}

} // verus!
