//! The rows of an instance: reads, writes, and the uniqueness of the indexes.
//!
//! The preconditions of a write are reported before the uniqueness of an index, and a refused
//! write leaves no version.

use vstd::prelude::*;

use super::encode::parse_row;
use super::heap_reads::{shows_none, shows_row, versions_fault, VersionView};
use super::heap_table::{belongs, lemma_parts, HeapTable};
use super::journal::{Journal, JournalModel};
use super::shapes::{index_shape_ok, key_of, key_values, same_from, same_key};
use super::storage::{DiskModel, DiskStorage, DiskTable, DiskTableModel};
use super::table_model::{data_of, illegible, legible, HeapTableModel, IndexChange, WriteOutcome};
use crate::error::{bug, Bug, IdSpace, SqlError, SqlResult};
use crate::ids::{RowId, TableId, TxnId};
use crate::ordmap::increasing;
use crate::row::Row;
use crate::shape::{IndexShape, IndexShapeModel, TableShapeModel};
use crate::snapshot::{status_of, Snapshot, TxnStatus};
use crate::value::{Value, ValueModel};

verus! {

/// Whether a version is live for the uniqueness test of the writing transaction `txn`: its
/// creator has not aborted and it is current, or replaced or deleted by another transaction still
/// in progress. With `txn = None` every in-progress deleter counts.
pub open spec fn lives(
    xmin: TxnId,
    xmax: Option<TxnId>,
    txn: Option<TxnId>,
    st: Map<u64, TxnStatus>,
) -> bool {
    &&& status_of(st, xmin) != TxnStatus::Aborted
    &&& match xmax {
        None => true,
        Some(x) => Some(x) != txn && status_of(st, x) == TxnStatus::InProgress,
    }
}

/// How the key of the version `k` compares with `key`: the same, another one, or `None` when two
/// values cannot be compared.
pub open spec fn key_matches(
    t: HeapTableModel,
    def: IndexShapeModel,
    shape: TableShapeModel,
    key: Seq<ValueModel>,
    k: (u64, u64),
) -> Option<bool> {
    same_from(key_values(data_of(t.contents[k]), def.columns), key, def.columns, shape, 0)
}

/// Whether a version of the table does not read back.
pub open spec fn unreadable(t: HeapTableModel) -> bool {
    exists|k: (u64, u64)| #[trigger] t.contents.contains_key(k) && !legible(t.contents[k])
}

/// Whether a version of the table has a key that cannot be compared with `key`.
pub open spec fn incomparable(
    t: HeapTableModel,
    def: IndexShapeModel,
    shape: TableShapeModel,
    key: Seq<ValueModel>,
) -> bool {
    exists|k: (u64, u64)| #[trigger]
        t.contents.contains_key(k) && key_matches(t, def, shape, key, k) is None
}

/// Whether a live version of a row other than `skip` holds `key`.
pub open spec fn duplicated(
    t: HeapTableModel,
    def: IndexShapeModel,
    shape: TableShapeModel,
    key: Seq<ValueModel>,
    txn: TxnId,
    st: Map<u64, TxnStatus>,
    skip: Option<RowId>,
) -> bool {
    exists|k: (u64, u64)| #[trigger]
        t.contents.contains_key(k) && key_matches(t, def, shape, key, k) == Some(true)
            && Some(RowId(k.0)) != skip && lives(
            t.contents[k].header.xmin,
            t.contents[k].header.xmax,
            Some(txn),
            st,
        )
}

/// Whether a live version of a row other than `skip` holds the key of `row`.
///
/// # Errors
///
/// A corruption for a version whose columns are no row; two values that cannot be compared.
fn has_duplicate(
    store: &HeapTable,
    journal: &Journal,
    def: &IndexShape,
    key: &Vec<Value>,
    txn: TxnId,
    skip: Option<RowId>,
) -> (r: SqlResult<bool>)
    requires
        store.wf(),
    ensures
        match r {
            Ok(found) => {
                &&& !unreadable(store@)
                &&& !incomparable(store@, def@, store.shape@, key.deep_view())
                &&& found == duplicated(
                    store@,
                    def@,
                    store.shape@,
                    key.deep_view(),
                    txn,
                    journal@.st(),
                    skip,
                )
            },
            Err(e) => if unreadable(store@) {
                e matches SqlError::Internal(f) && versions_fault(store@, None, f)
            } else {
                incomparable(store@, def@, store.shape@, key.deep_view()) && e
                    == SqlError::IncomparableValues
            },
        },
{
    let views: Vec<VersionView> = match store.versions(None) {
        Ok(views) => views,
        Err(e) => {
            return Err(SqlError::Internal(e));
        },
    };
    let ghost t = store@;
    let ghost st = journal@.st();
    proof {
        assert forall|k: (u64, u64)| #[trigger] t.contents.contains_key(k) implies legible(
            t.contents[k],
        ) by {
            assert(belongs(RowId(k.0), None));
            let i = choose|i: int|
                0 <= i < views@.len() && (#[trigger] views@[i]).row.0 == k.0 && views@[i].seq
                    == k.1;
            assert(views@[i].shows(t));
        }
    }
    let mut found: bool = false;
    for i in 0..views.len()
        invariant
            t == store@,
            st == journal@.st(),
            !unreadable(t),
            forall|k: int| 0 <= k < views@.len() ==> (#[trigger] views@[k]).shows(t),
            forall|k: int|
                0 <= k < i ==> key_matches(
                    t,
                    def@,
                    store.shape@,
                    key.deep_view(),
                    ((#[trigger] views@[k]).row.0, views@[k].seq),
                ) is Some,
            found ==> duplicated(t, def@, store.shape@, key.deep_view(), txn, st, skip),
            !found ==> forall|k: int|
                0 <= k < i ==> !(key_matches(
                    t,
                    def@,
                    store.shape@,
                    key.deep_view(),
                    ((#[trigger] views@[k]).row.0, views@[k].seq),
                ) == Some(true) && Some(views@[k].row) != skip && lives(
                    views@[k].xmin,
                    views@[k].xmax,
                    Some(txn),
                    st,
                )),
    {
        let view: &VersionView = &views[i];
        let held: Vec<Value> = key_of(&view.data, &def.columns);
        let ghost k = (view.row.0, view.seq);
        assert(view.shows(t));
        match same_key(&held, key, &def.columns, &store.shape) {
            Ok(same) => {
                let other: bool = match skip {
                    Some(row) => view.row != row,
                    None => true,
                };
                let live: bool = journal.txn_status(view.xmin) != TxnStatus::Aborted
                    && match view.xmax {
                    None => true,
                    Some(x) => x != txn && journal.txn_status(x) == TxnStatus::InProgress,
                };
                if same && other && live {
                    found = true;
                    assert(t.contents.contains_key(k));
                }
            },
            Err(e) => {
                assert(t.contents.contains_key(k));
                return Err(e);
            },
        }
    }
    proof {
        assert forall|k: (u64, u64)| #[trigger] t.contents.contains_key(k) implies exists|i: int|
            0 <= i < views@.len() && (#[trigger] views@[i]).row.0 == k.0 && views@[i].seq == k.1 by {
            assert(belongs(RowId(k.0), None));
        }
        if !found {
            assert forall|k: (u64, u64)| #[trigger] t.contents.contains_key(k) implies !(
            key_matches(t, def@, store.shape@, key.deep_view(), k) == Some(true) && Some(RowId(k.0))
                != skip && lives(
                t.contents[k].header.xmin,
                t.contents[k].header.xmax,
                Some(txn),
                st,
            )) by {
                let i = choose|i: int|
                    0 <= i < views@.len() && (#[trigger] views@[i]).row.0 == k.0 && views@[i].seq
                        == k.1;
                assert(views@[i].shows(t));
            }
        }
        assert forall|k: (u64, u64)| #[trigger] t.contents.contains_key(k) implies key_matches(
            t,
            def@,
            store.shape@,
            key.deep_view(),
            k,
        ) is Some by {
            let i = choose|i: int|
                0 <= i < views@.len() && (#[trigger] views@[i]).row.0 == k.0 && views@[i].seq
                    == k.1;
            assert(views@[i].shows(t));
        }
    }
    Ok(found)
}

impl DiskModel {
    /// Whether `x` is a `unique` index of `table`.
    pub open spec fn is_unique_on(self, x: u64, table: TableId) -> bool {
        self.indexes.contains_key(x) && self.indexes[x].table == table
            && self.indexes[x].shape.unique
    }

    /// Whether the index `x` refuses a row holding `data` written by `txn` in place of `skip`.
    pub open spec fn index_refuses(
        self,
        x: u64,
        txn: TxnId,
        data: Seq<ValueModel>,
        skip: Option<RowId>,
    ) -> bool {
        let e = self.indexes[x];
        let key = key_values(data, e.shape.columns);
        let t = self.store(e.table);
        let shape = self.shape_of(e.table);
        unreadable(t) || incomparable(t, e.shape, shape, key) || duplicated(
            t,
            e.shape,
            shape,
            key,
            txn,
            self.journal.st(),
            skip,
        )
    }

    /// Whether every `unique` index of `table` takes the row.
    pub open spec fn unique_ok(
        self,
        table: TableId,
        txn: TxnId,
        data: Seq<ValueModel>,
        skip: Option<RowId>,
    ) -> bool {
        forall|x: u64| #[trigger]
            self.is_unique_on(x, table) ==> !self.index_refuses(x, txn, data, skip)
    }

    /// The error of a row a `unique` index of `table` refuses: that of the first such index.
    pub open spec fn unique_error(
        self,
        table: TableId,
        txn: TxnId,
        data: Seq<ValueModel>,
        skip: Option<RowId>,
        e: SqlError,
    ) -> bool {
        exists|x: u64|
            {
                &&& #[trigger] self.is_unique_on(x, table)
                &&& self.index_refuses(x, txn, data, skip)
                &&& forall|y: u64|
                    y < x && #[trigger] self.is_unique_on(y, table) ==> !self.index_refuses(
                        y,
                        txn,
                        data,
                        skip,
                    )
                &&& self.key_error(x, table, data, e)
            }
    }

    /// The error of a key the index `x` refuses.
    pub open spec fn key_error(
        self,
        x: u64,
        table: TableId,
        data: Seq<ValueModel>,
        e: SqlError,
    ) -> bool {
        let def = self.indexes[x].shape;
        let key = key_values(data, def.columns);
        if unreadable(self.store(table)) {
            e matches SqlError::Internal(f) && versions_fault(self.store(table), None, f)
        } else if incomparable(self.store(table), def, self.shape_of(table), key) {
            e == SqlError::IncomparableValues
        } else {
            &&& e matches SqlError::DuplicateKey { table: t, index, key: held }
            &&& t == table
            &&& index.0 as u64 == x
            &&& held.deep_view() == key
        }
    }

    /// Whether `after` is this instance but for the rows of `table` and the journal.
    pub open spec fn same_but(self, after: DiskModel, table: TableId) -> bool {
        let t = table.0 as u64;
        &&& after.control == self.control
        &&& after.first_row == self.first_row
        &&& after.first_seq == self.first_seq
        &&& after.databases == self.databases
        &&& after.indexes == self.indexes
        &&& after.tables.dom() == self.tables.dom()
        &&& forall|k: u64| k != t && #[trigger] self.tables.contains_key(k) ==> after.tables[k]
            == self.tables[k]
        &&& after.tables[t].db == self.tables[t].db
        &&& after.tables[t].first_page == self.tables[t].first_page
        &&& after.tables[t].store.shape == self.tables[t].store.shape
        &&& after.tables[t].store.table == self.tables[t].store.table
    }
}

impl DiskStorage {
    /// Refuses `row` when a `unique` index of `table` already holds its key on another live row.
    ///
    /// # Errors
    ///
    /// A duplicate naming the index and the key; a corruption for a version whose columns are no
    /// row; two values that cannot be compared.
    fn check_unique(&self, table: TableId, txn: TxnId, row: &Row, replacing: Option<RowId>) -> (r:
        SqlResult<()>)
        requires
            self.wf(),
            self@.has_table(table),
        ensures
            match r {
                Ok(_) => self@.unique_ok(table, txn, row@, replacing),
                Err(e) => self@.unique_error(table, txn, row@, replacing, e),
            },
    {
        let keys: Vec<u64> = self.indexes.keys();
        let ghost m = self@;
        for i in 0..keys.len()
            invariant
                m == self@,
                self.wf(),
                m.has_table(table),
                increasing(keys@),
                forall|x: u64| #[trigger] keys@.contains(x) <==> m.indexes.contains_key(x),
                forall|k: int|
                    0 <= k < i && #[trigger] m.is_unique_on(keys@[k], table) ==> !m.index_refuses(
                        keys@[k],
                        txn,
                        row@,
                        replacing,
                    ),
        {
            let x: u64 = keys[i];
            assert(keys@.contains(x));
            assert(m.indexes.contains_key(x));
            match (self.indexes.get(x), self.tables.get(table.0 as u64)) {
                (Some(entry), Some(held)) => {
                    if entry.table == table && entry.shape.unique {
                        proof {
                            lemma_parts(held.store);
                        }
                        let key: Vec<Value> = key_of(row, &entry.shape.columns);
                        match has_duplicate(
                            &held.store,
                            &self.journal,
                            &entry.shape,
                            &key,
                            txn,
                            replacing,
                        ) {
                            Ok(true) => {
                                proof {
                                    assert(m.is_unique_on(x, table));
                                    lemma_first_refusing(m, keys@, i as int, table, txn, row@, replacing);
                                }
                                return Err(
                                    SqlError::DuplicateKey { table, index: entry.index, key },
                                );
                            },
                            Ok(false) => {},
                            Err(e) => {
                                proof {
                                    assert(m.is_unique_on(x, table));
                                    lemma_first_refusing(m, keys@, i as int, table, txn, row@, replacing);
                                }
                                return Err(e);
                            },
                        }
                    }
                },
                _ => {
                    assert(false);
                },
            }
        }
        proof {
            assert forall|x: u64| #[trigger] m.is_unique_on(x, table) implies !m.index_refuses(
                x,
                txn,
                row@,
                replacing,
            ) by {
                assert(keys@.contains(x));
                let k = choose|k: int| 0 <= k < keys@.len() && keys@[k] == x;
                assert(m.is_unique_on(keys@[k], table));
            }
        }
        Ok(())
    }

    /// Adds a row to `table` on behalf of `txn` and answers its fresh identifier.
    ///
    /// # Errors
    ///
    /// A bug for an unknown table; those of [`HeapTable::insert`]; the refusal of a `unique`
    /// index, after the preconditions of the write.
    pub fn insert(&mut self, txn: TxnId, table: TableId, row: &Row) -> (r: SqlResult<RowId>)
        requires
            old(self).wf(),
        ensures
            final(self).wf(),
            final(self).options == old(self).options,
            final(self).recovery == old(self).recovery,
            ({
                let m = old(self)@;
                let n = final(self)@;
                let t = m.store(table);
                if !m.has_table(table) {
                    n == m && (r matches Err(e) && e.is_bug(Bug::NotInInstance(IdSpace::Table, table.0)))
                } else if t.insert_refusal(txn, row@.len(), m.journal) is Some {
                    &&& n == m
                    &&& r == Err::<RowId, SqlError>(
                        SqlError::Internal(t.insert_refusal(txn, row@.len(), m.journal)->0),
                    )
                } else if !m.unique_ok(table, txn, row@, None) {
                    n == m && (r matches Err(e) && m.unique_error(table, txn, row@, None, e))
                } else {
                    &&& m.same_but(n, table)
                    &&& is_row_outcome(
                        t.insert_outcome(m.journal, txn, row@).drained(),
                        n.store(table),
                        n.journal,
                        r,
                    )
                    &&& r matches Ok(id) ==> id.0 == t.next_row_id
                }
            }),
    {
        let ghost m = self@;
        match self.tables.get(table.0 as u64) {
            None => {
                return bug(Bug::NotInInstance(IdSpace::Table, table.0));
            },
            Some(held) => {
                proof {
                    lemma_parts(held.store);
                }
                match held.store.check_insert(&self.journal, txn, row) {
                    Ok(_) => {},
                    Err(e) => {
                        return Err(SqlError::Internal(e));
                    },
                }
            },
        }
        match self.check_unique(table, txn, row, None) {
            Ok(_) => {},
            Err(e) => {
                proof {
                    lemma_refused(m, table, txn, row@, None, e);
                }
                return Err(e);
            },
        }
        let mut held: DiskTable = match self.tables.remove(table.0 as u64) {
            Some(held) => held,
            None => {
                assert(false);
                return bug(Bug::NotInInstance(IdSpace::Table, table.0));
            },
        };
        proof {
            lemma_parts(held.store);
        }
        let r = held.store.insert(&mut self.journal, txn, row);
        // An index reads the versions themselves: no entry is to be maintained.
        let _changes: Vec<IndexChange> = held.store.take_index_changes();
        proof {
            lemma_parts(held.store);
        }
        let ghost parts = held.deep_view();
        self.tables.insert(table.0 as u64, held);
        proof {
            assert(self@.tables =~= m.tables.insert(table.0 as u64, parts));
            lemma_put_back(m, self@, table, parts);
        }
        match r {
            Ok(id) => Ok(id),
            Err(e) => Err(SqlError::Internal(e)),
        }
    }
}

impl DiskStorage {
    /// Replaces the content of `id` in `table` by `row` on behalf of `txn`.
    ///
    /// # Errors
    ///
    /// A bug for an unknown table; those of [`HeapTable::update`]; the refusal of a `unique`
    /// index, after the preconditions of the write.
    pub fn update(&mut self, txn: TxnId, table: TableId, id: RowId, row: &Row) -> (r: SqlResult<()>)
        requires
            old(self).wf(),
        ensures
            final(self).wf(),
            final(self).options == old(self).options,
            final(self).recovery == old(self).recovery,
            ({
                let m = old(self)@;
                let n = final(self)@;
                let t = m.store(table);
                let refusal = t.replace_refusal(txn, id, Some(row@.len()), m.journal);
                if !m.has_table(table) {
                    n == m && (r matches Err(e) && e.is_bug(Bug::NotInInstance(IdSpace::Table, table.0)))
                } else if refusal is Some {
                    n == m && r == Err::<(), SqlError>(SqlError::Internal(refusal->0))
                } else if !m.unique_ok(table, txn, row@, Some(id)) {
                    n == m && (r matches Err(e) && m.unique_error(table, txn, row@, Some(id), e))
                } else {
                    &&& m.same_but(n, table)
                    &&& is_row_outcome(
                        t.update_outcome(m.journal, txn, id, row@).drained(),
                        n.store(table),
                        n.journal,
                        r,
                    )
                }
            }),
    {
        let ghost m = self@;
        match self.tables.get(table.0 as u64) {
            None => {
                return bug(Bug::NotInInstance(IdSpace::Table, table.0));
            },
            Some(held) => {
                proof {
                    lemma_parts(held.store);
                }
                match held.store.check_update(&self.journal, txn, id, row) {
                    Ok(_) => {},
                    Err(e) => {
                        return Err(SqlError::Internal(e));
                    },
                }
            },
        }
        match self.check_unique(table, txn, row, Some(id)) {
            Ok(_) => {},
            Err(e) => {
                proof {
                    lemma_refused(m, table, txn, row@, Some(id), e);
                }
                return Err(e);
            },
        }
        let mut held: DiskTable = match self.tables.remove(table.0 as u64) {
            Some(held) => held,
            None => {
                assert(false);
                return bug(Bug::NotInInstance(IdSpace::Table, table.0));
            },
        };
        proof {
            lemma_parts(held.store);
        }
        let r = held.store.update(&mut self.journal, txn, id, row);
        // An index reads the versions themselves: no entry is to be maintained.
        let _changes: Vec<IndexChange> = held.store.take_index_changes();
        proof {
            lemma_parts(held.store);
        }
        let ghost parts = held.deep_view();
        self.tables.insert(table.0 as u64, held);
        proof {
            assert(self@.tables =~= m.tables.insert(table.0 as u64, parts));
            lemma_put_back(m, self@, table, parts);
        }
        match r {
            Ok(_) => Ok(()),
            Err(e) => Err(SqlError::Internal(e)),
        }
    }

    /// Deletes the row `id` of `table` on behalf of `txn`.
    ///
    /// # Errors
    ///
    /// A bug for an unknown table; those of [`HeapTable::delete`].
    pub fn delete(&mut self, txn: TxnId, table: TableId, id: RowId) -> (r: SqlResult<()>)
        requires
            old(self).wf(),
        ensures
            final(self).wf(),
            final(self).options == old(self).options,
            final(self).recovery == old(self).recovery,
            ({
                let m = old(self)@;
                let n = final(self)@;
                let t = m.store(table);
                if !m.has_table(table) {
                    n == m && (r matches Err(e) && e.is_bug(Bug::NotInInstance(IdSpace::Table, table.0)))
                } else {
                    &&& m.same_but(n, table)
                    &&& is_row_outcome(
                        t.delete_outcome(m.journal, txn, id).drained(),
                        n.store(table),
                        n.journal,
                        r,
                    )
                }
            }),
    {
        let ghost m = self@;
        let mut held: DiskTable = match self.tables.remove(table.0 as u64) {
            Some(held) => held,
            None => {
                assert(self@ =~= m);
                return bug(Bug::NotInInstance(IdSpace::Table, table.0));
            },
        };
        proof {
            lemma_parts(held.store);
        }
        let r = held.store.delete(&mut self.journal, txn, id);
        // An index reads the versions themselves: no entry is to be maintained.
        let _changes: Vec<IndexChange> = held.store.take_index_changes();
        proof {
            lemma_parts(held.store);
        }
        let ghost parts = held.deep_view();
        self.tables.insert(table.0 as u64, held);
        proof {
            assert(self@.tables =~= m.tables.insert(table.0 as u64, parts));
            lemma_put_back(m, self@, table, parts);
        }
        match r {
            Ok(_) => Ok(()),
            Err(e) => Err(SqlError::Internal(e)),
        }
    }

    /// The content of `id` in `table` as `snap` sees it, `None` when it sees no version of it.
    ///
    /// # Errors
    ///
    /// A bug for an unknown table; a corruption for a version whose columns are no row.
    pub fn get(&self, snap: &Snapshot, table: TableId, id: RowId) -> (r: SqlResult<Option<Row>>)
        requires
            self.wf(),
        ensures
            ({
                let t = self@.store(table);
                let st = self@.journal.st();
                match r {
                    Ok(Some(row)) => self@.has_table(table) && shows_row(t, *snap, st, id, row@),
                    Ok(None) => self@.has_table(table) && forall|seq: u64| !#[trigger]
                        t.sees(*snap, st, (id.0, seq)),
                    Err(e) => if !self@.has_table(table) {
                        e.is_bug(Bug::NotInInstance(IdSpace::Table, table.0))
                    } else {
                        e matches SqlError::Internal(f) && shows_none(t, *snap, st, id, f)
                    },
                }
            }),
    {
        match self.tables.get(table.0 as u64) {
            None => bug(Bug::NotInInstance(IdSpace::Table, table.0)),
            Some(held) => {
                proof {
                    lemma_parts(held.store);
                }
                assert(held.store@ == self@.store(table));
                match held.store.get(&self.journal, snap, id) {
                    Ok(Some(row)) => Ok(Some(row)),
                    Ok(None) => Ok(None),
                    Err(e) => Err(SqlError::Internal(e)),
                }
            },
        }
    }

    /// The tail of the chain of `id` in `table`, regardless of the statuses: the transaction that
    /// wrote the most recent state and its content.
    ///
    /// # Errors
    ///
    /// A bug for an unknown table; a corruption for a version whose columns are no row, and for a row
    /// that is lost.
    pub fn latest_version(&self, table: TableId, id: RowId) -> (r: SqlResult<Option<(TxnId, Row)>>)
        requires
            self.wf(),
        ensures
            ({
                let t = self@.store(table);
                match r {
                    Ok(Some((writer, row))) => {
                        &&& self@.has_table(table)
                        &&& t.current.contains_key(id.0)
                        &&& writer == match t.version(id).header.xmax {
                            Some(x) => x,
                            None => t.version(id).header.xmin,
                        }
                        &&& parse_row(t.version(id).columns) == Some(row@)
                    },
                    Ok(None) => self@.has_table(table) && !t.current.contains_key(id.0)
                        && !t.lost.contains(id.0),
                    Err(e) => if !self@.has_table(table) {
                        e.is_bug(Bug::NotInInstance(IdSpace::Table, table.0))
                    } else if t.current.contains_key(id.0) {
                        &&& !legible(t.version(id))
                        &&& e == SqlError::Internal(illegible(t.version(id)))
                    } else {
                        t.lost.contains(id.0) && e == SqlError::Internal(t.missing(id))
                    },
                }
            }),
    {
        match self.tables.get(table.0 as u64) {
            None => bug(Bug::NotInInstance(IdSpace::Table, table.0)),
            Some(held) => {
                proof {
                    lemma_parts(held.store);
                }
                match held.store.latest_version(id) {
                    Ok(found) => Ok(found),
                    Err(e) => Err(SqlError::Internal(e)),
                }
            },
        }
    }
}

/// An instance with other rows in one table is consistent.
pub proof fn lemma_put_back(m: DiskModel, n: DiskModel, table: TableId, held: DiskTableModel)
    requires
        m.wf(),
        m.has_table(table),
        n.control == m.control,
        n.first_row == m.first_row,
        n.first_seq == m.first_seq,
        n.databases == m.databases,
        n.indexes == m.indexes,
        n.tables == m.tables.insert(table.0 as u64, held),
        held.store.wf(),
        held.db == m.tables[table.0 as u64].db,
        held.first_page == m.tables[table.0 as u64].first_page,
        held.store.shape == m.tables[table.0 as u64].store.shape,
        held.store.table == m.tables[table.0 as u64].store.table,
    ensures
        n.wf(),
        m.same_but(n, table),
{
    assert(n.tables.dom() =~= m.tables.dom());
    assert forall|t: u64| #[trigger] n.tables.contains_key(t) implies {
        &&& n.tables[t].store.wf()
        &&& n.tables[t].store.table.0 as u64 == t
        &&& t < n.control.next_table_id
    } by {
        assert(m.tables.contains_key(t));
    }
    assert forall|x: u64| #[trigger] n.indexes.contains_key(x) implies {
        let e = n.indexes[x];
        &&& e.index.0 as u64 == x
        &&& n.has_table(e.table)
        &&& index_shape_ok(e.shape, n.shape_of(e.table).columns.len())
        &&& x < n.control.next_index_id
    } by {
        assert(m.indexes.contains_key(x));
        assert(m.has_table(m.indexes[x].table));
    }
}

/// Whether a table, a journal and an answer are what a write of an instance leaves.
pub open spec fn is_row_outcome<T>(
    o: WriteOutcome,
    table: HeapTableModel,
    journal: JournalModel,
    r: SqlResult<T>,
) -> bool {
    &&& table == o.table
    &&& journal == o.journal
    &&& match r {
        Ok(_) => o.error is None,
        Err(e) => o.error matches Some(inner) && e == SqlError::Internal(inner),
    }
}

/// The first index of a list that refuses a row is the first of the table that does.
proof fn lemma_first_refusing(
    m: DiskModel,
    keys: Seq<u64>,
    i: int,
    table: TableId,
    txn: TxnId,
    data: Seq<ValueModel>,
    skip: Option<RowId>,
)
    requires
        0 <= i < keys.len(),
        increasing(keys),
        forall|x: u64| #[trigger] keys.contains(x) <==> m.indexes.contains_key(x),
        forall|k: int|
            0 <= k < i && #[trigger] m.is_unique_on(keys[k], table) ==> !m.index_refuses(
                keys[k],
                txn,
                data,
                skip,
            ),
    ensures
        forall|y: u64|
            y < keys[i] && #[trigger] m.is_unique_on(y, table) ==> !m.index_refuses(
                y,
                txn,
                data,
                skip,
            ),
{
    assert forall|y: u64| y < keys[i] && #[trigger] m.is_unique_on(y, table) implies !m.index_refuses(
        y,
        txn,
        data,
        skip,
    ) by {
        assert(keys.contains(y));
        let k = choose|k: int| 0 <= k < keys.len() && keys[k] == y;
        if k >= i {
            assert(keys[i] <= keys[k]);
        }
        assert(m.is_unique_on(keys[k], table));
    }
}

/// A refused row is one that not every index takes.
proof fn lemma_refused(
    m: DiskModel,
    table: TableId,
    txn: TxnId,
    data: Seq<ValueModel>,
    skip: Option<RowId>,
    e: SqlError,
)
    requires
        m.unique_error(table, txn, data, skip, e),
    ensures
        !m.unique_ok(table, txn, data, skip),
{
}

} // verus!
