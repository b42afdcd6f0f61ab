//! A durable instance: its catalogue, its tables, its journal and its control block, and the
//! definition statements.
//!
//! A definition statement is immediate and not transactional: the record the journal takes
//! carries `TxnId(0)`. The identifier it takes is taken even if the statement is refused
//! afterwards, so that it is not handed out again.

use vstd::prelude::*;

use super::control::Control;
use super::definitions::{
    database_bytes, database_payload, identifier_bytes, identifier_payload, table_words,
    words_bytes, IndexEntry, IndexEntryModel, TableEntry, TableEntryModel,
};
use super::heap::Rid;
use super::heap_reads::larger;
use super::heap_table::{lemma_parts, HeapParts, HeapTable};
use super::journal::{Journal, JournalModel};
use super::page::{Lsn, PageId};
use super::recover::Recovery;
use super::shapes::{
    asked_width, check_clustered_key_width, check_shape, index_shape_ok, key_narrow, shape_error,
    shape_ok, DiskOptions,
};
use super::table_model::HeapTableModel;
use super::wal::WalRecordKind;
use crate::error::{bug, Bug, IdSpace, InternalError, SqlError, SqlResult};
use crate::memory::ddl::lists_databases;
use crate::ids::{DbId, IndexId, TableId, TxnId};
use crate::ordmap::{increasing, OrdMap};
use crate::shape::{IndexShape, TableShape, TableShapeModel};

verus! {

/// A table of an instance.
#[derive(Debug)]
pub struct DiskTable {
    /// The database it belongs to.
    pub db: DbId,
    /// The head page of its heap.
    pub first_page: PageId,
    /// Its rows.
    pub store: HeapTable,
}

/// What a [`DiskTable`] stands for.
#[verifier::ext_equal]
pub struct DiskTableModel {
    /// The database it belongs to.
    pub db: DbId,
    /// The head page of its heap.
    pub first_page: PageId,
    /// Its rows.
    pub store: HeapParts,
}

impl DeepView for DiskTable {
    type V = DiskTableModel;

    open spec fn deep_view(&self) -> DiskTableModel {
        DiskTableModel {
            db: self.db,
            first_page: self.first_page,
            store: self.store.deep_view(),
        }
    }
}

/// A durable instance.
#[derive(Debug)]
pub struct DiskStorage {
    /// The options the instance was opened with.
    pub options: DiskOptions,
    /// The counters.
    pub control: Control,
    /// The databases, by identifier.
    pub databases: OrdMap<String>,
    /// The tables, by identifier.
    pub tables: OrdMap<DiskTable>,
    /// The indexes, by identifier.
    pub indexes: OrdMap<IndexEntry>,
    /// The journal and the register of the transactions.
    pub journal: Journal,
    /// What the recovery of the open found.
    pub recovery: Recovery,
}

/// What a [`DiskStorage`] stands for.
#[verifier::ext_equal]
pub struct DiskModel {
    /// The counters.
    pub control: Control,
    /// The databases, by identifier.
    pub databases: Map<u64, Seq<char>>,
    /// The tables, by identifier.
    pub tables: Map<u64, DiskTableModel>,
    /// The indexes, by identifier.
    pub indexes: Map<u64, IndexEntryModel>,
    /// The journal and the register of the transactions.
    pub journal: JournalModel,
    /// The row identifier the recovery of the open left to hand out.
    pub first_row: u64,
    /// The version serial the recovery of the open left to hand out.
    pub first_seq: u64,
}

impl View for DiskStorage {
    type V = DiskModel;

    open spec fn view(&self) -> DiskModel {
        DiskModel {
            control: self.control,
            databases: self.databases@,
            tables: self.tables@,
            indexes: self.indexes@,
            journal: self.journal@,
            first_row: self.recovery.next_row_id,
            first_seq: self.recovery.next_seq,
        }
    }
}

/// A counter of the control block.
#[derive(Debug, Clone, Copy, PartialEq, Eq, Structural)]
pub enum Counter {
    /// The databases.
    Database,
    /// The tables.
    Table,
    /// The indexes.
    Index,
}

impl Counter {
    /// The identifiers it counts.
    pub open spec fn space(self) -> IdSpace {
        match self {
            Counter::Database => IdSpace::Database,
            Counter::Table => IdSpace::Table,
            Counter::Index => IdSpace::Index,
        }
    }
}

impl Control {
    /// The value of a counter.
    pub open spec fn next_of(self, counter: Counter) -> u64 {
        match counter {
            Counter::Database => self.next_db_id,
            Counter::Table => self.next_table_id,
            Counter::Index => self.next_index_id,
        }
    }

    /// The counters once an identifier was handed out.
    pub open spec fn moved(self, counter: Counter) -> Control {
        match counter {
            Counter::Database => Control { next_db_id: (self.next_db_id + 1) as u64, ..self },
            Counter::Table => Control { next_table_id: (self.next_table_id + 1) as u64, ..self },
            Counter::Index => Control { next_index_id: (self.next_index_id + 1) as u64, ..self },
        }
    }
}

impl DiskModel {
    /// Whether the tables are consistent and filed under their identifiers, and each index is on
    /// a table and fits it.
    pub open spec fn wf(self) -> bool {
        &&& forall|t: u64| #[trigger]
            self.tables.contains_key(t) ==> {
                &&& self.tables[t].store.wf()
                &&& self.tables[t].store.table.0 as u64 == t
                &&& t < self.control.next_table_id
                &&& shape_ok(self.tables[t].store.shape)
            }
        &&& forall|d: u64| #[trigger]
            self.databases.contains_key(d) ==> d < self.control.next_db_id && d <= u32::MAX
        &&& forall|x: u64| #[trigger]
            self.indexes.contains_key(x) ==> {
                let e = self.indexes[x];
                &&& e.index.0 as u64 == x
                &&& self.has_table(e.table)
                &&& index_shape_ok(e.shape, self.shape_of(e.table).columns.len())
                &&& x < self.control.next_index_id
            }
    }

    /// Whether the instance holds a table.
    pub open spec fn has_table(self, table: TableId) -> bool {
        self.tables.contains_key(table.0 as u64)
    }

    /// The shape of a table.
    pub open spec fn shape_of(self, table: TableId) -> TableShapeModel {
        self.tables[table.0 as u64].store.shape
    }

    /// The rows of a table.
    pub open spec fn store(self, table: TableId) -> HeapTableModel {
        self.tables[table.0 as u64].store.model()
    }

    /// Whether no identifier is left to hand out.
    pub open spec fn exhausted(self, counter: Counter) -> bool {
        self.control.next_of(counter) > u32::MAX
    }

    /// The instance once an identifier was handed out.
    pub open spec fn taken(self, counter: Counter) -> DiskModel {
        DiskModel { control: self.control.moved(counter), ..self }
    }

    /// The instance with one more durable record that belongs to no transaction.
    pub open spec fn recorded(self, kind: WalRecordKind, payload: Seq<u8>) -> DiskModel {
        DiskModel { journal: self.journal.logged(kind, TxnId(0), payload).flushed(), ..self }
    }

    /// The instance without a table and its indexes.
    pub open spec fn without_table(self, table: TableId) -> DiskModel {
        DiskModel {
            tables: self.tables.remove(table.0 as u64),
            indexes: Map::new(
                |x: u64| self.indexes.contains_key(x) && self.indexes[x].table != table,
                |x: u64| self.indexes[x],
            ),
            ..self
        }
    }

    /// The instance without a database, its tables and their indexes.
    pub open spec fn without_database(self, db: DbId) -> DiskModel {
        DiskModel {
            databases: self.databases.remove(db.0 as u64),
            tables: Map::new(
                |t: u64| self.tables.contains_key(t) && self.tables[t].db != db,
                |t: u64| self.tables[t],
            ),
            indexes: Map::new(
                |x: u64|
                    self.indexes.contains_key(x) && self.tables[self.indexes[x].table.0 as u64].db
                        != db,
                |x: u64| self.indexes[x],
            ),
            ..self
        }
    }
}

impl DiskStorage {
    /// Whether the journal and the tables are consistent.
    pub open spec fn wf(&self) -> bool {
        self.journal.wf() && self@.wf()
    }

    /// Takes the next identifier of `counter`.
    ///
    /// # Errors
    ///
    /// A bug when the counter has passed the width of the identifiers.
    pub(crate) fn take_id(&mut self, counter: Counter) -> (r: Result<u32, InternalError>)
        ensures
            final(self).options == old(self).options,
            final(self).recovery == old(self).recovery,
            final(self).journal == old(self).journal,
            match r {
                Ok(id) => {
                    &&& !old(self)@.exhausted(counter)
                    &&& id as u64 == old(self)@.control.next_of(counter)
                    &&& final(self)@ == old(self)@.taken(counter)
                },
                Err(e) => {
                    &&& old(self)@.exhausted(counter)
                    &&& e == InternalError::Bug(Bug::IdsExhausted(counter.space()))
                    &&& *final(self) == *old(self)
                },
            },
    {
        let taken: u64 = match counter {
            Counter::Database => self.control.next_db_id,
            Counter::Table => self.control.next_table_id,
            Counter::Index => self.control.next_index_id,
        };
        if taken > u32::MAX as u64 {
            let space: IdSpace = match counter {
                Counter::Database => IdSpace::Database,
                Counter::Table => IdSpace::Table,
                Counter::Index => IdSpace::Index,
            };
            return Err(InternalError::Bug(Bug::IdsExhausted(space)));
        }
        match counter {
            Counter::Database => {
                self.control.next_db_id = taken + 1;
            },
            Counter::Table => {
                self.control.next_table_id = taken + 1;
            },
            Counter::Index => {
                self.control.next_index_id = taken + 1;
            },
        }
        Ok(taken as u32)
    }

    /// Appends a durable record that belongs to no transaction.
    pub(crate) fn record(&mut self, kind: WalRecordKind, payload: &Vec<u8>) -> (r: Result<Lsn, InternalError>)
        requires
            old(self).journal.wf(),
        ensures
            final(self).options == old(self).options,
            final(self).recovery == old(self).recovery,
            final(self).journal.wf(),
            match r {
                Ok(lsn) => {
                    &&& !old(self)@.journal.refuses(payload@.len())
                    &&& final(self)@ == old(self)@.recorded(kind, payload@)
                    &&& lsn.0 == final(self)@.journal.log.len()
                },
                Err(e) => {
                    &&& old(self)@.journal.refuses(payload@.len())
                    &&& e == old(self)@.journal.refusal(kind, payload@.len())
                    &&& final(self)@ == old(self)@
                },
            },
    {
        let ghost before = self@;
        let r = self.journal.wal.append_durable(kind, TxnId(0), payload.as_slice());
        proof {
            match r {
                Ok(_) => {
                    assert(self@.journal =~= before.journal.logged(
                        kind,
                        TxnId(0),
                        payload@,
                    ).flushed());
                    assert(self@ =~= before.recorded(kind, payload@));
                },
                Err(_) => {
                    assert(self@ =~= before);
                },
            }
        }
        r
    }

    /// Creates a database named `name` and answers its fresh identifier.
    ///
    /// # Errors
    ///
    /// A bug when the identifiers are exhausted, and when the journal refuses the record.
    pub fn create_database(&mut self, name: &str) -> (r: SqlResult<DbId>)
        requires
            old(self).wf(),
        ensures
            final(self).wf(),
            final(self).options == old(self).options,
            final(self).recovery == old(self).recovery,
            ({
                let m = old(self)@;
                let db = DbId(m.control.next_db_id as u32);
                let taken = m.taken(Counter::Database);
                let payload = database_bytes(db, name@);
                if m.exhausted(Counter::Database) {
                    &&& final(self)@ == m
                    &&& r matches Err(e) && e.is_bug(Bug::IdsExhausted(IdSpace::Database))
                } else if m.journal.refuses(payload.len()) {
                    &&& final(self)@ == taken
                    &&& r matches Err(e) && e == SqlError::Internal(
                        m.journal.refusal(WalRecordKind::CreateDatabase, payload.len()),
                    )
                } else {
                    &&& r == Ok::<DbId, SqlError>(db)
                    &&& final(self)@ == (DiskModel {
                        databases: m.databases.insert(db.0 as u64, name@),
                        ..taken.recorded(WalRecordKind::CreateDatabase, payload)
                    })
                }
            }),
    {
        let ghost m = self@;
        let db: DbId = match self.take_id(Counter::Database) {
            Ok(id) => DbId(id),
            Err(e) => {
                return Err(SqlError::Internal(e));
            },
        };
        let payload: Vec<u8> = database_payload(db, name);
        match self.record(WalRecordKind::CreateDatabase, &payload) {
            Ok(_) => {},
            Err(e) => {
                return Err(SqlError::Internal(e));
            },
        }
        self.databases.insert(db.0 as u64, name.to_string());
        proof {
            assert(self@ =~= (DiskModel {
                databases: m.databases.insert(db.0 as u64, name@),
                ..m.taken(Counter::Database).recorded(WalRecordKind::CreateDatabase, payload@)
            }));
        }
        Ok(db)
    }

    /// The databases of the instance, by increasing identifier.
    pub fn databases(&self) -> (r: SqlResult<Vec<(DbId, String)>>)
        requires
            self.wf(),
        ensures
            r matches Ok(out) && lists_databases(out@, self@.databases),
    {
        let mut out: Vec<(DbId, String)> = Vec::new();
        let keys: Vec<u64> = self.databases.keys();
        let ghost m = self@;
        for i in 0..keys.len()
            invariant
                m == self@,
                m.wf(),
                increasing(keys@),
                forall|k: u64| #[trigger] keys@.contains(k) <==> m.databases.contains_key(k),
                out@.len() == i,
                forall|k: int|
                    0 <= k < i ==> (#[trigger] out@[k]).0.0 == keys@[k] && out@[k].1@
                        == m.databases[keys@[k]],
        {
            let key: u64 = keys[i];
            assert(keys@.contains(key));
            assert(m.databases.contains_key(key));
            match self.databases.get(key) {
                Some(name) => {
                    out.push((DbId(key as u32), name.clone()));
                },
                None => {
                    assert(false);
                },
            }
        }
        proof {
            assert forall|i: int| 0 <= i < out@.len() implies m.databases.contains_key(
                (#[trigger] out@[i]).0.0 as u64,
            ) by {
                assert(keys@.contains(keys@[i]));
            }
            assert forall|i: int, j: int| 0 <= i < j < out@.len() implies (#[trigger] out@[i]).0.0
                < (#[trigger] out@[j]).0.0 by {
                assert(keys@[i] < keys@[j]);
            }
            assert forall|k: u64| #[trigger] m.databases.contains_key(k) implies exists|i: int|
                0 <= i < out@.len() && (#[trigger] out@[i]).0.0 == k by {
                assert(keys@.contains(k));
                assert(out@[keys@.index_of(k)].0.0 == k);
            }
        }
        Ok(out)
    }

    /// The indexes of the tables of `db`, or of one table.
    fn doomed_indexes(&self, db: Option<DbId>, table: Option<TableId>) -> (r: Vec<u64>)
        requires
            self.wf(),
        ensures
            forall|x: u64| #[trigger]
                r@.contains(x) <==> self@.indexes.contains_key(x) && (match db {
                    Some(db) => self@.tables[self@.indexes[x].table.0 as u64].db == db,
                    None => false,
                } || table == Some(self@.indexes[x].table)),
    {
        let keys: Vec<u64> = self.indexes.keys();
        let ghost m = self@;
        let mut doomed: Vec<u64> = Vec::new();
        for i in 0..keys.len()
            invariant
                m == self@,
                m.wf(),
                forall|k: u64| #[trigger] keys@.contains(k) <==> m.indexes.contains_key(k),
                forall|x: u64| #[trigger]
                    doomed@.contains(x) <==> keys@.take(i as int).contains(x) && (match db {
                        Some(db) => m.tables[m.indexes[x].table.0 as u64].db == db,
                        None => false,
                    } || table == Some(m.indexes[x].table)),
        {
            let key: u64 = keys[i];
            assert(keys@.contains(key));
            assert(m.indexes.contains_key(key));
            let doom: bool = match self.indexes.get(key) {
                Some(entry) => {
                    let of_db: bool = match (db, self.tables.get(entry.table.0 as u64)) {
                        (Some(db), Some(t)) => t.db == db,
                        _ => false,
                    };
                    let of_table: bool = match table {
                        Some(table) => entry.table == table,
                        None => false,
                    };
                    of_db || of_table
                },
                None => false,
            };
            let ghost before = doomed@;
            if doom {
                doomed.push(key);
            }
            proof {
                let a = keys@.take(i as int);
                let b = keys@.take(i + 1);
                assert(b =~= a.push(key));
                lemma_push_contains(a, key);
                lemma_push_contains(before, key);
            }
        }
        assert(keys@.take(keys@.len() as int) =~= keys@);
        doomed
    }

    /// Drops the database `db`, its tables and their indexes.
    ///
    /// # Errors
    ///
    /// A bug when `db` is unknown, and when the journal refuses the record.
    pub fn drop_database(&mut self, db: DbId) -> (r: SqlResult<()>)
        requires
            old(self).wf(),
        ensures
            final(self).wf(),
            final(self).options == old(self).options,
            final(self).recovery == old(self).recovery,
            ({
                let m = old(self)@;
                let payload = identifier_bytes(db.0);
                if !m.databases.contains_key(db.0 as u64) {
                    &&& final(self)@ == m
                    &&& r matches Err(e) && e.is_bug(Bug::NotInInstance(IdSpace::Database, db.0))
                } else if m.journal.refuses(payload.len()) {
                    &&& final(self)@ == m
                    &&& r matches Err(e) && e == SqlError::Internal(
                        m.journal.refusal(WalRecordKind::DropDatabase, payload.len()),
                    )
                } else {
                    &&& r is Ok
                    &&& final(self)@ == m.recorded(
                        WalRecordKind::DropDatabase,
                        payload,
                    ).without_database(db)
                }
            }),
    {
        let ghost m = self@;
        if !self.databases.contains_key(db.0 as u64) {
            return bug(Bug::NotInInstance(IdSpace::Database, db.0));
        }
        let payload: Vec<u8> = identifier_payload(db.0);
        match self.record(WalRecordKind::DropDatabase, &payload) {
            Ok(_) => {},
            Err(e) => {
                return Err(SqlError::Internal(e));
            },
        }
        let ghost logged = self@;
        let indexes: Vec<u64> = self.doomed_indexes(Some(db), None);
        let tables: Vec<u64> = self.tables_in(db);
        let _name: Option<String> = self.databases.remove(db.0 as u64);
        self.indexes.remove_all(&indexes);
        self.tables.remove_all(&tables);
        proof {
            let after = logged.without_database(db);
            assert(self@.tables =~= after.tables);
            assert(self@.indexes =~= after.indexes);
            assert(self@ =~= after);
            assert forall|x: u64| #[trigger] self@.indexes.contains_key(x) implies {
                let e = self@.indexes[x];
                &&& e.index.0 as u64 == x
                &&& self@.has_table(e.table)
                &&& index_shape_ok(e.shape, self@.shape_of(e.table).columns.len())
                &&& x < self@.control.next_index_id
            } by {
                assert(m.indexes.contains_key(x));
                assert(m.has_table(m.indexes[x].table));
            }
        }
        Ok(())
    }

    /// The tables of `db`, by increasing identifier.
    fn tables_in(&self, db: DbId) -> (r: Vec<u64>)
        ensures
            increasing(r@),
            forall|t: u64| #[trigger]
                r@.contains(t) <==> self@.tables.contains_key(t) && self@.tables[t].db == db,
    {
        let keys: Vec<u64> = self.tables.keys();
        let mut found: Vec<u64> = Vec::new();
        for i in 0..keys.len()
            invariant
                increasing(keys@),
                forall|k: u64| #[trigger] keys@.contains(k) <==> self.tables@.contains_key(k),
                increasing(found@),
                found@.len() > 0 ==> i > 0 && found@.last() <= keys@[i - 1],
                forall|x: u64| #[trigger]
                    found@.contains(x) <==> keys@.take(i as int).contains(x) && self.tables@[x].db
                        == db,
        {
            let key: u64 = keys[i];
            assert(keys@.contains(key));
            assert(i > 0 ==> keys@[i - 1] < keys@[i as int]);
            let ghost before = found@;
            match self.tables.get(key) {
                Some(t) => if t.db == db {
                    found.push(key);
                },
                None => {
                    assert(false);
                },
            }
            proof {
                let a = keys@.take(i as int);
                let b = keys@.take(i + 1);
                assert(b =~= a.push(key));
                lemma_push_contains(a, key);
                lemma_push_contains(before, key);
            }
        }
        assert(keys@.take(keys@.len() as int) =~= keys@);
        found
    }

    /// Creates a table of shape `shape` in `db` and answers its fresh identifier. Its rows and
    /// versions are numbered from where the recovery of the open left off.
    ///
    /// # Errors
    ///
    /// A bug when `db` is unknown, for a shape that cannot be stored, and when the identifiers
    /// are exhausted; a clustered key whose declared width is past the limit; a bug when the
    /// journal refuses the record.
    pub fn create_table(&mut self, db: DbId, shape: &TableShape) -> (r: SqlResult<TableId>)
        requires
            old(self).wf(),
            old(self)@.control.next_page_id.0 < u64::MAX,
        ensures
            final(self).wf(),
            final(self).options == old(self).options,
            final(self).recovery == old(self).recovery,
            ({
                let m = old(self)@;
                let table = TableId(m.control.next_table_id as u32);
                let entry = TableEntryModel {
                    table,
                    db,
                    shape: shape@,
                    first_page: m.control.next_page_id,
                };
                let payload = words_bytes(table_words(entry));
                let taken = m.taken(Counter::Table).page_taken();
                if !m.databases.contains_key(db.0 as u64) {
                    &&& final(self)@ == m
                    &&& r matches Err(e) && e.is_bug(Bug::NotInInstance(IdSpace::Database, db.0))
                } else if !shape_ok(shape@) {
                    &&& final(self)@ == m
                    &&& r matches Err(SqlError::Internal(e)) && shape_error(shape@, e)
                } else if !key_narrow(shape@) {
                    &&& final(self)@ == m
                    &&& r == Err::<TableId, SqlError>(
                        SqlError::ClusteredKeyTooWide(asked_width(shape@)),
                    )
                } else if m.exhausted(Counter::Table) {
                    &&& final(self)@ == m
                    &&& r matches Err(e) && e.is_bug(Bug::IdsExhausted(IdSpace::Table))
                } else if m.journal.refuses(payload.len()) {
                    &&& final(self)@ == taken
                    &&& r matches Err(e) && e == SqlError::Internal(
                        m.journal.refusal(WalRecordKind::CreateTable, payload.len()),
                    )
                } else {
                    &&& r == Ok::<TableId, SqlError>(table)
                    &&& final(self)@ == taken.recorded(
                        WalRecordKind::CreateTable,
                        payload,
                    ).with_table(entry)
                }
            }),
    {
        let ghost m = self@;
        if !self.databases.contains_key(db.0 as u64) {
            return bug(Bug::NotInInstance(IdSpace::Database, db.0));
        }
        match check_shape(shape) {
            Ok(_) => {},
            Err(e) => {
                return Err(SqlError::Internal(e));
            },
        }
        match check_clustered_key_width(shape) {
            Ok(_) => {},
            Err(e) => {
                return Err(e);
            },
        }
        let table: TableId = match self.take_id(Counter::Table) {
            Ok(id) => TableId(id),
            Err(e) => {
                return Err(SqlError::Internal(e));
            },
        };
        let first_page: PageId = self.control.next_page_id;
        self.control.next_page_id = PageId(first_page.0 + 1);
        let entry = TableEntry { table, db, shape: shape.duplicate(), first_page };
        let payload: Vec<u8> = entry.encode();
        assert(self@ =~= m.taken(Counter::Table).page_taken());
        match self.record(WalRecordKind::CreateTable, &payload) {
            Ok(_) => {},
            Err(e) => {
                return Err(SqlError::Internal(e));
            },
        }
        let ghost logged = self@;
        let mut store: HeapTable = HeapTable::create(table, entry.shape);
        let ghost fresh = store;
        match store.resume(&self.journal, self.recovery.next_row_id, self.recovery.next_seq) {
            Ok(_) => {},
            Err(e) => {
                return Err(SqlError::Internal(e));
            },
        }
        proof {
            lemma_parts(store);
            lemma_nothing_resumed(fresh, store);
            assert(store.deep_view() =~= blank_store(
                table,
                shape@,
                logged.first_row,
                logged.first_seq,
            ));
        }
        self.tables.insert(table.0 as u64, DiskTable { db, first_page, store });
        proof {
            assert(self@ =~= logged.with_table(entry@));
            assert forall|x: u64| #[trigger] self@.indexes.contains_key(x) implies {
                let e = self@.indexes[x];
                &&& self@.has_table(e.table)
                &&& index_shape_ok(e.shape, self@.shape_of(e.table).columns.len())
            } by {
                assert(m.indexes.contains_key(x));
                assert(m.has_table(m.indexes[x].table));
            }
        }
        Ok(table)
    }

    /// Drops the table `table` and its indexes.
    ///
    /// # Errors
    ///
    /// A bug when `table` is unknown, and when the journal refuses the record.
    pub fn drop_table(&mut self, table: TableId) -> (r: SqlResult<()>)
        requires
            old(self).wf(),
        ensures
            final(self).wf(),
            final(self).options == old(self).options,
            final(self).recovery == old(self).recovery,
            ({
                let m = old(self)@;
                let payload = identifier_bytes(table.0);
                if !m.has_table(table) {
                    &&& final(self)@ == m
                    &&& r matches Err(e) && e.is_bug(Bug::NotInInstance(IdSpace::Table, table.0))
                } else if m.journal.refuses(payload.len()) {
                    &&& final(self)@ == m
                    &&& r matches Err(e) && e == SqlError::Internal(
                        m.journal.refusal(WalRecordKind::DropTable, payload.len()),
                    )
                } else {
                    &&& r is Ok
                    &&& final(self)@ == m.recorded(WalRecordKind::DropTable, payload).without_table(
                        table,
                    )
                }
            }),
    {
        let ghost m = self@;
        if !self.tables.contains_key(table.0 as u64) {
            return bug(Bug::NotInInstance(IdSpace::Table, table.0));
        }
        let payload: Vec<u8> = identifier_payload(table.0);
        match self.record(WalRecordKind::DropTable, &payload) {
            Ok(_) => {},
            Err(e) => {
                return Err(SqlError::Internal(e));
            },
        }
        let ghost logged = self@;
        let indexes: Vec<u64> = self.doomed_indexes(None, Some(table));
        let _store: Option<DiskTable> = self.tables.remove(table.0 as u64);
        self.indexes.remove_all(&indexes);
        proof {
            assert(self@.indexes =~= logged.without_table(table).indexes);
            assert(self@ =~= logged.without_table(table));
            assert forall|x: u64| #[trigger] self@.indexes.contains_key(x) implies {
                let e = self@.indexes[x];
                &&& e.index.0 as u64 == x
                &&& self@.has_table(e.table)
                &&& index_shape_ok(e.shape, self@.shape_of(e.table).columns.len())
                &&& x < self@.control.next_index_id
            } by {
                assert(m.indexes.contains_key(x));
                assert(m.has_table(m.indexes[x].table));
            }
        }
        Ok(())
    }

    /// The tables of `db` with their shape, by increasing identifier.
    ///
    /// # Errors
    ///
    /// A bug when `db` is unknown.
    pub fn tables(&self, db: DbId) -> (r: SqlResult<Vec<(TableId, TableShape)>>)
        requires
            self.wf(),
        ensures
            match r {
                Ok(out) => self@.databases.contains_key(db.0 as u64) && lists_tables(
                    out@,
                    self@.tables,
                    db,
                ),
                Err(e) => !self@.databases.contains_key(db.0 as u64) && e.is_bug(
                    Bug::NotInInstance(IdSpace::Database, db.0),
                ),
            },
    {
        if !self.databases.contains_key(db.0 as u64) {
            return bug(Bug::NotInInstance(IdSpace::Database, db.0));
        }
        let keys: Vec<u64> = self.tables_in(db);
        let ghost m = self@;
        let mut out: Vec<(TableId, TableShape)> = Vec::new();
        for i in 0..keys.len()
            invariant
                m == self@,
                m.wf(),
                increasing(keys@),
                forall|t: u64| #[trigger]
                    keys@.contains(t) <==> m.tables.contains_key(t) && m.tables[t].db == db,
                out@.len() == i,
                forall|k: int|
                    0 <= k < i ==> (#[trigger] out@[k]).0.0 == keys@[k] && out@[k].1@
                        == m.tables[keys@[k]].store.shape,
        {
            let key: u64 = keys[i];
            assert(keys@.contains(key));
            match self.tables.get(key) {
                Some(t) => {
                    out.push((t.store.table(), t.store.shape.duplicate()));
                },
                None => {
                    assert(false);
                },
            }
        }
        proof {
            assert forall|i: int| 0 <= i < out@.len() implies {
                let k = (#[trigger] out@[i]).0.0 as u64;
                m.tables.contains_key(k) && m.tables[k].db == db && m.tables[k].store.shape
                    == out@[i].1@
            } by {
                assert(keys@.contains(keys@[i]));
            }
            assert forall|i: int, j: int| 0 <= i < j < out@.len() implies (#[trigger] out@[i]).0.0
                < (#[trigger] out@[j]).0.0 by {
                assert(keys@[i] < keys@[j]);
            }
            assert forall|k: u64| #[trigger]
                m.tables.contains_key(k) && m.tables[k].db == db implies exists|i: int|
                0 <= i < out@.len() && (#[trigger] out@[i]).0.0 == k by {
                assert(keys@.contains(k));
                assert(out@[keys@.index_of(k)].0.0 == k);
            }
        }
        Ok(out)
    }

    /// Drops the index `index`; the rows are untouched.
    ///
    /// # Errors
    ///
    /// A bug when `index` is unknown, and when the journal refuses the record.
    pub fn drop_index(&mut self, index: IndexId) -> (r: SqlResult<()>)
        requires
            old(self).wf(),
        ensures
            final(self).wf(),
            final(self).options == old(self).options,
            final(self).recovery == old(self).recovery,
            ({
                let m = old(self)@;
                let payload = identifier_bytes(index.0);
                if !m.indexes.contains_key(index.0 as u64) {
                    &&& final(self)@ == m
                    &&& r matches Err(e) && e.is_bug(Bug::NotInInstance(IdSpace::Index, index.0))
                } else if m.journal.refuses(payload.len()) {
                    &&& final(self)@ == m
                    &&& r matches Err(e) && e == SqlError::Internal(
                        m.journal.refusal(WalRecordKind::DropIndex, payload.len()),
                    )
                } else {
                    &&& r is Ok
                    &&& final(self)@ == (DiskModel {
                        indexes: m.indexes.remove(index.0 as u64),
                        ..m.recorded(WalRecordKind::DropIndex, payload)
                    })
                }
            }),
    {
        let ghost m = self@;
        if !self.indexes.contains_key(index.0 as u64) {
            return bug(Bug::NotInInstance(IdSpace::Index, index.0));
        }
        let payload: Vec<u8> = identifier_payload(index.0);
        match self.record(WalRecordKind::DropIndex, &payload) {
            Ok(_) => {},
            Err(e) => {
                return Err(SqlError::Internal(e));
            },
        }
        let _entry: Option<IndexEntry> = self.indexes.remove(index.0 as u64);
        proof {
            assert forall|x: u64| #[trigger] self@.indexes.contains_key(x) implies {
                let e = self@.indexes[x];
                &&& e.index.0 as u64 == x
                &&& self@.has_table(e.table)
                &&& index_shape_ok(e.shape, self@.shape_of(e.table).columns.len())
                &&& x < self@.control.next_index_id
            } by {
                assert(m.indexes.contains_key(x));
            }
        }
        Ok(())
    }

    /// The indexes of `table` with their shape, by increasing identifier.
    ///
    /// # Errors
    ///
    /// A bug when `table` is unknown.
    pub fn indexes(&self, table: TableId) -> (r: SqlResult<Vec<(IndexId, IndexShape)>>)
        requires
            self.wf(),
        ensures
            match r {
                Ok(out) => self@.has_table(table) && lists_indexes(out@, self@.indexes, table),
                Err(e) => !self@.has_table(table) && e.is_bug(Bug::NotInInstance(IdSpace::Table, table.0)),
            },
    {
        if !self.tables.contains_key(table.0 as u64) {
            return bug(Bug::NotInInstance(IdSpace::Table, table.0));
        }
        let keys: Vec<u64> = self.indexes.keys();
        let ghost m = self@;
        let mut out: Vec<(IndexId, IndexShape)> = Vec::new();
        for i in 0..keys.len()
            invariant
                m == self@,
                m.wf(),
                increasing(keys@),
                forall|x: u64| #[trigger] keys@.contains(x) <==> m.indexes.contains_key(x),
                forall|k: int|
                    0 <= k < out@.len() ==> {
                        let x = (#[trigger] out@[k]).0.0 as u64;
                        &&& m.indexes.contains_key(x)
                        &&& m.indexes[x].table == table
                        &&& m.indexes[x].shape == out@[k].1@
                        &&& i > 0 && x <= keys@[i - 1]
                    },
                forall|a: int, b: int|
                    0 <= a < b < out@.len() ==> (#[trigger] out@[a]).0.0 < (#[trigger] out@[b]).0.0,
                forall|k: int|
                    0 <= k < i && m.indexes[#[trigger] keys@[k]].table == table ==> exists|x: int|
                        0 <= x < out@.len() && (#[trigger] out@[x]).0.0 == keys@[k],
        {
            let key: u64 = keys[i];
            assert(keys@.contains(key));
            assert(i > 0 ==> keys@[i - 1] < keys@[i as int]);
            assert(m.indexes.contains_key(key));
            let ghost before = out@;
            match self.indexes.get(key) {
                Some(entry) => {
                    if entry.table == table {
                        out.push((entry.index, entry.shape.duplicate()));
                        proof {
                            assert forall|k: int|
                                0 <= k < i + 1 && m.indexes[#[trigger] keys@[k]].table
                                    == table implies exists|x: int|
                                0 <= x < out@.len() && (#[trigger] out@[x]).0.0 == keys@[k] by {
                                if k < i {
                                    let x = choose|x: int|
                                        0 <= x < before.len() && (#[trigger] before[x]).0.0
                                            == keys@[k];
                                    assert(out@[x].0.0 == keys@[k]);
                                } else {
                                    assert(out@[before.len() as int].0.0 == keys@[k]);
                                }
                            }
                        }
                    }
                },
                None => {
                    assert(false);
                },
            }
        }
        proof {
            assert forall|k: u64| #[trigger]
                m.indexes.contains_key(k) && m.indexes[k].table == table implies exists|i: int|
                0 <= i < out@.len() && (#[trigger] out@[i]).0.0 == k by {
                assert(keys@.contains(k));
                let x = choose|x: int| 0 <= x < keys@.len() && keys@[x] == k;
                assert(m.indexes[keys@[x]].table == table);
            }
        }
        Ok(out)
    }
}

impl DiskModel {
    /// The instance once a page was handed out.
    pub open spec fn page_taken(self) -> DiskModel {
        DiskModel {
            control: Control {
                next_page_id: PageId((self.control.next_page_id.0 + 1) as u64),
                ..self.control
            },
            ..self
        }
    }

    /// The instance with one more table, empty, its counters past what the recovery found.
    pub open spec fn with_table(self, e: TableEntryModel) -> DiskModel {
        DiskModel {
            tables: self.tables.insert(
                e.table.0 as u64,
                DiskTableModel {
                    db: e.db,
                    first_page: e.first_page,
                    store: blank_store(e.table, e.shape, self.first_row, self.first_seq),
                },
            ),
            ..self
        }
    }
}

/// A table nothing was written in.
pub open spec fn blank_store(
    table: TableId,
    shape: TableShapeModel,
    first_row: u64,
    first_seq: u64,
) -> HeapParts {
    HeapParts {
        table,
        records: Map::empty(),
        next: 1,
        shape,
        directory: Map::empty(),
        lost: Set::empty(),
        next_row_id: larger(1, first_row),
        next_seq: larger(1, first_seq),
        writes: Map::empty(),
        changes: Seq::empty(),
        resumed: true,
    }
}

/// A table without versions is resumed without rows.
proof fn lemma_nothing_resumed(a: HeapTable, b: HeapTable)
    requires
        a.heap@ == Map::<u64, Seq<u8>>::empty(),
        b.heap == a.heap,
        b.wf(),
    ensures
        b.state.directory@ =~= Map::<u64, Rid>::empty(),
{
    assert forall|row: u64| !b.state.directory@.contains_key(row) by {
        if b.state.directory@.contains_key(row) {
            assert(b.heap@.contains_key(b.state.directory@[row].0));
        }
    }
}

/// Whether `out` lists the tables of `db` with their shapes, by increasing identifier.
pub open spec fn lists_tables(
    out: Seq<(TableId, TableShape)>,
    tables: Map<u64, DiskTableModel>,
    db: DbId,
) -> bool {
    &&& forall|i: int|
        0 <= i < out.len() ==> {
            let k = (#[trigger] out[i]).0.0 as u64;
            tables.contains_key(k) && tables[k].db == db && tables[k].store.shape == out[i].1@
        }
    &&& forall|i: int, j: int|
        0 <= i < j < out.len() ==> (#[trigger] out[i]).0.0 < (#[trigger] out[j]).0.0
    &&& forall|k: u64| #[trigger]
        tables.contains_key(k) && tables[k].db == db ==> exists|i: int|
            0 <= i < out.len() && (#[trigger] out[i]).0.0 == k
}

/// Whether `out` lists the indexes of `table` with their shapes, by increasing identifier.
pub open spec fn lists_indexes(
    out: Seq<(IndexId, IndexShape)>,
    indexes: Map<u64, IndexEntryModel>,
    table: TableId,
) -> bool {
    &&& forall|i: int|
        0 <= i < out.len() ==> {
            let k = (#[trigger] out[i]).0.0 as u64;
            indexes.contains_key(k) && indexes[k].table == table && indexes[k].shape == out[i].1@
        }
    &&& forall|i: int, j: int|
        0 <= i < j < out.len() ==> (#[trigger] out[i]).0.0 < (#[trigger] out[j]).0.0
    &&& forall|k: u64| #[trigger]
        indexes.contains_key(k) && indexes[k].table == table ==> exists|i: int|
            0 <= i < out.len() && (#[trigger] out[i]).0.0 == k
}

/// Membership after a push.
pub proof fn lemma_push_contains(s: Seq<u64>, x: u64)
    ensures
        forall|k: u64| #[trigger] s.push(x).contains(k) <==> s.contains(k) || k == x,
{
    assert forall|k: u64| #[trigger] s.push(x).contains(k) <==> s.contains(k) || k == x by {
        if s.contains(k) {
            let i = choose|i: int| 0 <= i < s.len() && s[i] == k;
            assert(s.push(x)[i] == k);
        }
        if s.push(x).contains(k) {
            let i = choose|i: int| 0 <= i < s.push(x).len() && s.push(x)[i] == k;
            if i < s.len() {
                assert(s[i] == k);
            }
        }
        assert(s.push(x)[s.len() as int] == x);
    }
}

} // verus!
