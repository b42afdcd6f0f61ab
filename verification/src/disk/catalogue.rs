//! The catalogue of an instance as its journal tells it: the definition records, replayed in
//! order.

use vstd::prelude::*;

use super::bytes::le_value;
use super::definitions::{
    database_in, is_database, is_index, is_table, index_in, read_database, read_identifier,
    table_in, words_in, IndexEntry, IndexEntryModel, TableEntry, TableEntryModel,
};
use super::storage::lemma_push_contains;
use super::wal::{RecordModel, WalRecord, WalRecordKind};
use crate::error::{Corruption, InternalError};
use crate::ids::DbId;
use crate::ordmap::OrdMap;

verus! {

/// The databases, tables and indexes of an instance.
#[derive(Debug)]
pub struct Catalogue {
    /// The databases, by identifier.
    pub databases: OrdMap<String>,
    /// The tables, by identifier.
    pub tables: OrdMap<TableEntry>,
    /// The indexes, by identifier.
    pub indexes: OrdMap<IndexEntry>,
}

/// What a [`Catalogue`] stands for.
#[verifier::ext_equal]
pub struct CatalogueModel {
    /// The databases, by identifier.
    pub databases: Map<u64, Seq<char>>,
    /// The tables, by identifier.
    pub tables: Map<u64, TableEntryModel>,
    /// The indexes, by identifier.
    pub indexes: Map<u64, IndexEntryModel>,
}

impl View for Catalogue {
    type V = CatalogueModel;

    open spec fn view(&self) -> CatalogueModel {
        CatalogueModel {
            databases: self.databases@,
            tables: self.tables@,
            indexes: self.indexes@,
        }
    }
}

impl CatalogueModel {
    /// A catalogue that holds nothing.
    pub open spec fn empty() -> CatalogueModel {
        CatalogueModel { databases: Map::empty(), tables: Map::empty(), indexes: Map::empty() }
    }

    /// The catalogue without the tables of `doomed` and their indexes.
    pub open spec fn without_tables(self, doomed: Set<u64>) -> CatalogueModel {
        CatalogueModel {
            tables: self.tables.remove_keys(doomed),
            indexes: Map::new(
                |x: u64|
                    self.indexes.contains_key(x) && !doomed.contains(
                        self.indexes[x].table.0 as u64,
                    ),
                |x: u64| self.indexes[x],
            ),
            ..self
        }
    }

    /// The tables of a database.
    pub open spec fn tables_of(self, db: DbId) -> Set<u64> {
        Set::new(|t: u64| self.tables.contains_key(t) && self.tables[t].db == db)
    }

    /// Whether each index is on a table.
    pub open spec fn on_tables(self) -> bool {
        forall|x: u64| #[trigger]
            self.indexes.contains_key(x) ==> self.tables.contains_key(
                self.indexes[x].table.0 as u64,
            )
    }

    /// The catalogue once a record was replayed; `None` for a definition that does not read.
    pub open spec fn replayed(self, r: RecordModel) -> Option<CatalogueModel> {
        let s = r.payload;
        match r.kind {
            WalRecordKind::CreateDatabase => if is_database(s) {
                let (db, name) = database_in(s);
                Some(
                    CatalogueModel { databases: self.databases.insert(db.0 as u64, name), ..self },
                )
            } else {
                None
            },
            WalRecordKind::DropDatabase => if s.len() == 4 {
                let db = DbId(le_value(s) as u32);
                let less = self.without_tables(self.tables_of(db));
                Some(CatalogueModel { databases: self.databases.remove(db.0 as u64), ..less })
            } else {
                None
            },
            WalRecordKind::CreateTable => if s.len() % 8 == 0 && is_table(words_in(s)) {
                let e = table_in(words_in(s));
                Some(CatalogueModel { tables: self.tables.insert(e.table.0 as u64, e), ..self })
            } else {
                None
            },
            WalRecordKind::DropTable => if s.len() == 4 {
                Some(self.without_tables(Set::empty().insert(le_value(s) as u32 as u64)))
            } else {
                None
            },
            WalRecordKind::CreateIndex => if s.len() % 8 == 0 && is_index(words_in(s)) {
                let e = index_in(words_in(s));
                Some(CatalogueModel { indexes: self.indexes.insert(e.index.0 as u64, e), ..self })
            } else {
                None
            },
            WalRecordKind::DropIndex => if s.len() == 4 {
                Some(
                    CatalogueModel {
                        indexes: self.indexes.remove(le_value(s) as u32 as u64),
                        ..self
                    },
                )
            } else {
                None
            },
            _ => Some(self),
        }
    }
}

/// The catalogue the first `n` records leave; `None` when a definition does not read.
pub open spec fn catalogue_of(log: Seq<RecordModel>, n: int) -> Option<CatalogueModel>
    decreases n,
{
    if n <= 0 {
        Some(CatalogueModel::empty())
    } else {
        match catalogue_of(log, n - 1) {
            None => None,
            Some(c) => c.replayed(log[n - 1]),
        }
    }
}

/// The catalogue once the first `n` records were replayed over `held`; `None` when one does not read.
pub open spec fn catalogue_over(
    held: CatalogueModel,
    log: Seq<RecordModel>,
    n: int,
) -> Option<CatalogueModel>
    decreases n,
{
    if n <= 0 {
        Some(held)
    } else {
        match catalogue_over(held, log, n - 1) {
            None => None,
            Some(c) => c.replayed(log[n - 1]),
        }
    }
}

/// Whether after each record the indexes are on tables.
pub open spec fn placed(log: Seq<RecordModel>) -> bool {
    forall|k: int|
        0 <= k <= log.len() && #[trigger] catalogue_of(log, k) is Some ==> (catalogue_of(
            log,
            k,
        )->0).on_tables()
}

impl Catalogue {
    /// A catalogue that holds nothing.
    pub fn new() -> (r: Self)
        ensures
            r@ == CatalogueModel::empty(),
    {
        Catalogue { databases: OrdMap::new(), tables: OrdMap::new(), indexes: OrdMap::new() }
    }

    /// The tables of `db`.
    fn tables_of(&self, db: DbId) -> (r: Vec<u64>)
        ensures
            forall|t: u64| #[trigger] r@.contains(t) <==> self@.tables_of(db).contains(t),
    {
        let keys: Vec<u64> = self.tables.keys();
        let mut found: Vec<u64> = Vec::new();
        for i in 0..keys.len()
            invariant
                forall|k: u64| #[trigger] keys@.contains(k) <==> self.tables@.contains_key(k),
                forall|t: u64| #[trigger]
                    found@.contains(t) <==> keys@.take(i as int).contains(t) && self.tables@[t].db
                        == db,
        {
            let key: u64 = keys[i];
            assert(keys@.contains(key));
            let ghost before = found@;
            match self.tables.get(key) {
                Some(e) => if e.db == db {
                    found.push(key);
                },
                None => {
                    assert(false);
                },
            }
            proof {
                assert(keys@.take(i + 1) =~= keys@.take(i as int).push(key));
                lemma_push_contains(keys@.take(i as int), key);
                lemma_push_contains(before, key);
            }
        }
        assert(keys@.take(keys@.len() as int) =~= keys@);
        found
    }

    /// Removes tables and their indexes.
    fn remove_tables(&mut self, doomed: &Vec<u64>)
        ensures
            final(self)@ == old(self)@.without_tables(doomed@.to_set()),
    {
        let ghost c = self@;
        let keys: Vec<u64> = self.indexes.keys();
        let mut orphans: Vec<u64> = Vec::new();
        for i in 0..keys.len()
            invariant
                c == self@,
                forall|k: u64| #[trigger] keys@.contains(k) <==> c.indexes.contains_key(k),
                forall|x: u64| #[trigger]
                    orphans@.contains(x) <==> keys@.take(i as int).contains(x) && doomed@.contains(
                        c.indexes[x].table.0 as u64,
                    ),
        {
            let key: u64 = keys[i];
            assert(keys@.contains(key));
            let ghost before = orphans@;
            match self.indexes.get(key) {
                Some(e) => if holds(doomed, e.table.0 as u64) {
                    orphans.push(key);
                },
                None => {
                    assert(false);
                },
            }
            proof {
                assert(keys@.take(i + 1) =~= keys@.take(i as int).push(key));
                lemma_push_contains(keys@.take(i as int), key);
                lemma_push_contains(before, key);
            }
        }
        assert(keys@.take(keys@.len() as int) =~= keys@);
        self.indexes.remove_all(&orphans);
        self.tables.remove_all(doomed);
        proof {
            assert(self@.indexes =~= c.without_tables(doomed@.to_set()).indexes);
            assert(self@ =~= c.without_tables(doomed@.to_set()));
        }
    }

    /// Replays one record of the journal: a definition changes the catalogue, another record
    /// nothing.
    ///
    /// # Errors
    ///
    /// A corruption for a definition that does not read.
    pub fn apply_ddl(&mut self, record: &WalRecord) -> (r: Result<(), InternalError>)
        ensures
            match r {
                Ok(_) => old(self)@.replayed(record@) == Some(final(self)@),
                Err(e) => {
                    &&& old(self)@.replayed(record@) is None
                    &&& final(self)@ == old(self)@
                    &&& e == InternalError::Corruption(
                        Corruption::NotADefinition { bytes: record@.payload.len() as usize },
                    )
                },
            },
    {
        let ghost c = self@;
        let bytes: &[u8] = record.payload.as_slice();
        match record.kind {
            WalRecordKind::CreateDatabase => {
                match read_database(bytes) {
                    Ok((db, name)) => {
                        self.databases.insert(db.0 as u64, name);
                    },
                    Err(e) => {
                        return Err(e);
                    },
                }
            },
            WalRecordKind::DropDatabase => {
                match read_identifier(bytes) {
                    Ok(id) => {
                        let doomed: Vec<u64> = self.tables_of(DbId(id));
                        self.remove_tables(&doomed);
                        let _name: Option<String> = self.databases.remove(id as u64);
                        proof {
                            assert(doomed@.to_set() =~= c.tables_of(DbId(id)));
                        }
                    },
                    Err(e) => {
                        return Err(e);
                    },
                }
            },
            WalRecordKind::CreateTable => {
                match TableEntry::decode(bytes) {
                    Ok(entry) => {
                        self.tables.insert(entry.table.0 as u64, entry);
                    },
                    Err(e) => {
                        return Err(e);
                    },
                }
            },
            WalRecordKind::DropTable => {
                match read_identifier(bytes) {
                    Ok(id) => {
                        let mut doomed: Vec<u64> = Vec::new();
                        doomed.push(id as u64);
                        self.remove_tables(&doomed);
                        proof {
                            assert(doomed@[0] == id as u64);
                            assert(doomed@.to_set() =~= Set::<u64>::empty().insert(id as u64));
                        }
                    },
                    Err(e) => {
                        return Err(e);
                    },
                }
            },
            WalRecordKind::CreateIndex => {
                match IndexEntry::decode(bytes) {
                    Ok(entry) => {
                        self.indexes.insert(entry.index.0 as u64, entry);
                    },
                    Err(e) => {
                        return Err(e);
                    },
                }
            },
            WalRecordKind::DropIndex => {
                match read_identifier(bytes) {
                    Ok(id) => {
                        let _entry: Option<IndexEntry> = self.indexes.remove(id as u64);
                    },
                    Err(e) => {
                        return Err(e);
                    },
                }
            },
            _ => {},
        }
        assert(c.replayed(record@)->0 =~= self@);
        Ok(())
    }

    /// The catalogue with the definitions of the records replayed over it, in order.
    ///
    /// # Errors
    ///
    /// A corruption for the first definition that does not read.
    pub fn redo_ddl(self, records: &Vec<WalRecord>) -> (r: Result<Self, InternalError>)
        ensures
            match r {
                Ok(c) => catalogue_over(self@, records.deep_view(), records@.len() as int) == Some(
                    c@,
                ),
                Err(e) => exists|n: int|
                    {
                        &&& 0 <= n < records@.len()
                        &&& #[trigger] catalogue_over(self@, records.deep_view(), n) is Some
                        &&& catalogue_over(self@, records.deep_view(), n + 1) is None
                        &&& e == InternalError::Corruption(
                            Corruption::NotADefinition {
                                bytes: records.deep_view()[n].payload.len() as usize,
                            },
                        )
                    },
            },
    {
        let ghost log = records.deep_view();
        let ghost held = self@;
        let mut catalogue = self;
        for n in 0..records.len()
            invariant
                log == records.deep_view(),
                held == self@,
                catalogue_over(held, log, n as int) == Some(catalogue@),
        {
            assert(log[n as int] == records@[n as int]@);
            assert(catalogue_over(held, log, n + 1) == catalogue@.replayed(log[n as int]));
            match catalogue.apply_ddl(&records[n]) {
                Ok(_) => {},
                Err(e) => {
                    return Err(e);
                },
            }
        }
        Ok(catalogue)
    }
}

/// Whether a list holds a number.
fn holds(list: &Vec<u64>, x: u64) -> (r: bool)
    ensures
        r == list@.contains(x),
{
    for i in 0..list.len()
        invariant
            forall|k: int| 0 <= k < i ==> list@[k] != x,
    {
        if list[i] == x {
            assert(list@[i as int] == x);
            return true;
        }
    }
    false
}

} // verus!
