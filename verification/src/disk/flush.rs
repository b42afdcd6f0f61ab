//! What a checkpoint leaves in the data file: the definitions, and the tables that no transaction
//! still running has written in.

use vstd::prelude::*;

use super::bytes::put_bytes;
use super::catalogue::catalogue_over;
use super::contents::{
    contents, distinct, lemma_contents_at, lemma_placed, place, sound, stored_in, StoredModel,
};
use super::data::{Data, DataModel};
use super::heap::{Heap, HeapModel, Rid};
use super::heap_table::lemma_parts;
use super::journal::{Journal, JournalModel};
use super::ledger::committed;
use super::open::{lemma_filed, undefined_at};
use super::storage::{DiskModel, DiskStorage};
use super::version::VersionHeader;
use super::wal::WalRecord;
use crate::error::{Corruption, InternalError};
use crate::ordmap::{increasing, OrdMap};
use crate::snapshot::TxnStatus;

verus! {

/// Whether the transactions a version names committed.
pub open spec fn version_settled(v: StoredModel, j: JournalModel) -> bool {
    &&& committed(j, v.header.xmin)
    &&& v.header.xmax is Some ==> committed(j, v.header.xmax->0)
}

/// Whether the transactions that the versions of a table name committed.
pub open spec fn settled(c: Map<(u64, u64), StoredModel>, j: JournalModel) -> bool {
    forall|k: (u64, u64)| #[trigger] c.contains_key(k) ==> version_settled(c[k], j)
}

impl DiskModel {
    /// Whether the transactions that the versions of the table `t` name committed.
    pub open spec fn table_settled(self, t: u64) -> bool {
        settled(contents(self.tables[t].store.records), self.journal)
    }

    /// The heap of a table.
    pub open spec fn heap_of(self, t: u64) -> HeapModel {
        HeapModel {
            table: self.tables[t].store.table,
            records: self.tables[t].store.records,
            next: self.tables[t].store.next,
        }
    }

    /// The heaps of the data file once it was written: those of the tables that are settled, and of
    /// the others what the file held.
    pub open spec fn flushed_heaps(self, held: Map<u64, HeapModel>) -> Map<u64, HeapModel> {
        Map::new(
            |t: u64|
                self.tables.contains_key(t) && (self.table_settled(t) || held.contains_key(t)),
            |t: u64|
                if self.table_settled(t) {
                    self.heap_of(t)
                } else {
                    held[t]
                },
        )
    }

    /// Whether `data` is what the data file holds once it was written over `held`.
    pub open spec fn flushes(self, held: DataModel, data: DataModel) -> bool {
        let n = self.journal.log.len() as int;
        &&& held.defines(self.journal.log, n) == Some(data.catalogue)
        &&& data.heaps == self.flushed_heaps(held.heaps)
    }
}

impl Heap {
    /// A heap with the same records at the same addresses.
    pub fn duplicate(&self) -> (r: Heap)
        ensures
            r.deep_view() == self.deep_view(),
    {
        let addresses: Vec<u64> = self.scan();
        let mut records: OrdMap<Vec<u8>> = OrdMap::new();
        for i in 0..addresses.len()
            invariant
                forall|rid: u64| #[trigger] addresses@.contains(rid) <==> self@.contains_key(rid),
                forall|rid: u64| #[trigger]
                    records@.contains_key(rid) ==> self@.contains_key(rid) && records@[rid]
                        == self@[rid],
                forall|j: int| 0 <= j < i ==> records@.contains_key(#[trigger] addresses@[j]),
        {
            let rid: u64 = addresses[i];
            assert(addresses@.contains(rid));
            if let Some(bytes) = self.get(Rid(rid)) {
                let mut copy: Vec<u8> = Vec::with_capacity(bytes.len());
                put_bytes(&mut copy, bytes.as_slice());
                assert(copy.deep_view() =~= self@[rid]);
                records.insert(rid, copy);
            }
        }
        assert forall|rid: u64| self@.contains_key(rid) implies records@.contains_key(rid) by {
            assert(addresses@.contains(rid));
            let j = choose|j: int| 0 <= j < addresses@.len() && addresses@[j] == rid;
            assert(records@.contains_key(addresses@[j]));
        }
        assert(records@ =~= self@);
        Heap { table: self.table, records, next: self.next }
    }

    /// Whether the transactions that the versions of the heap name committed.
    pub fn is_settled(&self, journal: &Journal) -> (r: bool)
        requires
            sound(self@),
        ensures
            r == settled(contents(self@), journal@),
    {
        let addresses: Vec<u64> = self.scan();
        for i in 0..addresses.len()
            invariant
                sound(self@),
                forall|rid: u64| #[trigger] addresses@.contains(rid) <==> self@.contains_key(rid),
                forall|j: int|
                    0 <= j < i ==> version_settled(
                        stored_in(self@[#[trigger] addresses@[j]]),
                        journal@,
                    ),
        {
            let rid: u64 = addresses[i];
            assert(addresses@.contains(rid));
            proof {
                lemma_contents_at(self@, rid);
            }
            if let Some(bytes) = self.get(Rid(rid)) {
                if let Ok(header) = VersionHeader::read_from(bytes.as_slice()) {
                    assert(header == stored_in(self@[rid]).header);
                    if journal.txn_status(header.xmin) != TxnStatus::Committed {
                        return false;
                    }
                    if let Some(xmax) = header.xmax {
                        if journal.txn_status(xmax) != TxnStatus::Committed {
                            return false;
                        }
                    }
                }
            }
        }
        assert forall|k: (u64, u64)| #[trigger] contents(self@).contains_key(k) implies version_settled(
            contents(self@)[k],
            journal@,
        ) by {
            lemma_placed(self@, k);
            let rid = place(self@, k);
            assert(addresses@.contains(rid));
            let j = choose|j: int| 0 <= j < addresses@.len() && addresses@[j] == rid;
            assert(version_settled(stored_in(self@[addresses@[j]]), journal@));
        }
        true
    }
}

impl DiskStorage {
    /// What the data file holds once a checkpoint wrote to it, `held` being what it held: the
    /// definitions of the journal, and the heaps of the tables. A table in which a transaction that
    /// has not committed wrote keeps what the file held of it.
    ///
    /// # Errors
    ///
    /// A corruption for the first definition of the journal that does not read.
    pub fn flushed(&self, held: Data) -> (r: Result<Data, InternalError>)
        requires
            self.wf(),
            held@.wf(),
        ensures
            match r {
                Ok(data) => data@.wf() && self@.flushes(held@, data@),
                Err(e) => exists|k: int| #[trigger] undefined_at(held@, self@.journal.log, k, e),
            },
    {
        let ghost before = held@;
        let ghost log = self@.journal.log;
        let Data { catalogue, heaps: mut old_heaps } = held;
        let records: Vec<WalRecord> = self.journal.wal.iter();
        assert(records.deep_view() == log);
        let catalogue = match catalogue.redo_ddl(&records) {
            Ok(catalogue) => catalogue,
            Err(e) => {
                proof {
                    let k = choose|k: int|
                        {
                            &&& 0 <= k < records@.len()
                            &&& #[trigger] catalogue_over(before.catalogue, log, k) is Some
                            &&& catalogue_over(before.catalogue, log, k + 1) is None
                            &&& e == InternalError::Corruption(
                                Corruption::NotADefinition {
                                    bytes: log[k].payload.len() as usize,
                                },
                            )
                        };
                    assert(undefined_at(before, log, k, e));
                }
                return Err(e);
            },
        };
        let ghost flushed = self@.flushed_heaps(before.heaps);
        let tables: Vec<u64> = self.tables.keys();
        let mut heaps: OrdMap<Heap> = OrdMap::new();
        for i in 0..tables.len()
            invariant
                self.wf(),
                flushed == self@.flushed_heaps(before.heaps),
                increasing(tables@),
                forall|t: u64| #[trigger] tables@.contains(t) <==> self@.tables.contains_key(t),
                forall|t: u64| #[trigger]
                    heaps@.contains_key(t) ==> flushed.contains_key(t) && heaps@[t] == flushed[t],
                forall|j: int|
                    0 <= j < i ==> heaps@.contains_key(#[trigger] tables@[j])
                        == flushed.contains_key(tables@[j]),
                forall|j: int|
                    #![trigger tables@[j]]
                    i <= j < tables@.len() ==> {
                        &&& old_heaps@.contains_key(tables@[j]) == before.heaps.contains_key(
                            tables@[j],
                        )
                        &&& old_heaps@.contains_key(tables@[j]) ==> old_heaps@[tables@[j]]
                            == before.heaps[tables@[j]]
                    },
        {
            let t: u64 = tables[i];
            assert(tables@.contains(t));
            if let Some(table) = self.tables.get(t) {
                proof {
                    lemma_parts(table.store);
                    assert(self@.tables[t].store == table.store.deep_view());
                }
                if table.store.heap.is_settled(&self.journal) {
                    let heap = table.store.heap.duplicate();
                    assert(heap.deep_view() == self@.heap_of(t));
                    heaps.insert(t, heap);
                } else {
                    if let Some(heap) = old_heaps.remove(t) {
                        heaps.insert(t, heap);
                    }
                }
            }
        }
        proof {
            assert forall|t: u64| flushed.contains_key(t) implies heaps@.contains_key(t) by {
                assert(tables@.contains(t));
                let j = choose|j: int| 0 <= j < tables@.len() && tables@[j] == t;
                assert(heaps@.contains_key(tables@[j]));
            }
            assert(heaps@ =~= flushed);
        }
        let data = Data { catalogue, heaps };
        proof {
            lemma_filed(before, log, log.len() as int);
            assert(data@.catalogue.filed());
            assert forall|t: u64| #[trigger] data@.heaps.contains_key(t) implies {
                &&& data@.heaps[t].table.0 as u64 == t
                &&& data@.heaps[t].wf()
                &&& distinct(data@.heaps[t].records)
            } by {
                assert(self@.tables.contains_key(t));
                assert(self@.tables[t].store.wf());
            }
        }
        Ok(data)
    }
}

} // verus!
