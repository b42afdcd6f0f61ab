//! What the data file of an instance holds when the instance is opened: the definitions as a
//! checkpoint left them, and the records of the tables that reached the file.

use vstd::prelude::*;

use super::catalogue::{catalogue_over, Catalogue, CatalogueModel};
use super::contents::{contents, distinct, StoredModel};
use super::heap::{Heap, HeapModel};
use super::heap_reads::short_record;
use super::redo::Redone;
use super::wal::RecordModel;
use crate::error::InternalError;
use crate::ordmap::OrdMap;

verus! {

/// What the data file of an instance holds.
#[derive(Debug)]
pub struct Data {
    /// The definitions.
    pub catalogue: Catalogue,
    /// The records of the tables, by table.
    pub heaps: OrdMap<Heap>,
}

/// What a [`Data`] stands for.
#[verifier::ext_equal]
pub struct DataModel {
    /// The definitions.
    pub catalogue: CatalogueModel,
    /// The records of the tables.
    pub heaps: Map<u64, HeapModel>,
}

impl View for Data {
    type V = DataModel;

    open spec fn view(&self) -> DataModel {
        DataModel { catalogue: self.catalogue@, heaps: self.heaps@ }
    }
}

impl DataModel {
    /// A data file without pages.
    pub open spec fn empty() -> DataModel {
        DataModel { catalogue: CatalogueModel::empty(), heaps: Map::empty() }
    }

    /// Whether the definitions and the records are filed under what they are of, and no heap holds a
    /// version twice.
    pub open spec fn wf(self) -> bool {
        &&& self.catalogue.filed()
        &&& forall|t: u64| #[trigger]
            self.heaps.contains_key(t) ==> {
                &&& self.heaps[t].table.0 as u64 == t
                &&& self.heaps[t].wf()
                &&& distinct(self.heaps[t].records)
            }
    }

    /// The definitions once the first `n` records of the journal were replayed over those of the
    /// file; `None` when one does not read.
    pub open spec fn defines(self, log: Seq<RecordModel>, n: int) -> Option<CatalogueModel> {
        catalogue_over(self.catalogue, log, n)
    }

    /// A redo that has not begun, over the tables of a catalogue as the file holds them.
    pub open spec fn redo_start(self, c: CatalogueModel) -> Redone {
        redo_start(self.heaps, c)
    }
}

/// The versions of a table, none if it has no heap.
pub open spec fn contents_in(heaps: Map<u64, HeapModel>, t: u64) -> Map<(u64, u64), StoredModel> {
    if heaps.contains_key(t) {
        contents(heaps[t].records)
    } else {
        Map::empty()
    }
}

/// The next address of a table.
pub open spec fn next_in(heaps: Map<u64, HeapModel>, t: u64) -> u64 {
    if heaps.contains_key(t) {
        heaps[t].next
    } else {
        1
    }
}

/// A redo that has not begun, over the tables of a catalogue, with the versions of their heaps.
pub open spec fn redo_start(heaps: Map<u64, HeapModel>, c: CatalogueModel) -> Redone {
    Redone {
        tables: Map::new(|t: u64| c.tables.contains_key(t), |t: u64| contents_in(heaps, t)),
        applied: 0,
        skipped: 0,
        unplaced: 0,
    }
}

/// Whether a record of a table of a catalogue is too short for the prefix of a version, the error
/// being `e`.
pub open spec fn short_held(
    heaps: Map<u64, HeapModel>,
    c: CatalogueModel,
    e: InternalError,
) -> bool {
    exists|t: u64| #[trigger]
        heaps.contains_key(t) && c.tables.contains_key(t) && short_record(heaps[t].records, e)
}

impl Data {
    /// A data file without pages.
    pub fn empty() -> (r: Self)
        ensures
            r@ == DataModel::empty(),
            r@.wf(),
    {
        let r = Data { catalogue: Catalogue::new(), heaps: OrdMap::new() };
        assert(r@ =~= DataModel::empty());
        r
    }
}

} // verus!
