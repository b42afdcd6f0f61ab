//! The records of one table, by address.

use vstd::prelude::*;

use super::bytes::put_bytes;
use crate::error::{Bug, InternalError};
use crate::ids::TableId;
use crate::ordmap::OrdMap;

verus! {

/// Address of a record in a heap. An address is not handed out twice.
#[derive(Debug, Clone, Copy, PartialEq, Eq, PartialOrd, Ord, Hash, Structural)]
pub struct Rid(pub u64);

impl DeepView for Rid {
    type V = Rid;

    open spec fn deep_view(&self) -> Rid {
        *self
    }
}

/// The records of one table. A record is written, deleted, or replaced at its address.
#[derive(Debug)]
pub struct Heap {
    /// The table the records belong to.
    pub table: TableId,
    /// The records, by address.
    pub records: OrdMap<Vec<u8>>,
    /// The next address to hand out.
    pub next: u64,
}

impl View for Heap {
    type V = Map<u64, Seq<u8>>;

    open spec fn view(&self) -> Map<u64, Seq<u8>> {
        self.records@
    }
}

/// What a [`Heap`] stands for.
#[verifier::ext_equal]
pub struct HeapModel {
    /// The table.
    pub table: TableId,
    /// The records.
    pub records: Map<u64, Seq<u8>>,
    /// The next address.
    pub next: u64,
}

impl HeapModel {
    /// Whether every record sits at an address already handed out.
    pub open spec fn wf(self) -> bool {
        forall|rid: u64| #[trigger] self.records.contains_key(rid) ==> rid < self.next
    }
}

impl DeepView for Heap {
    type V = HeapModel;

    open spec fn deep_view(&self) -> HeapModel {
        HeapModel { table: self.table, records: self@, next: self.next }
    }
}

impl Heap {
    /// Whether every record sits at an address already handed out.
    pub open spec fn wf(&self) -> bool {
        forall|rid: u64| #[trigger] self@.contains_key(rid) ==> rid < self.next
    }

    /// An empty heap.
    pub fn create(table: TableId) -> (r: Self)
        ensures
            r.wf(),
            r@ == Map::<u64, Seq<u8>>::empty(),
            r.table == table,
            r.next == 1,
    {
        Heap { table, records: OrdMap::new(), next: 1 }
    }

    /// Writes a record and answers its address.
    ///
    /// # Errors
    ///
    /// A bug when there is no address left.
    pub fn insert(&mut self, bytes: &[u8]) -> (r: Result<Rid, InternalError>)
        requires
            old(self).wf(),
        ensures
            final(self).wf(),
            final(self).table == old(self).table,
            match r {
                Ok(rid) => {
                    &&& rid.0 == old(self).next
                    &&& !old(self)@.contains_key(rid.0)
                    &&& final(self).next == old(self).next + 1
                    &&& final(self)@ == old(self)@.insert(rid.0, bytes@)
                },
                Err(e) => {
                    &&& old(self).next == u64::MAX
                    &&& e == InternalError::Bug(Bug::HeapFull(old(self).table))
                    &&& *final(self) == *old(self)
                },
            },
    {
        let rid: u64 = self.next;
        let next: u64 = match rid.checked_add(1) {
            Some(next) => next,
            None => {
                return Err(InternalError::Bug(Bug::HeapFull(self.table)));
            },
        };
        let mut copy: Vec<u8> = Vec::with_capacity(bytes.len());
        put_bytes(&mut copy, bytes);
        assert(copy.deep_view() =~= bytes@);
        let ghost before = self@;
        self.records.insert(rid, copy);
        self.next = next;
        assert forall|r: u64| #[trigger] self@.contains_key(r) implies r < self.next by {
            assert(r != rid ==> before.contains_key(r));
        }
        Ok(Rid(rid))
    }

    /// The record at `rid`, if there is one.
    pub fn get(&self, rid: Rid) -> (r: Option<&Vec<u8>>)
        ensures
            r is Some <==> self@.contains_key(rid.0),
            r matches Some(bytes) ==> bytes@ == self@[rid.0],
    {
        match self.records.get(rid.0) {
            Some(bytes) => {
                assert(bytes.deep_view() =~= bytes@);
                Some(bytes)
            },
            None => None,
        }
    }

    /// Deletes the record at `rid` and writes `bytes` at the address it frees.
    pub fn replace(&mut self, rid: Rid, bytes: Vec<u8>)
        requires
            old(self).wf(),
            old(self)@.contains_key(rid.0),
        ensures
            final(self).wf(),
            final(self).table == old(self).table,
            final(self).next == old(self).next,
            final(self)@ == old(self)@.insert(rid.0, bytes@),
    {
        let ghost before = self@;
        assert(bytes.deep_view() =~= bytes@);
        self.records.insert(rid.0, bytes);
        assert forall|r: u64| #[trigger] self@.contains_key(r) implies r < self.next by {
            assert(before.contains_key(r));
        }
    }

    /// Deletes the record at `rid` and answers whether there was one.
    pub fn delete(&mut self, rid: Rid) -> (r: bool)
        requires
            old(self).wf(),
        ensures
            final(self).wf(),
            final(self).table == old(self).table,
            final(self).next == old(self).next,
            r == old(self)@.contains_key(rid.0),
            final(self)@ == old(self)@.remove(rid.0),
    {
        let ghost before = self@;
        let found: bool = self.records.remove(rid.0).is_some();
        assert forall|r: u64| #[trigger] self@.contains_key(r) implies r < self.next by {
            assert(before.contains_key(r));
        }
        found
    }

    /// The addresses of the records, in increasing order.
    pub fn scan(&self) -> (r: Vec<u64>)
        ensures
            crate::ordmap::increasing(r@),
            forall|rid: u64| #[trigger] r@.contains(rid) <==> self@.contains_key(rid),
    {
        self.records.keys()
    }
}

} // verus!
