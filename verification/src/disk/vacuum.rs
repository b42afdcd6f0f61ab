//! Taking away the versions no reader can see any more.

use vstd::prelude::*;

use super::contents::{contents, lemma_contents_at, lemma_taken, stored_in, StoredModel};
use super::ends::lemma_same_catalogue_wf;
use super::heap_reads::{in_order, keys_of};
use super::heap_table::{belongs, directs, lemma_parts, HeapTable, StoredVersion};
use super::journal::Journal;
use super::storage::{DiskStorage, DiskTable};
use super::table_model::{key_before, HeapTableModel};
use crate::error::SqlResult;
use crate::ids::{RowId, TxnId};
use crate::ordmap::increasing;
use crate::snapshot::{status_of, TxnStatus};

verus! {

/// Whether a version is out of reach of every reader at or past `horizon`: a committed
/// transaction below it replaced or deleted the version, or its creator rolled back.
pub open spec fn is_dead(v: StoredModel, horizon: TxnId, st: Map<u64, TxnStatus>) -> bool {
    ||| status_of(st, v.header.xmin) == TxnStatus::Aborted
    ||| match v.header.xmax {
        Some(x) => x.0 < horizon.0 && status_of(st, x) == TxnStatus::Committed,
        None => false,
    }
}

impl HeapTableModel {
    /// The table without its dead versions; a row whose most recent version is dead has no current
    /// version any more.
    pub open spec fn vacuumed(self, horizon: TxnId, st: Map<u64, TxnStatus>) -> HeapTableModel {
        HeapTableModel {
            contents: Map::new(
                |k: (u64, u64)|
                    self.contents.contains_key(k) && !is_dead(self.contents[k], horizon, st),
                |k: (u64, u64)| self.contents[k],
            ),
            current: Map::new(
                |row: u64|
                    self.current.contains_key(row) && !is_dead(
                        self.version(RowId(row)),
                        horizon,
                        st,
                    ),
                |row: u64| self.current[row],
            ),
            ..self
        }
    }

    /// The table without the versions of `gone`.
    pub open spec fn without(self, gone: Set<(u64, u64)>) -> HeapTableModel {
        HeapTableModel {
            contents: self.contents.remove_keys(gone),
            current: Map::new(
                |row: u64|
                    self.current.contains_key(row) && !gone.contains((row, self.current[row])),
                |row: u64| self.current[row],
            ),
            ..self
        }
    }
}

impl HeapTable {
    /// Removes the version at the address of `stored`, and its row from the directory if that was
    /// the most recent version.
    fn purge(&mut self, stored: &StoredVersion)
        requires
            old(self).wf(),
            stored.reads(old(self).heap@),
        ensures
            final(self).wf(),
            final(self).shape == old(self).shape,
            final(self).heap@ == old(self).heap@.remove(stored.rid.0),
            final(self)@ == old(self)@.without(Set::empty().insert(stored.key())),
    {
        let ghost before = *self;
        let row: u64 = stored.header.row.0;
        proof {
            lemma_contents_at(self.heap@, stored.rid.0);
            lemma_taken(self.heap@, stored.rid.0);
        }
        let current: bool = match self.state.directory.get(row) {
            Some(rid) => *rid == stored.rid,
            None => false,
        };
        self.heap.delete(stored.rid);
        if current {
            let _rid = self.state.directory.remove(row);
        }
        proof {
            let gone = Set::<(u64, u64)>::empty().insert(stored.key());
            let after = before@.without(gone);
            assert(self@.contents =~= after.contents);
            assert forall|r: u64| #[trigger] before.state.directory@.contains_key(r) implies (
            before.state.directory@[r] == stored.rid <==> (r, before@.current[r])
                == stored.key()) by {
                let at = before.state.directory@[r].0;
                if (r, before@.current[r]) == stored.key() {
                    assert(stored_in(before.heap@[at]).key() == stored_in(
                        before.heap@[stored.rid.0],
                    ).key());
                }
            }
            assert forall|r: u64| #[trigger] self.state.directory@.contains_key(r) implies
                before.state.directory@.contains_key(r) && self.state.directory@[r]
                == before.state.directory@[r] && self.state.directory@[r] != stored.rid by {
                if before.state.directory@[r] == stored.rid {
                    assert(r == row);
                }
            }
            assert(directs(self.state.directory@, self.heap@));
            assert(self@.current =~= after.current);
            assert(self@ =~= after);
            assert(self@.wf()) by {
                assert forall|k: (u64, u64)| #[trigger] self@.contents.contains_key(k) implies
                    before@.contents.contains_key(k) by {}
                assert forall|r: u64| #[trigger] self@.current.contains_key(r) implies
                    self@.contents.contains_key((r, self@.current[r])) by {
                    assert(before@.current.contains_key(r));
                }
            }
        }
    }

    /// Removes the versions that no reader at or past `horizon` can see.
    pub fn vacuum(&mut self, journal: &Journal, horizon: TxnId)
        requires
            old(self).wf(),
        ensures
            final(self).wf(),
            final(self).shape == old(self).shape,
            final(self)@ == old(self)@.vacuumed(horizon, journal@.st()),
    {
        let ghost first = *self;
        let ghost st = journal@.st();
        let list: Vec<StoredVersion> = match self.stored_versions(None) {
            Ok(list) => list,
            Err(_) => {
                assert(false);
                return;
            },
        };
        let ghost mut gone: Set<(u64, u64)> = Set::empty();
        assert(self@ =~= first@.without(gone));
        for i in 0..list.len()
            invariant
                st == journal@.st(),
                self.wf(),
                self.shape == first.shape,
                in_order(list@),
                self@ == first@.without(gone),
                first.wf(),
                forall|k: int|
                    0 <= k < list@.len() ==> (#[trigger] list@[k]).reads(first.heap@)
                        && first@.contents.contains_key(list@[k].key())
                        && first@.contents[list@[k].key()] == stored_in(list@[k].bytes@),
                forall|k: int| i <= k < list@.len() ==> (#[trigger] list@[k]).reads(self.heap@),
                forall|k: (u64, u64)| #[trigger]
                    gone.contains(k) <==> keys_of(list@).take(i as int).contains(k) && is_dead(
                        first@.contents[k],
                        horizon,
                        st,
                    ),
        {
            let version: &StoredVersion = &list[i];
            let ghost key = version.key();
            let ghost was = gone;
            let ghost before = *self;
            let hidden: bool = match version.header.xmax {
                Some(x) => x.0 < horizon.0 && journal.txn_status(x) == TxnStatus::Committed,
                None => false,
            };
            let dead: bool = hidden || journal.txn_status(version.header.xmin)
                == TxnStatus::Aborted;
            proof {
                let a = keys_of(list@).take(i as int);
                let b = keys_of(list@).take(i + 1);
                assert(b =~= a.push(key));
                lemma_push_member(a, key);
            }
            if dead {
                self.purge(version);
                proof {
                    gone = gone.insert(key);
                    assert(self@ =~= first@.without(gone)) by {
                        assert(self@.contents =~= first@.without(gone).contents);
                        assert(self@.current =~= first@.without(gone).current);
                    }
                    assert forall|k: int| i + 1 <= k < list@.len() implies (
                    #[trigger] list@[k]).reads(self.heap@) by {
                        assert(key_before(list@[i as int].key(), list@[k].key()));
                        assert(list@[k].rid.0 != version.rid.0);
                    }
                }
            }
        }
        proof {
            let all = keys_of(list@);
            assert(all.take(list@.len() as int) =~= all);
            assert forall|k: (u64, u64)| #[trigger] first@.contents.contains_key(k) implies
                all.contains(k) by {
                assert(belongs(RowId(k.0), None));
            }
            let after = first@.vacuumed(horizon, st);
            assert(self@.contents =~= after.contents);
            assert forall|row: u64| #[trigger] first@.current.contains_key(row) implies (
            gone.contains((row, first@.current[row])) <==> is_dead(
                first@.version(RowId(row)),
                horizon,
                st,
            )) by {
                assert(first@.contents.contains_key((row, first@.current[row])));
            }
            assert(self@.current =~= after.current);
            assert(self@ =~= after);
        }
    }
}

/// Membership after a push.
proof fn lemma_push_member(s: Seq<(u64, u64)>, x: (u64, u64))
    ensures
        forall|k: (u64, u64)| #[trigger] s.push(x).contains(k) <==> s.contains(k) || k == x,
{
    assert forall|k: (u64, u64)| #[trigger] s.push(x).contains(k) <==> s.contains(k) || k == x by {
        if s.contains(k) {
            let i = choose|i: int| 0 <= i < s.len() && s[i] == k;
            assert(s.push(x)[i] == k);
        }
        if s.push(x).contains(k) {
            let i = choose|i: int| 0 <= i < s.push(x).len() && s.push(x)[i] == k;
            if i < s.len() {
                assert(s[i] == k);
            }
        }
        assert(s.push(x)[s.len() as int] == x);
    }
}

impl DiskStorage {
    /// Removes, in every table, the versions that no reader at or past `horizon` can see. The
    /// entries of the indexes go with them.
    pub fn vacuum(&mut self, horizon: TxnId) -> (r: SqlResult<()>)
        requires
            old(self).wf(),
        ensures
            final(self).wf(),
            final(self).options == old(self).options,
            final(self).recovery == old(self).recovery,
            r is Ok,
            final(self)@.journal == old(self)@.journal,
            old(self)@.same_catalogue(final(self)@),
            forall|t: u64| #[trigger]
                old(self)@.tables.contains_key(t) ==> final(self)@.tables[t].store.model() == old(
                    self)@.tables[t].store.model().vacuumed(horizon, old(self)@.journal.st()),
    {
        let ghost m = self@;
        let ghost st = m.journal.st();
        let keys: Vec<u64> = self.tables.keys();
        for i in 0..keys.len()
            invariant
                self.options == old(self).options,
                self.recovery == old(self).recovery,
                m.wf(),
                st == m.journal.st(),
                self.journal.wf(),
                self@.journal == m.journal,
                m.same_catalogue(self@),
                increasing(keys@),
                forall|k: u64| #[trigger] keys@.contains(k) <==> m.tables.contains_key(k),
                forall|t: u64| #[trigger]
                    self@.tables.contains_key(t) ==> self@.tables[t].store.wf(),
                forall|t: u64| #[trigger]
                    m.tables.contains_key(t) ==> self@.tables[t].store.model() == if keys@.take(
                        i as int,
                    ).contains(t) {
                        m.tables[t].store.model().vacuumed(horizon, st)
                    } else {
                        m.tables[t].store.model()
                    },
        {
            let key: u64 = keys[i];
            let ghost before = self@;
            proof {
                assert(keys@.contains(key));
                assert(m.tables.contains_key(key));
                assert(before.tables.dom().contains(key));
                super::ends::lemma_take_more(keys@, i as int);
            }
            match self.tables.remove(key) {
                Some(held) => {
                    let mut held: DiskTable = held;
                    proof {
                        lemma_parts(held.store);
                    }
                    held.store.vacuum(&self.journal, horizon);
                    proof {
                        lemma_parts(held.store);
                    }
                    let ghost parts = held.deep_view();
                    self.tables.insert(key, held);
                    proof {
                        assert(self@.tables =~= before.tables.insert(key, parts));
                        assert(self@.tables.dom() =~= m.tables.dom());
                        assert forall|t: u64| #[trigger] m.tables.contains_key(t) implies
                            before.tables.contains_key(t) by {
                            assert(before.tables.dom().contains(t));
                        }
                        assert forall|t: u64| #[trigger] self@.tables.contains_key(t) implies
                            self@.tables[t].store.wf() by {
                            if t != key {
                                assert(before.tables.contains_key(t));
                            }
                        }
                    }
                },
                None => {
                    assert(false);
                },
            }
        }
        proof {
            assert(keys@.take(keys@.len() as int) =~= keys@);
            lemma_same_catalogue_wf(m, self@);
        }
        Ok(())
    }
}

} // verus!
