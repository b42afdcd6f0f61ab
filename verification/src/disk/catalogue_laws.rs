//! The definitions of a journal may be replayed over a catalogue that holds some of them already.

use vstd::prelude::*;

use super::catalogue::{catalogue_of, catalogue_over, placed, CatalogueModel};
use super::definitions::{database_in, index_in, table_in, words_in};
use super::wal::{RecordModel, WalRecordKind};

verus! {

/// Whether a record defines the database `x`.
spec fn makes_database(r: RecordModel, x: u64) -> bool {
    r.kind == WalRecordKind::CreateDatabase && database_in(r.payload).0.0 as u64 == x
}

/// Whether a record defines the table `x`.
spec fn makes_table(r: RecordModel, x: u64) -> bool {
    r.kind == WalRecordKind::CreateTable && table_in(words_in(r.payload)).table.0 as u64 == x
}

/// Whether a record defines the index `x`.
spec fn makes_index(r: RecordModel, x: u64) -> bool {
    r.kind == WalRecordKind::CreateIndex && index_in(words_in(r.payload)).index.0 as u64 == x
}

/// Whether one of the first `n` records defines the database `x`.
spec fn database_made(log: Seq<RecordModel>, n: int, x: u64) -> bool {
    exists|i: int| 0 <= i < n && makes_database(#[trigger] log[i], x)
}

/// Whether one of the first `n` records defines the table `x`.
spec fn table_made(log: Seq<RecordModel>, n: int, x: u64) -> bool {
    exists|i: int| 0 <= i < n && makes_table(#[trigger] log[i], x)
}

/// Whether one of the first `n` records defines the index `x`.
spec fn index_made(log: Seq<RecordModel>, n: int, x: u64) -> bool {
    exists|i: int| 0 <= i < n && makes_index(#[trigger] log[i], x)
}

/// Whether everything a catalogue holds is defined by one of the first `n` records.
spec fn all_made(log: Seq<RecordModel>, n: int, c: CatalogueModel) -> bool {
    &&& forall|x: u64| #[trigger] c.databases.contains_key(x) ==> database_made(log, n, x)
    &&& forall|x: u64| #[trigger] c.tables.contains_key(x) ==> table_made(log, n, x)
    &&& forall|x: u64| #[trigger] c.indexes.contains_key(x) ==> index_made(log, n, x)
}

/// Whether `r` holds what `c` holds, and beyond it nothing that one of the first `n` records defines.
spec fn ahead(log: Seq<RecordModel>, n: int, c: CatalogueModel, r: CatalogueModel) -> bool {
    &&& forall|x: u64| #[trigger]
        c.databases.contains_key(x) ==> r.databases.contains_key(x) && r.databases[x]
            == c.databases[x]
    &&& forall|x: u64| #[trigger]
        c.tables.contains_key(x) ==> r.tables.contains_key(x) && r.tables[x] == c.tables[x]
    &&& forall|x: u64| #[trigger]
        c.indexes.contains_key(x) ==> r.indexes.contains_key(x) && r.indexes[x] == c.indexes[x]
    &&& forall|x: u64| #[trigger]
        r.databases.contains_key(x) && !c.databases.contains_key(x) ==> !database_made(log, n, x)
    &&& forall|x: u64| #[trigger]
        r.tables.contains_key(x) && !c.tables.contains_key(x) ==> !table_made(log, n, x)
    &&& forall|x: u64| #[trigger]
        r.indexes.contains_key(x) && !c.indexes.contains_key(x) ==> !index_made(log, n, x)
}

/// A catalogue holds nothing its journal does not define.
proof fn lemma_all_made(log: Seq<RecordModel>, n: int)
    requires
        0 <= n <= log.len(),
        catalogue_of(log, n) is Some,
    ensures
        all_made(log, n, catalogue_of(log, n)->0),
    decreases n,
{
    if n > 0 {
        lemma_all_made(log, n - 1);
        let b = catalogue_of(log, n - 1)->0;
        let c = catalogue_of(log, n)->0;
        let r = log[n - 1];
        assert forall|x: u64| #[trigger] c.databases.contains_key(x) implies database_made(
            log,
            n,
            x,
        ) by {
            if b.databases.contains_key(x) {
                assert(database_made(log, n - 1, x));
            } else {
                assert(makes_database(r, x));
            }
        }
        assert forall|x: u64| #[trigger] c.tables.contains_key(x) implies table_made(log, n, x) by {
            if b.tables.contains_key(x) {
                assert(table_made(log, n - 1, x));
            } else {
                assert(makes_table(r, x));
            }
        }
        assert forall|x: u64| #[trigger] c.indexes.contains_key(x) implies index_made(log, n, x) by {
            if b.indexes.contains_key(x) {
                assert(index_made(log, n - 1, x));
            } else {
                assert(makes_index(r, x));
            }
        }
    }
}

/// One more record keeps a catalogue ahead of another.
proof fn lemma_ahead_step(log: Seq<RecordModel>, n: int, c: CatalogueModel, r: CatalogueModel)
    requires
        0 <= n < log.len(),
        c.on_tables(),
        ahead(log, n, c, r),
        c.replayed(log[n]) is Some,
    ensures
        r.replayed(log[n]) is Some,
        ahead(log, n + 1, c.replayed(log[n])->0, r.replayed(log[n])->0),
{
    let w = log[n];
    let d = c.replayed(w)->0;
    let s = r.replayed(w)->0;
    assert forall|x: u64| #[trigger] d.indexes.contains_key(x) implies s.indexes.contains_key(x)
        && s.indexes[x] == d.indexes[x] by {
        if c.indexes.contains_key(x) {
            assert(r.indexes.contains_key(x));
            assert(c.tables.contains_key(c.indexes[x].table.0 as u64));
        }
    }
    assert forall|x: u64| #[trigger] d.tables.contains_key(x) implies s.tables.contains_key(x)
        && s.tables[x] == d.tables[x] by {
        if c.tables.contains_key(x) {
            assert(r.tables.contains_key(x));
        }
    }
    assert forall|x: u64| #[trigger] d.databases.contains_key(x) implies s.databases.contains_key(x)
        && s.databases[x] == d.databases[x] by {
        if c.databases.contains_key(x) {
            assert(r.databases.contains_key(x));
        }
    }
    assert forall|x: u64| #[trigger]
        s.databases.contains_key(x) && !d.databases.contains_key(x) implies !database_made(
        log,
        n + 1,
        x,
    ) by {
        assert(r.databases.contains_key(x) && !c.databases.contains_key(x));
        assert(!database_made(log, n, x));
        assert(!makes_database(w, x));
    }
    assert forall|x: u64| #[trigger]
        s.tables.contains_key(x) && !d.tables.contains_key(x) implies !table_made(log, n + 1, x) by {
        assert(r.tables.contains_key(x));
        if c.tables.contains_key(x) {
            assert(r.tables[x] == c.tables[x]);
        }
        assert(!table_made(log, n, x));
        assert(!makes_table(w, x));
    }
    assert forall|x: u64| #[trigger]
        s.indexes.contains_key(x) && !d.indexes.contains_key(x) implies !index_made(log, n + 1, x) by {
        assert(r.indexes.contains_key(x));
        if c.indexes.contains_key(x) {
            assert(r.indexes[x] == c.indexes[x]);
            assert(c.tables.contains_key(c.indexes[x].table.0 as u64));
        }
        assert(!index_made(log, n, x));
        assert(!makes_index(w, x));
    }
}

/// The replay over a catalogue of the journal is ahead of the replay over none.
proof fn lemma_ahead(log: Seq<RecordModel>, held: CatalogueModel, n: int)
    requires
        0 <= n <= log.len(),
        placed(log),
        catalogue_of(log, n) is Some,
    ensures
        catalogue_over(held, log, n) matches Some(r) && ahead(log, n, catalogue_of(log, n)->0, r),
    decreases n,
{
    if n > 0 {
        lemma_ahead(log, held, n - 1);
        lemma_ahead_step(
            log,
            n - 1,
            catalogue_of(log, n - 1)->0,
            catalogue_over(held, log, n - 1)->0,
        );
    }
}

/// Replaying the definitions of a journal over a catalogue that holds those of its first records
/// leaves the catalogue of the journal: what is there already changes nothing.
pub proof fn law_definitions_may_be_replayed(log: Seq<RecordModel>, held: CatalogueModel)
    requires
        placed(log),
        catalogue_of(log, log.len() as int) is Some,
        exists|d: int| 0 <= d <= log.len() && #[trigger] catalogue_of(log, d) == Some(held),
    ensures
        catalogue_over(held, log, log.len() as int) == catalogue_of(log, log.len() as int),
{
    let n = log.len() as int;
    let d = choose|d: int| 0 <= d <= log.len() && #[trigger] catalogue_of(log, d) == Some(held);
    lemma_ahead(log, held, n);
    lemma_kept_made(log, held, d, n);
    let c = catalogue_of(log, n)->0;
    let r = catalogue_over(held, log, n)->0;
    assert(r.databases =~= c.databases);
    assert(r.tables =~= c.tables);
    assert(r.indexes =~= c.indexes);
}

/// What a replay over a catalogue of the journal holds, a record of the journal defines.
proof fn lemma_kept_made(log: Seq<RecordModel>, held: CatalogueModel, d: int, n: int)
    requires
        0 <= d <= log.len(),
        0 <= n <= log.len(),
        catalogue_of(log, d) == Some(held),
        catalogue_over(held, log, n) is Some,
    ensures
        all_made(log, log.len() as int, catalogue_over(held, log, n)->0),
    decreases n,
{
    let all = log.len() as int;
    if n == 0 {
        lemma_all_made(log, d);
        assert forall|x: u64| #[trigger] held.databases.contains_key(x) implies database_made(
            log,
            all,
            x,
        ) by {
            assert(database_made(log, d, x));
        }
        assert forall|x: u64| #[trigger] held.tables.contains_key(x) implies table_made(
            log,
            all,
            x,
        ) by {
            assert(table_made(log, d, x));
        }
        assert forall|x: u64| #[trigger] held.indexes.contains_key(x) implies index_made(
            log,
            all,
            x,
        ) by {
            assert(index_made(log, d, x));
        }
    } else {
        lemma_kept_made(log, held, d, n - 1);
        let b = catalogue_over(held, log, n - 1)->0;
        let c = catalogue_over(held, log, n)->0;
        assert forall|x: u64| #[trigger] c.databases.contains_key(x) implies database_made(
            log,
            all,
            x,
        ) by {
            if !b.databases.contains_key(x) {
                assert(makes_database(log[n - 1], x));
            }
        }
        assert forall|x: u64| #[trigger] c.tables.contains_key(x) implies table_made(log, all, x) by {
            if !b.tables.contains_key(x) {
                assert(makes_table(log[n - 1], x));
            }
        }
        assert forall|x: u64| #[trigger] c.indexes.contains_key(x) implies index_made(log, all, x) by {
            if !b.indexes.contains_key(x) {
                assert(makes_index(log[n - 1], x));
            }
        }
    }
}

} // verus!
