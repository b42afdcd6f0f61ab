//! In-memory representation of a table and of its row versions.

use vstd::prelude::*;

use super::key_order::{Column, KeyOrder};
use super::txn_log::{status_in, statuses, TxnState};
use crate::ids::{DbId, RowId, TxnId};
use crate::ordmap::OrdMap;
use crate::row::Row;
use crate::shape::{TableShape, TableShapeModel};
use crate::snapshot::{status_of, TxnStatus};
use crate::value::ValueModel;

verus! {

/// One version of a logical row: who created it, who (if anyone) deleted or replaced it, and
/// its content.
#[derive(Debug)]
pub struct Version {
    /// The transaction that created this version.
    pub xmin: TxnId,
    /// The transaction that deleted or replaced this version, `None` while it is current.
    pub xmax: Option<TxnId>,
    /// The content of the version, one value per column.
    pub data: Row,
    /// Serial number of the version within its table, unique and never reused. Index entries
    /// name a version by `(RowId, seq)`.
    pub seq: usize,
}

/// What a [`Version`] stands for.
#[verifier::ext_equal]
pub struct VersionModel {
    /// The transaction that created the version.
    pub xmin: TxnId,
    /// The transaction that deleted or replaced it.
    pub xmax: Option<TxnId>,
    /// Its content.
    pub data: Seq<ValueModel>,
    /// Its serial number.
    pub seq: usize,
}

impl View for Version {
    type V = VersionModel;

    open spec fn view(&self) -> VersionModel {
        VersionModel { xmin: self.xmin, xmax: self.xmax, data: self.data@, seq: self.seq }
    }
}

impl DeepView for Version {
    type V = VersionModel;

    open spec fn deep_view(&self) -> VersionModel {
        self@
    }
}

/// A table: its owning database, its shape and every version of every logical row.
#[derive(Debug)]
pub struct Table {
    /// The database the table belongs to.
    pub db: DbId,
    /// The shape the table was created with.
    pub shape: TableShape,
    /// The comparator of the clustered key, if any: the order of a scan.
    pub clustered: Option<KeyOrder>,
    /// The versions of each logical row, oldest first. A row present in the map always has at
    /// least one version.
    pub rows: OrdMap<Vec<Version>>,
    /// The next row identifier to hand out. Only ever grows.
    pub next_row_id: u64,
    /// The next version serial to hand out. Only ever grows.
    pub next_seq: usize,
}

/// What a [`Table`] stands for.
#[verifier::ext_equal]
pub struct TableModel {
    /// The database the table belongs to.
    pub db: DbId,
    /// The shape the table was created with.
    pub shape: TableShapeModel,
    /// The comparator of the clustered key, if any.
    pub clustered: Option<Seq<Column>>,
    /// The versions of each logical row, oldest first.
    pub rows: Map<u64, Seq<VersionModel>>,
    /// The next row identifier to hand out.
    pub next_row_id: u64,
    /// The next version serial to hand out.
    pub next_seq: usize,
}

impl View for Table {
    type V = TableModel;

    open spec fn view(&self) -> TableModel {
        TableModel {
            db: self.db,
            shape: self.shape@,
            clustered: match self.clustered {
                Some(order) => Some(order@),
                None => None,
            },
            rows: self.rows@,
            next_row_id: self.next_row_id,
            next_seq: self.next_seq,
        }
    }
}

impl DeepView for Table {
    type V = TableModel;

    open spec fn deep_view(&self) -> TableModel {
        self@
    }
}

impl VersionModel {
    /// The version with another `xmax`.
    pub open spec fn with_xmax(self, xmax: Option<TxnId>) -> VersionModel {
        VersionModel { xmax, ..self }
    }

    /// Whether `vacuum` discards the version: a committed transaction below the horizon
    /// deleted or replaced it, or its creator rolled back.
    pub open spec fn dead(self, horizon: TxnId, st: Map<u64, TxnStatus>) -> bool {
        ||| (self.xmax matches Some(x) && x.0 < horizon.0 && status_of(st, x)
            == TxnStatus::Committed)
        ||| status_of(st, self.xmin) == TxnStatus::Aborted
    }
}

/// The chain `chain` with `xmax` written on its last version.
pub open spec fn set_last_xmax(chain: Seq<VersionModel>, xmax: Option<TxnId>) -> Seq<VersionModel> {
    chain.drop_last().push(chain.last().with_xmax(xmax))
}

/// The chain of a row after `txn` replaced its last version by `data`, or deleted it.
pub open spec fn superseded(
    chain: Seq<VersionModel>,
    txn: TxnId,
    data: Option<Seq<ValueModel>>,
    seq: usize,
) -> Seq<VersionModel> {
    let marked = set_last_xmax(chain, Some(txn));
    match data {
        Some(d) => marked.push(VersionModel { xmin: txn, xmax: None, data: d, seq }),
        None => marked,
    }
}

/// Whether the chain ends with an update of `txn`: a version it replaced then one it created
/// and left current.
pub open spec fn ends_with_update(chain: Seq<VersionModel>, txn: TxnId) -> bool {
    &&& chain.len() >= 2
    &&& chain[chain.len() - 2].xmax == Some(txn)
    &&& chain.last().xmin == txn
    &&& chain.last().xmax is None
}

/// The chain before the update it ends with.
pub open spec fn update_undone(chain: Seq<VersionModel>) -> Seq<VersionModel> {
    set_last_xmax(chain.drop_last(), None)
}

/// The versions `vacuum` keeps.
pub open spec fn survivors(
    chain: Seq<VersionModel>,
    horizon: TxnId,
    st: Map<u64, TxnStatus>,
) -> Seq<VersionModel> {
    chain.filter(|v: VersionModel| !v.dead(horizon, st))
}

/// The rows `vacuum` leaves: the survivors of each chain, rows left with none gone.
pub open spec fn vacuumed(
    rows: Map<u64, Seq<VersionModel>>,
    horizon: TxnId,
    st: Map<u64, TxnStatus>,
) -> Map<u64, Seq<VersionModel>> {
    Map::new(
        |id: u64| rows.contains_key(id) && survivors(rows[id], horizon, st).len() > 0,
        |id: u64| survivors(rows[id], horizon, st),
    )
}

/// Whether `removed` lists exactly the dead versions of `rows` whose row is in `done`.
pub open spec fn lists_dead(
    removed: Seq<(RowId, VersionModel)>,
    rows: Map<u64, Seq<VersionModel>>,
    horizon: TxnId,
    st: Map<u64, TxnStatus>,
    done: Set<u64>,
) -> bool {
    forall|id: u64, v: VersionModel|
        #[trigger] removed.contains((RowId(id), v)) <==> (done.contains(id) && rows.contains_key(id)
            && rows[id].contains(v) && v.dead(horizon, st))
}

impl TableModel {
    /// The table after `txn` inserted a row holding `data`.
    pub open spec fn insert(self, txn: TxnId, data: Seq<ValueModel>) -> TableModel {
        TableModel {
            rows: self.rows.insert(
                self.next_row_id,
                seq![VersionModel { xmin: txn, xmax: None, data, seq: self.next_seq }],
            ),
            next_row_id: (self.next_row_id + 1) as u64,
            next_seq: (self.next_seq + 1) as usize,
            ..self
        }
    }

    /// The table after `txn` replaced or deleted the row `id`.
    pub open spec fn supersede(self, txn: TxnId, id: RowId, data: Option<Seq<ValueModel>>) -> TableModel {
        TableModel {
            rows: self.rows.insert(id.0, superseded(self.rows[id.0], txn, data, self.next_seq)),
            next_seq: if data is Some {
                (self.next_seq + 1) as usize
            } else {
                self.next_seq
            },
            ..self
        }
    }

    /// The table with other rows.
    pub open spec fn with_rows(self, rows: Map<u64, Seq<VersionModel>>) -> TableModel {
        TableModel { rows, ..self }
    }
}

impl Table {
    /// An empty table of the given shape in database `db`.
    pub fn new(db: DbId, shape: TableShape, clustered: Option<KeyOrder>) -> (r: Self)
        ensures
            r@ == (TableModel {
                db,
                shape: shape@,
                clustered: match clustered {
                    Some(order) => Some(order@),
                    None => None,
                },
                rows: Map::empty(),
                next_row_id: 1,
                next_seq: 1,
            }),
    {
        Table { db, shape, clustered, rows: OrdMap::new(), next_row_id: 1, next_seq: 1 }
    }

    /// Number of columns a row of this table must have.
    pub fn arity(&self) -> (r: usize)
        ensures
            r == self@.shape.columns.len(),
    {
        self.shape.columns.len()
    }

    /// The row identifier the next insert will hand out.
    pub fn peek_row_id(&self) -> (r: RowId)
        ensures
            r == RowId(self@.next_row_id),
    {
        RowId(self.next_row_id)
    }

    /// The serial the next created version will receive.
    pub fn peek_seq(&self) -> (r: usize)
        ensures
            r == self@.next_seq,
    {
        self.next_seq
    }

    /// Adds a new logical row with a single version and returns its fresh identifier.
    pub fn insert(&mut self, txn: TxnId, data: Row) -> (r: RowId)
        requires
            old(self)@.next_row_id < u64::MAX,
            old(self)@.next_seq < usize::MAX,
        ensures
            r == RowId(old(self)@.next_row_id),
            final(self)@ == old(self)@.insert(txn, data@),
    {
        let id: RowId = RowId(self.next_row_id);
        let version = self.new_version(txn, data);
        self.next_row_id = self.next_row_id + 1;
        let chain: Vec<Version> = vec![version];
        assert(chain.deep_view() =~= seq![version@]);
        self.rows.insert(id.0, chain);
        id
    }

    /// Builds the next version `(xmin = txn, xmax = None)` with a fresh serial number.
    fn new_version(&mut self, txn: TxnId, data: Row) -> (r: Version)
        requires
            old(self)@.next_seq < usize::MAX,
        ensures
            r@ == (VersionModel { xmin: txn, xmax: None, data: data@, seq: old(self)@.next_seq }),
            final(self)@ == (TableModel {
                next_seq: (old(self)@.next_seq + 1) as usize,
                ..old(self)@
            }),
    {
        let seq: usize = self.next_seq;
        self.next_seq = self.next_seq + 1;
        Version { xmin: txn, xmax: None, data, seq }
    }

    /// Sets `xmax = txn` on the current version of row `id` and, for an update, chains a new
    /// version holding `data` after it. Returns `false` without touching anything if the row
    /// has no version.
    pub fn supersede(&mut self, txn: TxnId, id: RowId, data: Option<Row>) -> (r: bool)
        requires
            data is Some ==> old(self)@.next_seq < usize::MAX,
        ensures
            r == (old(self)@.rows.contains_key(id.0) && old(self)@.rows[id.0].len() > 0),
            r ==> final(self)@ == old(self)@.supersede(
                txn,
                id,
                match data {
                    Some(row) => Some(row@),
                    None => None,
                },
            ),
            !r ==> final(self)@ == old(self)@,
    {
        let ghost before = self@;
        let mut chain: Vec<Version> = match self.rows.remove(id.0) {
            Some(chain) => chain,
            None => {
                assert(self@ =~= before);
                return false;
            },
        };
        let ghost versions = chain.deep_view();
        match chain.pop() {
            None => {
                self.rows.insert(id.0, chain);
                assert(self@.rows =~= before.rows);
                false
            },
            Some(last) => {
                let marked = Version { xmin: last.xmin, xmax: Some(txn), data: last.data, seq: last.seq };
                chain.push(marked);
                assert(chain.deep_view() =~= set_last_xmax(versions, Some(txn)));
                if let Some(row) = data {
                    let version = self.new_version(txn, row);
                    chain.push(version);
                    assert(chain.deep_view() =~= set_last_xmax(versions, Some(txn)).push(version@));
                }
                self.rows.insert(id.0, chain);
                assert(self@.rows =~= before.rows.insert(id.0, chain.deep_view()));
                true
            },
        }
    }

    /// Removes the logical row `id` and all its versions: the undo of an insert.
    pub fn remove_row(&mut self, id: RowId) -> (r: Option<Vec<Version>>)
        ensures
            r is Some <==> old(self)@.rows.contains_key(id.0),
            r matches Some(chain) ==> chain.deep_view() == old(self)@.rows[id.0],
            final(self)@ == old(self)@.with_rows(old(self)@.rows.remove(id.0)),
    {
        self.rows.remove(id.0)
    }

    /// The most recent version of logical row `id`, `None` if the row is unknown or has been
    /// vacuumed away.
    pub fn latest(&self, id: RowId) -> (r: Option<&Version>)
        ensures
            r is Some <==> self@.rows.contains_key(id.0) && self@.rows[id.0].len() > 0,
            r matches Some(v) ==> v@ == self@.rows[id.0].last(),
    {
        match self.rows.get(id.0) {
            Some(versions) => {
                if versions.len() == 0 {
                    None
                } else {
                    Some(&versions[versions.len() - 1])
                }
            },
            None => None,
        }
    }

    /// Undoes an update by `txn` on row `id`: removes the last version, which `txn` created,
    /// and resets `xmax` on the version before it, which `txn` had replaced. Returns the
    /// removed version, or `None` without touching anything when the chain does not end that
    /// way.
    pub fn undo_update(&mut self, txn: TxnId, id: RowId) -> (r: Option<Version>)
        ensures
            r is Some <==> old(self)@.rows.contains_key(id.0) && ends_with_update(
                old(self)@.rows[id.0],
                txn,
            ),
            r matches Some(v) ==> v@ == old(self)@.rows[id.0].last() && final(self)@ == old(
                self)@.with_rows(
                old(self)@.rows.insert(id.0, update_undone(old(self)@.rows[id.0])),
            ),
            r is None ==> final(self)@ == old(self)@,
    {
        let ghost before = self@;
        let mut chain: Vec<Version> = match self.rows.remove(id.0) {
            Some(chain) => chain,
            None => {
                assert(self@ =~= before);
                return None;
            },
        };
        let ghost versions = chain.deep_view();
        let n: usize = chain.len();
        if n < 2 || chain[n - 2].xmax != Some(txn) || chain[n - 1].xmin != txn || chain[n
            - 1].xmax.is_some() {
            self.rows.insert(id.0, chain);
            assert(self@.rows =~= before.rows);
            return None;
        }
        let created = chain.pop();
        if let Some(replaced) = chain.pop() {
            chain.push(
                Version { xmin: replaced.xmin, xmax: None, data: replaced.data, seq: replaced.seq },
            );
        }
        assert(chain.deep_view() =~= update_undone(versions));
        self.rows.insert(id.0, chain);
        assert(self@.rows =~= before.rows.insert(id.0, update_undone(versions)));
        created
    }

    /// Undoes a delete by `txn` on row `id`: resets `xmax` on the last version. Returns `false`
    /// without touching anything when the last version does not carry `xmax = txn`.
    pub fn undo_delete(&mut self, txn: TxnId, id: RowId) -> (r: bool)
        ensures
            r == (old(self)@.rows.contains_key(id.0) && old(self)@.rows[id.0].len() > 0 && old(
                self)@.rows[id.0].last().xmax == Some(txn)),
            r ==> final(self)@ == old(self)@.with_rows(
                old(self)@.rows.insert(id.0, set_last_xmax(old(self)@.rows[id.0], None)),
            ),
            !r ==> final(self)@ == old(self)@,
    {
        let ghost before = self@;
        let mut chain: Vec<Version> = match self.rows.remove(id.0) {
            Some(chain) => chain,
            None => {
                assert(self@ =~= before);
                return false;
            },
        };
        let ghost versions = chain.deep_view();
        let n: usize = chain.len();
        if n == 0 || chain[n - 1].xmax != Some(txn) {
            self.rows.insert(id.0, chain);
            assert(self@.rows =~= before.rows);
            return false;
        }
        if let Some(deleted) = chain.pop() {
            chain.push(
                Version { xmin: deleted.xmin, xmax: None, data: deleted.data, seq: deleted.seq },
            );
        }
        assert(chain.deep_view() =~= set_last_xmax(versions, None));
        self.rows.insert(id.0, chain);
        assert(self@.rows =~= before.rows.insert(id.0, set_last_xmax(versions, None)));
        true
    }

    /// Discards the versions `vacuum` may discard and the rows left with none, and returns what
    /// it discarded so that the caller drops their index entries.
    pub fn vacuum(&mut self, horizon: TxnId, txns: &OrdMap<TxnState>) -> (r: Vec<(RowId, Version)>)
        ensures
            final(self)@ == old(self)@.with_rows(
                vacuumed(old(self)@.rows, horizon, statuses(txns@)),
            ),
            lists_dead(
                removed_versions(r@),
                old(self)@.rows,
                horizon,
                statuses(txns@),
                old(self)@.rows.dom(),
            ),
    {
        let ghost st = statuses(txns@);
        let ghost before = self@;
        let mut removed: Vec<(RowId, Version)> = Vec::new();
        let keys: Vec<u64> = self.rows.keys();
        let ghost mut done: Set<u64> = Set::empty();
        assert(lists_dead(removed_versions(removed@), before.rows, horizon, st, done));
        assert(self@.rows =~= partly_vacuumed(before.rows, horizon, st, done));
        for k in 0..keys.len()
            invariant
                crate::ordmap::increasing(keys@),
                st == statuses(txns@),
                forall|id: u64| #[trigger] keys@.contains(id) <==> before.rows.contains_key(id),
                forall|id: u64| done.contains(id) <==> keys@.take(k as int).contains(id),
                lists_dead(removed_versions(removed@), before.rows, horizon, st, done),
                self@ == before.with_rows(partly_vacuumed(before.rows, horizon, st, done)),
        {
            let id: u64 = keys[k];
            assert(keys@.contains(id));
            assert(!done.contains(id)) by {
                if keys@.take(k as int).contains(id) {
                    let j = keys@.take(k as int).index_of(id);
                    assert(keys@[j] == id);
                }
            }
            let ghost rows_before = self@.rows;
            let chain: Vec<Version> = match self.rows.remove(id) {
                Some(chain) => chain,
                None => Vec::new(),
            };
            let ghost versions = chain.deep_view();
            assert(versions == before.rows[id]);
            let ghost removed_before = removed_versions(removed@);
            let alive: Vec<Version> = split_dead(id, chain, horizon, txns, &mut removed);
            if alive.len() > 0 {
                self.rows.insert(id, alive);
            }
            proof {
                let now = done.insert(id);
                assert(keys@.take(k + 1) =~= keys@.take(k as int).push(id));
                assert forall|x: u64| now.contains(x) <==> keys@.take(k + 1).contains(x) by {
                    if keys@.take(k as int).contains(x) {
                        let j = keys@.take(k as int).index_of(x);
                        assert(keys@.take(k + 1)[j] == x);
                    }
                    assert(keys@.take(k + 1)[k as int] == id);
                    if keys@.take(k + 1).contains(x) && x != id {
                        let j = keys@.take(k + 1).index_of(x);
                        assert(keys@.take(k as int)[j] == x);
                    }
                }
                assert(self@.rows =~= partly_vacuumed(before.rows, horizon, st, now));
                assert forall|x: u64, v: VersionModel|
                    #[trigger] removed_versions(removed@).contains((RowId(x), v)) <==> (now.contains(x)
                        && before.rows.contains_key(x) && before.rows[x].contains(v) && v.dead(
                        horizon,
                        st,
                    )) by {
                    assert(removed_versions(removed@).contains((RowId(x), v)) <==> (
                    removed_before.contains((RowId(x), v)) || (x == id && versions.contains(v)
                        && v.dead(horizon, st))));
                    assert(removed_before.contains((RowId(x), v)) <==> (done.contains(x)
                        && before.rows.contains_key(x) && before.rows[x].contains(v) && v.dead(
                        horizon,
                        st,
                    )));
                }
                done = now;
            }
        }
        proof {
            assert(keys@.take(keys@.len() as int) =~= keys@);
            assert forall|id: u64| before.rows.contains_key(id) implies done.contains(id) by {
                assert(keys@.contains(id));
            }
            assert(self@.rows =~= vacuumed(before.rows, horizon, st));
            assert(lists_dead(
                removed_versions(removed@),
                before.rows,
                horizon,
                st,
                before.rows.dom(),
            )) by {
                assert forall|x: u64, v: VersionModel|
                    #[trigger] removed_versions(removed@).contains((RowId(x), v)) <==> (
                    before.rows.dom().contains(x) && before.rows.contains_key(x)
                        && before.rows[x].contains(v) && v.dead(horizon, st)) by {
                }
            }
        }
        removed
    }
}

/// The rows of `rows` with the survivors of the chains of `done` in place of those chains.
spec fn partly_vacuumed(
    rows: Map<u64, Seq<VersionModel>>,
    horizon: TxnId,
    st: Map<u64, TxnStatus>,
    done: Set<u64>,
) -> Map<u64, Seq<VersionModel>> {
    Map::new(
        |id: u64|
            rows.contains_key(id) && (done.contains(id) ==> survivors(rows[id], horizon, st).len()
                > 0),
        |id: u64|
            if done.contains(id) {
                survivors(rows[id], horizon, st)
            } else {
                rows[id]
            },
    )
}

/// The versions a list of discarded versions stands for, each with its row.
pub open spec fn removed_versions(removed: Seq<(RowId, Version)>) -> Seq<(RowId, VersionModel)> {
    Seq::new(removed.len(), |i: int| (removed[i].0, removed[i].1@))
}

/// The versions of one row, each with that row.
spec fn tagged(id: u64, versions: Seq<VersionModel>) -> Seq<(RowId, VersionModel)> {
    Seq::new(versions.len(), |i: int| (RowId(id), versions[i]))
}

/// Parts a chain: the versions `vacuum` keeps are returned, the others go to `removed`.
fn split_dead(
    id: u64,
    chain: Vec<Version>,
    horizon: TxnId,
    txns: &OrdMap<TxnState>,
    removed: &mut Vec<(RowId, Version)>,
) -> (alive: Vec<Version>)
    ensures
        alive.deep_view() == survivors(chain.deep_view(), horizon, statuses(txns@)),
        forall|x: u64, v: VersionModel|
            #[trigger] removed_versions(final(removed)@).contains((RowId(x), v)) <==> (
            removed_versions(old(removed)@).contains((RowId(x), v)) || (x == id
                && chain.deep_view().contains(v) && v.dead(horizon, statuses(txns@)))),
{
    let ghost st = statuses(txns@);
    let ghost before = removed_versions(removed@);
    let ghost versions = chain.deep_view();
    let mut alive: Vec<Version> = Vec::new();
    let ghost mut gone: Seq<VersionModel> = Seq::empty();
    proof {
        reveal(Seq::filter);
        assert(alive.deep_view() =~= survivors(versions.take(0), horizon, st));
        assert(removed_versions(removed@) =~= before + tagged(id, gone));
    }
    for version in it: chain
        invariant
            it.seq() == chain@,
            versions == chain.deep_view(),
            st == statuses(txns@),
            alive.deep_view() == survivors(versions.take(it.index() as int), horizon, st),
            removed_versions(removed@) == before + tagged(id, gone),
            forall|v: VersionModel| #[trigger]
                gone.contains(v) <==> (versions.take(it.index() as int).contains(v) && v.dead(
                    horizon,
                    st,
                )),
    {
        let dead: bool = (match version.xmax {
            Some(x) => x.0 < horizon.0 && status_in(txns, x) == TxnStatus::Committed,
            None => false,
        }) || status_in(txns, version.xmin) == TxnStatus::Aborted;
        let ghost n = it.index() as int;
        let ghost model = version@;
        proof {
            assert(versions[n] == model);
            assert(versions.take(n + 1).drop_last() =~= versions.take(n));
            assert(versions.take(n + 1).last() == model);
            reveal(Seq::filter);
            assert(dead == model.dead(horizon, st));
            assert forall|v: VersionModel|
                #[trigger] versions.take(n + 1).contains(v) <==> (versions.take(n).contains(v) || v
                    == model) by {
                if versions.take(n).contains(v) {
                    let j = versions.take(n).index_of(v);
                    assert(versions.take(n + 1)[j] == v);
                }
                assert(versions.take(n + 1)[n] == model);
                if versions.take(n + 1).contains(v) && v != model {
                    let j = versions.take(n + 1).index_of(v);
                    assert(versions.take(n)[j] == v);
                }
            }
        }
        if dead {
            let ghost listed = removed_versions(removed@);
            removed.push((RowId(id), version));
            proof {
                assert(removed_versions(removed@) =~= listed.push((RowId(id), model)));
                assert(tagged(id, gone.push(model)) =~= tagged(id, gone).push((RowId(id), model)));
                let more = gone.push(model);
                assert forall|v: VersionModel| #[trigger] more.contains(v) <==> (gone.contains(v) || v == model) by {
                    if gone.contains(v) {
                        assert(more[gone.index_of(v)] == v);
                    }
                    assert(more[gone.len() as int] == model);
                    if more.contains(v) && v != model {
                        assert(gone[more.index_of(v)] == v);
                    }
                }
                gone = more;
                assert(removed_versions(removed@) =~= before + tagged(id, gone));
            }
        } else {
            let ghost kept = alive.deep_view();
            alive.push(version);
            assert(alive.deep_view() =~= kept.push(model));
        }
    }
    proof {
        assert(versions.take(versions.len() as int) =~= versions);
        let tail = tagged(id, gone);
        assert forall|x: u64, v: VersionModel|
            #[trigger] removed_versions(removed@).contains((RowId(x), v)) <==> (before.contains(
                (RowId(x), v),
            ) || (x == id && versions.contains(v) && v.dead(horizon, st))) by {
            let all = before + tail;
            if before.contains((RowId(x), v)) {
                assert(all[before.index_of((RowId(x), v))] == (RowId(x), v));
            }
            if x == id && gone.contains(v) {
                assert(all[before.len() + gone.index_of(v)] == (RowId(x), v));
            }
            if all.contains((RowId(x), v)) {
                let j = all.index_of((RowId(x), v));
                if j < before.len() {
                    assert(before[j] == (RowId(x), v));
                } else {
                    assert(gone[j - before.len()] == v);
                }
            }
        }
    }
    alive
}

} // verus!
