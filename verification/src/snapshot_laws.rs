//! Who sees what, rule by rule.

use vstd::prelude::*;

use crate::ids::TxnId;
use crate::snapshot::{status_of, Snapshot, TxnStatus};

verus! {

/// Whether a snapshot was taken after `t` had ended: `t` is below its upper end and was not running.
pub open spec fn taken_after(snap: Snapshot, t: TxnId) -> bool {
    &&& t.0 < snap.xmax.0
    &&& forall|i: int| 0 <= i < snap.active@.len() ==> #[trigger] snap.active@[i] != t
}

/// A transaction nothing is registered of committed; of any other, what is registered holds.
pub proof fn law_unregistered_transaction_committed(statuses: Map<u64, TxnStatus>, t: TxnId)
    ensures
        !statuses.contains_key(t.0) ==> status_of(statuses, t) == TxnStatus::Committed,
        statuses.contains_key(t.0) ==> status_of(statuses, t) == statuses[t.0],
{
}

/// A reader sees its own writes whatever their status, and of the others the writes of those that
/// committed before the snapshot was taken: not of one still running, rolled back, or later.
pub proof fn law_settled_is_own_or_committed_before(snap: Snapshot, t: TxnId, status: TxnStatus)
    ensures
        t == snap.own ==> snap.settled(t, status),
        t != snap.own ==> (snap.settled(t, status) <==> status == TxnStatus::Committed
            && taken_after(snap, t)),
{
    if snap.active@.contains(t) {
        let i = choose|i: int| 0 <= i < snap.active@.len() && snap.active@[i] == t;
        assert(snap.active@[i] == t);
    }
    if !taken_after(snap, t) && t.0 < snap.xmax.0 {
        let i = choose|i: int| 0 <= i < snap.active@.len() && #[trigger] snap.active@[i] == t;
        assert(snap.active@.contains(t));
    }
}

/// A version is seen from the moment its creator is settled until the transaction that took it away
/// is.
pub proof fn law_version_is_seen_between_its_ends(
    snap: Snapshot,
    xmin: TxnId,
    xmax: Option<TxnId>,
    statuses: Map<u64, TxnStatus>,
)
    ensures
        !snap.settled(xmin, status_of(statuses, xmin)) ==> !snap.visible(xmin, xmax, statuses),
        snap.settled(xmin, status_of(statuses, xmin)) ==> snap.visible(xmin, None, statuses),
        xmax matches Some(x) ==> {
            &&& snap.settled(x, status_of(statuses, x)) ==> !snap.visible(xmin, xmax, statuses)
            &&& !snap.settled(x, status_of(statuses, x)) ==> snap.visible(xmin, xmax, statuses)
                == snap.visible(xmin, None, statuses)
        },
{
}

} // verus!
