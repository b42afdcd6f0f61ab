//! Snapshots and the visibility rule.

use vstd::prelude::*;

use crate::ids::TxnId;

verus! {

/// How far a transaction has come.
#[derive(Debug, Clone, Copy, PartialEq, Eq, Structural)]
pub enum TxnStatus {
    /// It may still write.
    InProgress,
    /// Its writes are there to stay.
    Committed,
    /// Its writes were taken back.
    Aborted,
}

/// What a reader may see.
#[derive(Debug, Clone, PartialEq, Eq)]
pub struct Snapshot {
    /// The smallest transaction still active when the snapshot was taken.
    pub xmin: TxnId,
    /// The next transaction to be assigned: it and the later ones are invisible.
    pub xmax: TxnId,
    /// The transactions in progress within `[xmin, xmax)`, sorted.
    pub active: Vec<TxnId>,
    /// The reading transaction.
    pub own: TxnId,
}

/// Registered statuses of transactions; one that is not listed is `Committed`.
pub open spec fn status_of(statuses: Map<u64, TxnStatus>, t: TxnId) -> TxnStatus {
    if statuses.contains_key(t.0) {
        statuses[t.0]
    } else {
        TxnStatus::Committed
    }
}

impl Snapshot {
    /// Whether the writes of `t`, whose status is `status`, are part of what the snapshot sees:
    /// `t` is the reader itself, or it committed, is below `xmax` and was not active when the
    /// snapshot was taken.
    pub open spec fn settled(self, t: TxnId, status: TxnStatus) -> bool {
        t == self.own || (t.0 < self.xmax.0 && !self.active@.contains(t) && status
            == TxnStatus::Committed)
    }

    /// Whether a version created by `xmin` and replaced or deleted by `xmax` is seen: its
    /// creator is settled and no settled transaction took it away.
    pub open spec fn visible(
        self,
        xmin: TxnId,
        xmax: Option<TxnId>,
        statuses: Map<u64, TxnStatus>,
    ) -> bool {
        &&& self.settled(xmin, status_of(statuses, xmin))
        &&& match xmax {
            Some(x) => !self.settled(x, status_of(statuses, x)),
            None => true,
        }
    }

    /// Whether `t`, whose status is `status`, is settled for this snapshot.
    pub fn is_settled(&self, t: TxnId, status: TxnStatus) -> (r: bool)
        ensures
            r == self.settled(t, status),
    {
        if t == self.own {
            return true;
        }
        if t.0 >= self.xmax.0 {
            return false;
        }
        let mut i: usize = 0;
        while i < self.active.len()
            invariant
                i <= self.active@.len(),
                t != self.own,
                t.0 < self.xmax.0,
                forall|j: int| 0 <= j < i ==> self.active@[j] != t,
            decreases self.active@.len() - i,
        {
            if self.active[i] == t {
                assert(self.active@[i as int] == t);
                return false;
            }
            i = i + 1;
        }
        status == TxnStatus::Committed
    }

    /// Whether a version created by `xmin` and replaced or deleted by `xmax` is visible, each
    /// transaction given with its status.
    pub fn is_visible(&self, xmin: (TxnId, TxnStatus), xmax: Option<(TxnId, TxnStatus)>) -> (r: bool)
        ensures
            r == (self.settled(xmin.0, xmin.1) && match xmax {
                Some(x) => !self.settled(x.0, x.1),
                None => true,
            }),
    {
        if !self.is_settled(xmin.0, xmin.1) {
            return false;
        }
        match xmax {
            Some(x) => !self.is_settled(x.0, x.1),
            None => true,
        }
    }
}

} // verus!
