use vstd::prelude::*;
use std::collections::HashSet;

verus! {

broadcast use vstd::std_specs::hash::group_hash_axioms;

/// A unique identifier for a transaction.
pub type TransactionId = u64;

/// The identifier that no transaction has; as `xmax` it means "not deleted".
pub const INVALID_TXN_ID: TransactionId = 0;

/// The first identifier handed out.
pub const FIRST_NORMAL_TXN_ID: TransactionId = 1;

/// Where a transaction stands.
#[derive(Debug, Clone, Copy, PartialEq, Eq, Structural)]
pub enum TransactionState {
    Active,
    Committed,
    Aborted,
}

/// Errors of the transaction manager.
#[derive(Debug)]
pub enum TransactionError {
    /// The transaction is not active.
    NotFound(TransactionId),
}

/// Hands out transaction identifiers, records which transactions are active,
/// committed or aborted, and decides which tuple versions a transaction sees.
pub struct TransactionManager {
    next_txn_id: u64,
    active_txns: HashSet<TransactionId>,
    committed_txns: HashSet<TransactionId>,
    aborted_txns: HashSet<TransactionId>,
}

/// Whether a tuple created by `xmin` and deleted by `xmax` (or not deleted,
/// when `xmax` is `INVALID_TXN_ID`) is visible to `current`: its creator is
/// `current` or committed, and it was not deleted by `current` or by a
/// committed transaction.
pub open spec fn visible_under(
    state: spec_fn(TransactionId) -> TransactionState,
    xmin: TransactionId,
    xmax: TransactionId,
    current: TransactionId,
) -> bool {
    &&& (xmin == current || state(xmin) == TransactionState::Committed)
    &&& !(xmax != INVALID_TXN_ID && (xmax == current || state(xmax)
        == TransactionState::Committed))
}

impl TransactionManager {
    /// The next identifier `begin` hands out.
    pub closed spec fn next_id(&self) -> u64 {
        self.next_txn_id
    }

    /// The active transactions.
    pub closed spec fn active(&self) -> Set<TransactionId> {
        self.active_txns@
    }

    /// The committed transactions.
    pub closed spec fn committed(&self) -> Set<TransactionId> {
        self.committed_txns@
    }

    /// The aborted transactions.
    pub closed spec fn aborted(&self) -> Set<TransactionId> {
        self.aborted_txns@
    }

    /// The state `get_state` reports: committed wins over aborted, and a
    /// transaction in neither set counts as active.
    pub open spec fn state(&self, txn_id: TransactionId) -> TransactionState {
        if self.committed().contains(txn_id) {
            TransactionState::Committed
        } else if self.aborted().contains(txn_id) {
            TransactionState::Aborted
        } else {
            TransactionState::Active
        }
    }

    /// A manager with no transactions, handing out `FIRST_NORMAL_TXN_ID` first.
    pub fn new() -> (r: Self)
        ensures
            r.next_id() == FIRST_NORMAL_TXN_ID,
            r.active() == Set::<TransactionId>::empty(),
            r.committed() == Set::<TransactionId>::empty(),
            r.aborted() == Set::<TransactionId>::empty(),
    {
        TransactionManager {
            next_txn_id: FIRST_NORMAL_TXN_ID,
            active_txns: HashSet::new(),
            committed_txns: HashSet::new(),
            aborted_txns: HashSet::new(),
        }
    }

    /// Starts a transaction: hands out the next identifier (wrapping around
    /// after `u64::MAX` as an atomic counter does) and records it as active.
    pub fn begin(&mut self) -> (txn_id: TransactionId)
        ensures
            txn_id == old(self).next_id(),
            final(self).next_id() == (if old(self).next_id() == u64::MAX {
                0
            } else {
                (old(self).next_id() + 1) as u64
            }),
            final(self).active() == old(self).active().insert(txn_id),
            final(self).committed() == old(self).committed(),
            final(self).aborted() == old(self).aborted(),
    {
        let txn_id = self.next_txn_id;
        self.next_txn_id = self.next_txn_id.wrapping_add(1);
        self.active_txns.insert(txn_id);
        txn_id
    }

    /// Commits an active transaction; fails with `NotFound` when it is not active.
    pub fn commit(&mut self, txn_id: TransactionId) -> (r: Result<(), TransactionError>)
        ensures
            final(self).next_id() == old(self).next_id(),
            final(self).aborted() == old(self).aborted(),
            old(self).active().contains(txn_id) ==> {
                &&& r is Ok
                &&& final(self).active() == old(self).active().remove(txn_id)
                &&& final(self).committed() == old(self).committed().insert(txn_id)
            },
            !old(self).active().contains(txn_id) ==> {
                &&& r == Err::<(), TransactionError>(TransactionError::NotFound(txn_id))
                &&& final(self).active() == old(self).active()
                &&& final(self).committed() == old(self).committed()
            },
    {
        if !self.active_txns.remove(&txn_id) {
            proof {
                assert(self.active_txns@ =~= old(self).active_txns@);
            }
            return Err(TransactionError::NotFound(txn_id));
        }
        self.committed_txns.insert(txn_id);
        Ok(())
    }

    /// Aborts an active transaction; fails with `NotFound` when it is not active.
    pub fn abort(&mut self, txn_id: TransactionId) -> (r: Result<(), TransactionError>)
        ensures
            final(self).next_id() == old(self).next_id(),
            final(self).committed() == old(self).committed(),
            old(self).active().contains(txn_id) ==> {
                &&& r is Ok
                &&& final(self).active() == old(self).active().remove(txn_id)
                &&& final(self).aborted() == old(self).aborted().insert(txn_id)
            },
            !old(self).active().contains(txn_id) ==> {
                &&& r == Err::<(), TransactionError>(TransactionError::NotFound(txn_id))
                &&& final(self).active() == old(self).active()
                &&& final(self).aborted() == old(self).aborted()
            },
    {
        if !self.active_txns.remove(&txn_id) {
            proof {
                assert(self.active_txns@ =~= old(self).active_txns@);
            }
            return Err(TransactionError::NotFound(txn_id));
        }
        self.aborted_txns.insert(txn_id);
        Ok(())
    }

    /// The state of a transaction.
    pub fn get_state(&self, txn_id: TransactionId) -> (r: TransactionState)
        ensures
            r == self.state(txn_id),
    {
        if self.committed_txns.contains(&txn_id) {
            TransactionState::Committed
        } else if self.aborted_txns.contains(&txn_id) {
            TransactionState::Aborted
        } else {
            TransactionState::Active
        }
    }

    /// Whether a tuple created by `xmin` and deleted by `xmax` is visible to
    /// `current_txn` (snapshot visibility).
    pub fn is_visible(&self, xmin: TransactionId, xmax: TransactionId, current_txn: TransactionId) -> (r: bool)
        ensures
            r == visible_under(|t: TransactionId| self.state(t), xmin, xmax, current_txn),
    {
        if xmin != current_txn && self.get_state(xmin) != TransactionState::Committed {
            return false;
        }
        if xmax != INVALID_TXN_ID {
            if xmax == current_txn || self.get_state(xmax) == TransactionState::Committed {
                return false;
            }
        }
        true
    }

    /// A committed transaction stays committed: `begin`, `commit` and `abort`
    /// only ever add to the committed set, and a transaction in the committed
    /// set reads as committed.
    pub proof fn lemma_committed_is_permanent(before: Self, after: Self, t: TransactionId)
        requires
            before.committed().contains(t),
            before.committed().subset_of(after.committed()),
        ensures
            before.state(t) == TransactionState::Committed,
            after.state(t) == TransactionState::Committed,
    {
    }

    /// A transaction never sees a tuple version that it deleted itself,
    /// whoever created it and whatever state any transaction is in.
    pub proof fn lemma_own_deletes_are_invisible(&self, xmin: TransactionId, xmax: TransactionId, current: TransactionId)
        requires
            xmax != INVALID_TXN_ID,
            xmax == current,
        ensures
            !visible_under(|t: TransactionId| self.state(t), xmin, xmax, current),
    {
    }

    /// A tuple version is visible exactly when its creator is the reader or
    /// committed, and it is not deleted, or deleted by a transaction other
    /// than the reader that has not committed.
    pub proof fn lemma_visible_iff(&self, xmin: TransactionId, xmax: TransactionId, current: TransactionId)
        ensures
            visible_under(|t: TransactionId| self.state(t), xmin, xmax, current) <==> {
                &&& xmin == current || self.committed().contains(xmin)
                &&& xmax == INVALID_TXN_ID || (xmax != current && !self.committed().contains(xmax))
            },
    {
    }

    /// A tuple whose creator is neither the reader nor committed is not visible;
    /// a tuple whose deleter committed is not visible; a committed, undeleted
    /// tuple is visible to everyone.
    pub proof fn lemma_visibility_rules(&self, xmin: TransactionId, xmax: TransactionId, current: TransactionId)
        ensures
            xmin != current && self.state(xmin) != TransactionState::Committed ==> !visible_under(
                |t: TransactionId| self.state(t),
                xmin,
                xmax,
                current,
            ),
            xmax != INVALID_TXN_ID && self.state(xmax) == TransactionState::Committed
                ==> !visible_under(|t: TransactionId| self.state(t), xmin, xmax, current),
            self.state(xmin) == TransactionState::Committed && xmax == INVALID_TXN_ID
                ==> visible_under(|t: TransactionId| self.state(t), xmin, xmax, current),
            xmin == current && xmax == INVALID_TXN_ID ==> visible_under(
                |t: TransactionId| self.state(t),
                xmin,
                xmax,
                current,
            ),
    {
    }
}

impl Default for TransactionManager {
    fn default() -> (r: Self)
        ensures
            r.next_id() == FIRST_NORMAL_TXN_ID,
            r.active() == Set::<TransactionId>::empty(),
            r.committed() == Set::<TransactionId>::empty(),
            r.aborted() == Set::<TransactionId>::empty(),
    {
        Self::new()
    }
}

} // verus!
