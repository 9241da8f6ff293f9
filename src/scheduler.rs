//! The scheduler's decisions. Each transaction is queued on the records it
//! touches, in submission order; whoever becomes ready is handed back together
//! with the notifier that was registered for it, so that the caller can wake it.

use crate::lock_manager::{LockManager, LockTable};
use crate::stmt_analyzer::{lock_ids, SqlStmt};
use std::collections::HashMap;
use vstd::prelude::*;

verus! {

broadcast use vstd::std_specs::hash::group_hash_axioms;

/// Why the scheduler refused a request.
#[derive(Clone, Copy, Debug, PartialEq, Eq, Structural)]
pub enum SchedulerErr {
    /// The transaction is already queued or running.
    DuplicateTxn(u128),
    /// The transaction does not hold all of its locks.
    LockInvariantViolation(u128),
    /// The transaction's UUID is not in a form that `uuid` reads.
    InvalidUuid,
}

/// The 128-bit value of the UUID that `s` spells, if it spells one.
pub uninterp spec fn uuid_value(s: Seq<char>) -> Option<u128>;

/// Relies on `uuid::Uuid::parse_str`, read back with `Uuid::as_u128`: whether and
/// what it parses depends on the text alone.
#[verifier::external_body]
fn parse_uuid(s: &str) -> (r: Option<u128>)
    ensures
        r == uuid_value(s@),
{
    match uuid::Uuid::parse_str(s) {
        Ok(u) => Some(u.as_u128()),
        Err(_) => None,
    }
}

/// The transaction id of a request: the value of its UUID.
pub fn txn_id(uuid: &str) -> (r: Result<u128, SchedulerErr>)
    ensures
        match uuid_value(uuid@) {
            Some(v) => r == Ok::<u128, SchedulerErr>(v),
            None => r == Err::<u128, SchedulerErr>(SchedulerErr::InvalidUuid),
        },
{
    match parse_uuid(uuid) {
        Some(v) => Ok(v),
        None => Err(SchedulerErr::InvalidUuid),
    }
}

/// `woken` hands out, once each, the transactions of `ready` with their
/// notifiers from `notifiers`.
pub open spec fn hands_out<N>(woken: Seq<(u128, N)>, ready: Set<u128>, notifiers: Map<u128, N>) -> bool {
    &&& woken.map_values(|p: (u128, N)| p.0).no_duplicates()
    &&& woken.map_values(|p: (u128, N)| p.0).to_set() == ready
    &&& forall|i: int|
        0 <= i < woken.len() ==> notifiers.contains_key(#[trigger] woken[i].0) && woken[i].1
            == notifiers[woken[i].0]
}

/// Lock manager and the notifiers of the transactions that wait for their locks.
pub struct Scheduler<N> {
    lock_manager: LockManager,
    pending_txns: HashMap<u128, N>,
}

impl<N> Scheduler<N> {
    pub closed spec fn inv(&self) -> bool {
        &&& self.lock_manager.inv()
        &&& self.pending_txns@.dom() == self.lock_manager@.pending.dom()
    }

    /// The lock state of a scheduler is always well formed.
    pub proof fn lemma_inv_wf(&self)
        requires
            self.inv(),
        ensures
            self.table().wf(),
    {
        self.lock_manager.lemma_inv_wf();
    }

    /// The state of the locks.
    pub closed spec fn table(&self) -> LockTable {
        self.lock_manager@
    }

    /// The notifier of each waiting transaction.
    pub closed spec fn notifiers(&self) -> Map<u128, N> {
        self.pending_txns@
    }

    pub fn new() -> (r: Scheduler<N>)
        ensures
            r.inv(),
            r.table().wf(),
            r.table() == (LockTable { queues: Map::empty(), pending: Map::empty(), locks: Map::empty() }),
            r.notifiers() == Map::<u128, N>::empty(),
    {
        let r = Scheduler { lock_manager: LockManager::new(), pending_txns: HashMap::new() };
        assert(r.pending_txns@.dom() =~= r.lock_manager@.pending.dom());
        r
    }

    /// Removes the ready transactions from the lock manager's waiting list and
    /// returns them with their notifiers.
    fn wake_ready(&mut self) -> (r: Vec<(u128, N)>)
        requires
            old(self).lock_manager.inv(),
            old(self).pending_txns@.dom() == old(self).lock_manager@.pending.dom(),
        ensures
            final(self).inv(),
            final(self).table() == old(self).table().pop_ready(),
            hands_out(r@, old(self).table().ready_set(), old(self).notifiers()),
            final(self).notifiers() == old(self).notifiers().remove_keys(old(self).table().ready_set()),
    {
        let ghost s0 = self.lock_manager@;
        let ghost n0 = self.pending_txns@;
        let ready = self.lock_manager.pop_ready_txns();
        let mut woken: Vec<(u128, N)> = Vec::new();
        let mut i: usize = 0;
        while i < ready.len()
            invariant
                0 <= i <= ready.len(),
                ready@.no_duplicates(),
                ready@.to_set() == s0.ready_set(),
                self.lock_manager.inv(),
                self.lock_manager@ == s0.pop_ready(),
                n0.dom() == s0.pending.dom(),
                s0.ready_set().subset_of(n0.dom()),
                self.pending_txns@ == n0.remove_keys(ready@.subrange(0, i as int).to_set()),
                woken@.map_values(|p: (u128, N)| p.0) == ready@.subrange(0, i as int),
                forall|j: int|
                    0 <= j < woken@.len() ==> n0.contains_key(#[trigger] woken@[j].0)
                        && woken@[j].1 == n0[woken@[j].0],
            decreases ready.len() - i,
        {
            let t = ready[i];
            let ghost pre = ready@.subrange(0, i as int);
            proof {
                assert(ready@.subrange(0, i + 1) =~= pre.push(t));
                pre.lemma_push_to_set_commute(t);
                assert(ready@.to_set().contains(t));
            }
            assert(!pre.contains(t)) by {
                if pre.contains(t) {
                    let j = choose|j: int| 0 <= j < pre.len() && pre[j] == t;
                    assert(ready@[j] == ready@[i as int]);
                }
            }
            match self.pending_txns.remove(&t) {
                Some(n) => {
                    woken.push((t, n));
                },
                None => {
                    assert(false);
                },
            }
            assert(self.pending_txns@ =~= n0.remove_keys(ready@.subrange(0, i + 1).to_set()));
            assert(woken@.map_values(|p: (u128, N)| p.0) =~= ready@.subrange(0, i + 1));
            i = i + 1;
        }
        assert(ready@.subrange(0, ready.len() as int) =~= ready@);
        assert(self.pending_txns@.dom() =~= self.lock_manager@.pending.dom());
        woken
    }

    /// Queues `txn` on every record that `stmt` touches, behind the transactions
    /// submitted before it, and hands out every transaction that is now ready
    /// (possibly `txn` itself) with its notifier.
    pub fn submit_txn(&mut self, txn: u128, stmt: &SqlStmt, notifier: N) -> (r: Result<
        Vec<(u128, N)>,
        SchedulerErr,
    >)
        requires
            old(self).inv(),
            stmt.wf(),
        ensures
            final(self).inv(),
            final(self).table().wf(),
            old(self).table().locks.contains_key(txn) ==> {
                &&& r is Err && r->Err_0 == SchedulerErr::DuplicateTxn(txn)
                &&& final(self).table() == old(self).table()
                &&& final(self).notifiers() == old(self).notifiers()
            },
            !old(self).table().locks.contains_key(txn) ==> {
                let put = old(self).table().put(txn, lock_ids(stmt.actions@));
                let registered = old(self).notifiers().insert(txn, notifier);
                &&& r is Ok
                &&& final(self).table() == put.pop_ready()
                &&& hands_out(r->Ok_0@, put.ready_set(), registered)
                &&& final(self).notifiers() == registered.remove_keys(put.ready_set())
            },
    {
        proof {
            self.lemma_inv_wf();
        }
        if self.lock_manager.is_tracked(txn) {
            return Err(SchedulerErr::DuplicateTxn(txn));
        }
        let records = stmt.lock_set();
        self.pending_txns.insert(txn, notifier);
        self.lock_manager.put_txn(txn, records);
        assert(self.pending_txns@.dom() =~= self.lock_manager@.pending.dom());
        let woken = self.wake_ready();
        proof {
            self.lemma_inv_wf();
        }
        Ok(woken)
    }

    /// Releases the locks of `txn`, which must hold all of them, and hands out
    /// every transaction that is now ready with its notifier.
    pub fn complete_txn(&mut self, txn: u128) -> (r: Result<Vec<(u128, N)>, SchedulerErr>)
        requires
            old(self).inv(),
        ensures
            final(self).inv(),
            final(self).table().wf(),
            !old(self).table().holds_all(txn) ==> {
                &&& r is Err && r->Err_0 == SchedulerErr::LockInvariantViolation(txn)
                &&& final(self).table() == old(self).table()
                &&& final(self).notifiers() == old(self).notifiers()
            },
            old(self).table().holds_all(txn) ==> {
                let done = old(self).table().complete(txn);
                let left = old(self).notifiers().remove(txn);
                &&& r is Ok
                &&& final(self).table() == done.pop_ready()
                &&& hands_out(r->Ok_0@, done.ready_set(), left)
                &&& final(self).notifiers() == left.remove_keys(done.ready_set())
            },
    {
        proof {
            self.lemma_inv_wf();
        }
        if !self.lock_manager.holds_all_locks(txn) {
            return Err(SchedulerErr::LockInvariantViolation(txn));
        }
        self.pending_txns.remove(&txn);
        self.lock_manager.complete_txn(txn);
        assert(self.pending_txns@.dom() =~= self.lock_manager@.pending.dom());
        let woken = self.wake_ready();
        proof {
            self.lemma_inv_wf();
        }
        Ok(woken)
    }
}

} // verus!
