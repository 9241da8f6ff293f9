//! Deterministic record locking: one FIFO queue of transactions per record.
//! A transaction holds a record's lock when it is at the head of that record's
//! queue, and is ready once it holds every lock it asked for.

use std::collections::{HashMap, HashSet};
use vstd::prelude::*;

verus! {

broadcast use vstd::std_specs::hash::group_hash_axioms;

/// The abstract state of a lock manager.
pub struct LockTable {
    /// For each record with waiters, the transactions queued on it, oldest first.
    pub queues: Map<u64, Seq<u128>>,
    /// For each transaction not yet handed out as ready, the records it still
    /// waits for.
    pub pending: Map<u128, Set<u64>>,
    /// For each live transaction, the records it locks.
    pub locks: Map<u128, Set<u64>>,
}

impl LockTable {
    /// The queue of record `r`; empty when nobody waits on it.
    pub open spec fn queue(self, r: u64) -> Seq<u128> {
        if self.queues.contains_key(r) {
            self.queues[r]
        } else {
            Seq::empty()
        }
    }

    /// Transaction `t` is at the head of record `r`'s queue.
    pub open spec fn at_head(self, t: u128, r: u64) -> bool {
        self.queue(r).len() > 0 && self.queue(r)[0] == t
    }

    /// Transaction `t` has been granted the lock on `r`: it asked for `r` and `r`
    /// is not among the records it still waits for.
    pub open spec fn granted(self, t: u128, r: u64) -> bool {
        &&& self.locks.contains_key(t)
        &&& self.locks[t].contains(r)
        &&& !(self.pending.contains_key(t) && self.pending[t].contains(r))
    }

    /// Every record that `t` locks has `t` at the head of its queue.
    pub open spec fn holds_all(self, t: u128) -> bool {
        &&& self.locks.contains_key(t)
        &&& forall|r: u64| #[trigger] self.locks[t].contains(r) ==> self.at_head(t, r)
    }

    /// Transactions that wait for nothing more and have not been handed out yet.
    pub open spec fn ready_set(self) -> Set<u128> {
        self.pending.dom().filter(|t: u128| self.pending[t] == Set::<u64>::empty())
    }

    pub open spec fn wf(self) -> bool {
        &&& forall|r: u64| #[trigger]
            self.queues.contains_key(r) ==> self.queues[r].len() > 0
                && self.queues[r].no_duplicates()
        &&& forall|r: u64, i: int|
            #![trigger self.queues[r][i]]
            self.queues.contains_key(r) && 0 <= i < self.queues[r].len() ==> {
                &&& self.locks.contains_key(self.queues[r][i])
                &&& self.locks[self.queues[r][i]].contains(r)
            }
        &&& forall|t: u128, r: u64| #[trigger]
            self.locks.contains_key(t) && #[trigger] self.locks[t].contains(r)
                ==> self.queue(r).contains(t)
        &&& forall|t: u128| #[trigger]
            self.pending.contains_key(t) ==> self.locks.contains_key(t) && self.pending[t]
                == self.locks[t].filter(|r: u64| !self.at_head(t, r))
        &&& forall|t: u128| #[trigger]
            self.locks.contains_key(t) && !self.pending.contains_key(t) ==> self.holds_all(t)
        &&& forall|t: u128| #[trigger] self.locks.contains_key(t) ==> self.locks[t].finite()
    }

    /// The state after transaction `u` is queued on every record of `rs`.
    pub open spec fn put(self, u: u128, rs: Set<u64>) -> LockTable {
        LockTable {
            queues: Map::new(
                |r: u64| self.queues.contains_key(r) || rs.contains(r),
                |r: u64|
                    if rs.contains(r) {
                        self.queue(r).push(u)
                    } else {
                        self.queues[r]
                    },
            ),
            pending: self.pending.insert(u, rs.filter(|r: u64| self.queue(r).len() > 0)),
            locks: self.locks.insert(u, rs),
        }
    }

    /// The state after the ready transactions are handed out.
    pub open spec fn pop_ready(self) -> LockTable {
        LockTable { pending: self.pending.remove_keys(self.ready_set()), ..self }
    }

    /// The state after transaction `u` releases its locks.
    pub open spec fn complete(self, u: u128) -> LockTable {
        let rs = self.locks[u];
        LockTable {
            queues: Map::new(
                |r: u64| self.queues.contains_key(r) && !(rs.contains(r) && self.queues[r].len() == 1),
                |r: u64|
                    if rs.contains(r) {
                        self.queues[r].drop_first()
                    } else {
                        self.queues[r]
                    },
            ),
            pending: Map::new(
                |t: u128| self.pending.contains_key(t) && t != u,
                |t: u128|
                    self.pending[t].filter(
                        |r: u64|
                            !(rs.contains(r) && self.queues[r].len() > 1 && self.queues[r][1] == t),
                    ),
            ),
            locks: self.locks.remove(u),
        }
    }

    /// Transaction `t1` is queued ahead of `t2` on record `r`.
    pub open spec fn precedes(self, t1: u128, t2: u128, r: u64) -> bool {
        exists|i: int, j: int|
            #![trigger self.queue(r)[i], self.queue(r)[j]]
            0 <= i < j < self.queue(r).len() && self.queue(r)[i] == t1 && self.queue(r)[j] == t2
    }
}

/// Queuing a fresh transaction keeps the table well formed.
pub proof fn lemma_put_wf(s: LockTable, u: u128, rs: Set<u64>)
    requires
        s.wf(),
        !s.locks.contains_key(u),
        rs.finite(),
    ensures
        s.put(u, rs).wf(),
{
    let n = s.put(u, rs);
    assert forall|r: u64| #[trigger] s.queue(r).contains(u) implies false by {
        let i = choose|i: int| 0 <= i < s.queue(r).len() && s.queue(r)[i] == u;
        assert(s.queues[r][i] == u);
    }
    assert forall|t: u128, r: u64| t != u implies #[trigger] n.at_head(t, r) == s.at_head(t, r) by {
        if rs.contains(r) && s.queue(r).len() > 0 {
            assert(n.queue(r)[0] == s.queue(r)[0]);
        }
    }
    assert forall|r: u64| #[trigger] n.queues.contains_key(r) implies n.queues[r].len() > 0
        && n.queues[r].no_duplicates() by {
        if rs.contains(r) {
            assert(!s.queue(r).contains(u));
            assert forall|i: int, j: int|
                0 <= i < j < n.queues[r].len() implies n.queues[r][i] != n.queues[r][j] by {
                if j == s.queue(r).len() {
                    assert(s.queue(r)[i] == n.queues[r][i]);
                } else {
                    assert(s.queues[r][i] != s.queues[r][j]);
                }
            }
        }
    }
    assert forall|r: u64, i: int|
        n.queues.contains_key(r) && 0 <= i < n.queues[r].len() implies {
        &&& n.locks.contains_key(#[trigger] n.queues[r][i])
        &&& n.locks[n.queues[r][i]].contains(r)
    } by {
        if rs.contains(r) && i < s.queue(r).len() {
            assert(n.queues[r][i] == s.queues[r][i]);
        }
    }
    assert forall|t: u128, r: u64| #[trigger]
        n.locks.contains_key(t) && #[trigger] n.locks[t].contains(r) implies n.queue(r).contains(
        t,
    ) by {
        if t == u {
            assert(n.queue(r)[n.queue(r).len() - 1] == u);
        } else {
            assert(s.queue(r).contains(t));
            let i = choose|i: int| 0 <= i < s.queue(r).len() && s.queue(r)[i] == t;
            assert(n.queue(r)[i] == t);
        }
    }
    assert forall|t: u128| #[trigger] n.pending.contains_key(t) implies n.locks.contains_key(t)
        && n.pending[t] == n.locks[t].filter(|r: u64| !n.at_head(t, r)) by {
        if t == u {
            assert forall|r: u64| rs.contains(r) implies (s.queue(r).len() > 0 <==> !n.at_head(u, r)) by {
                if s.queue(r).len() > 0 {
                    assert(n.queue(r)[0] == s.queue(r)[0]);
                    assert(s.queue(r).contains(s.queue(r)[0]));
                }
            }
            assert(n.pending[t] =~= n.locks[t].filter(|r: u64| !n.at_head(t, r)));
        } else {
            assert(n.pending[t] =~= n.locks[t].filter(|r: u64| !n.at_head(t, r)));
        }
    }
}

/// Handing out the ready transactions keeps the table well formed.
pub proof fn lemma_pop_ready_wf(s: LockTable)
    requires
        s.wf(),
    ensures
        s.pop_ready().wf(),
{
    let n = s.pop_ready();
    assert forall|t: u128| #[trigger] n.pending.contains_key(t) implies n.locks.contains_key(t)
        && n.pending[t] == n.locks[t].filter(|r: u64| !n.at_head(t, r)) by {
        assert(s.pending.contains_key(t));
        assert(n.pending[t] == s.pending[t]);
    }
    assert forall|t: u128| #[trigger]
        n.locks.contains_key(t) && !n.pending.contains_key(t) implies n.holds_all(t) by {
        if s.pending.contains_key(t) {
            assert(s.ready_set().contains(t));
            assert forall|r: u64| #[trigger] n.locks[t].contains(r) implies n.at_head(t, r) by {
                if !s.at_head(t, r) {
                    assert(s.locks[t].filter(|r: u64| !s.at_head(t, r)).contains(r));
                }
            }
        }
    }
}

/// Releasing the locks of a transaction that holds them all keeps the table
/// well formed.
pub proof fn lemma_complete_wf(s: LockTable, u: u128)
    requires
        s.wf(),
        s.holds_all(u),
    ensures
        s.complete(u).wf(),
{
    let n = s.complete(u);
    let rs = s.locks[u];
    // In a queue that `u` heads, nobody else is at index 0.
    assert forall|r: u64, i: int|
        rs.contains(r) && 0 < i < s.queue(r).len() implies #[trigger] s.queues[r][i] != u by {
        assert(s.at_head(u, r));
        assert(s.queues[r][0] != s.queues[r][i]);
    }
    assert forall|r: u64| #[trigger] n.queues.contains_key(r) implies n.queues[r].len() > 0
        && n.queues[r].no_duplicates() by {
        if rs.contains(r) {
            assert forall|i: int, j: int|
                0 <= i < j < n.queues[r].len() implies n.queues[r][i] != n.queues[r][j] by {
                assert(s.queues[r][i + 1] != s.queues[r][j + 1]);
            }
        }
    }
    assert forall|r: u64, i: int|
        n.queues.contains_key(r) && 0 <= i < n.queues[r].len() implies {
        &&& n.locks.contains_key(#[trigger] n.queues[r][i])
        &&& n.locks[n.queues[r][i]].contains(r)
    } by {
        if rs.contains(r) {
            assert(n.queues[r][i] == s.queues[r][i + 1]);
        } else {
            assert(s.queues[r][i] != u);
        }
    }
    assert forall|t: u128, r: u64| #[trigger]
        n.locks.contains_key(t) && #[trigger] n.locks[t].contains(r) implies n.queue(r).contains(
        t,
    ) by {
        assert(s.queue(r).contains(t));
        let i = choose|i: int| 0 <= i < s.queue(r).len() && s.queue(r)[i] == t;
        if rs.contains(r) {
            assert(s.at_head(u, r));
            assert(i > 0);
            assert(n.queue(r)[i - 1] == t);
        } else {
            assert(n.queue(r)[i] == t);
        }
    }
    assert forall|t: u128, r: u64| t != u && s.locks.contains_key(t) && s.locks[t].contains(r)
        implies #[trigger] n.at_head(t, r) == (if rs.contains(r) {
        s.queue(r).len() > 1 && s.queues[r][1] == t
    } else {
        s.at_head(t, r)
    }) by {
        assert(s.queue(r).contains(t));
    }
    assert forall|t: u128| #[trigger] n.pending.contains_key(t) implies n.locks.contains_key(t)
        && n.pending[t] == n.locks[t].filter(|r: u64| !n.at_head(t, r)) by {
        assert forall|r: u64| rs.contains(r) && s.locks[t].contains(r) implies !s.at_head(t, r) by {
            assert(s.at_head(u, r));
        }
        assert(n.pending[t] =~= n.locks[t].filter(|r: u64| !n.at_head(t, r)));
    }
    assert forall|t: u128| #[trigger]
        n.locks.contains_key(t) && !n.pending.contains_key(t) implies n.holds_all(t) by {
        assert forall|r: u64| #[trigger] n.locks[t].contains(r) implies n.at_head(t, r) by {
            assert(s.holds_all(t));
            if rs.contains(r) {
                assert(s.at_head(u, r));
                assert(s.at_head(t, r));
            }
        }
    }
}

/// In a well-formed table the head of each record's queue is the one
/// transaction that has been granted that record's lock.
pub proof fn lemma_head_is_unique_holder(s: LockTable, t1: u128, t2: u128, r: u64)
    requires
        s.wf(),
    ensures
        s.granted(t1, r) <==> s.at_head(t1, r),
        s.granted(t1, r) && s.granted(t2, r) ==> t1 == t2,
{
    assert forall|t: u128| #[trigger] s.granted(t, r) <==> s.at_head(t, r) by {
        if s.at_head(t, r) {
            assert(s.queues[r][0] == t);
        }
        if s.granted(t, r) && !s.pending.contains_key(t) {
            assert(s.holds_all(t));
        }
    }
}

/// A transaction queued behind another on some record is neither granted that
/// record nor ready, so the ready transactions never include it.
pub proof fn lemma_no_overtaking(s: LockTable, t1: u128, t2: u128, r: u64)
    requires
        s.wf(),
        s.precedes(t1, t2, r),
    ensures
        !s.granted(t2, r),
        s.pending.contains_key(t2),
        !s.ready_set().contains(t2),
{
    let (i, j) = choose|i: int, j: int|
        #![trigger s.queue(r)[i], s.queue(r)[j]]
        0 <= i < j < s.queue(r).len() && s.queue(r)[i] == t1 && s.queue(r)[j] == t2;
    assert(s.queues[r][0] != s.queues[r][j]);
    assert(s.locks.contains_key(s.queues[r][j]));
    assert(!s.at_head(t2, r));
    lemma_head_is_unique_holder(s, t2, t2, r);
    if !s.pending.contains_key(t2) {
        assert(s.holds_all(t2));
    }
    assert(s.pending[t2].contains(r));
}

/// A transaction queued on a record that a live transaction locks is queued
/// behind it.
pub proof fn lemma_put_queues_behind(s: LockTable, u: u128, rs: Set<u64>, t: u128, r: u64)
    requires
        s.wf(),
        !s.locks.contains_key(u),
        s.locks.contains_key(t),
        s.locks[t].contains(r),
        rs.contains(r),
    ensures
        s.put(u, rs).precedes(t, u, r),
{
    let n = s.put(u, rs);
    assert(s.queue(r).contains(t));
    let i = choose|i: int| 0 <= i < s.queue(r).len() && s.queue(r)[i] == t;
    let j = s.queue(r).len() as int;
    assert(n.queue(r)[i] == t && n.queue(r)[j] == u);
}

/// Queuing another transaction, handing out ready ones and completing a third
/// transaction all keep `t1` ahead of `t2` on `r`.
pub proof fn lemma_precedence_persists(
    s: LockTable,
    t1: u128,
    t2: u128,
    r: u64,
    u: u128,
    rs: Set<u64>,
    v: u128,
)
    requires
        s.wf(),
        s.precedes(t1, t2, r),
        !s.locks.contains_key(u),
        s.holds_all(v),
        v != t1,
        v != t2,
    ensures
        s.put(u, rs).precedes(t1, t2, r),
        s.pop_ready().precedes(t1, t2, r),
        s.complete(v).precedes(t1, t2, r),
{
    let (i, j) = choose|i: int, j: int|
        #![trigger s.queue(r)[i], s.queue(r)[j]]
        0 <= i < j < s.queue(r).len() && s.queue(r)[i] == t1 && s.queue(r)[j] == t2;
    let p = s.put(u, rs);
    assert(p.queue(r)[i] == t1 && p.queue(r)[j] == t2);
    let q = s.pop_ready();
    assert(q.queue(r)[i] == t1 && q.queue(r)[j] == t2);
    let c = s.complete(v);
    if s.locks[v].contains(r) {
        assert(s.at_head(v, r));
        assert(i > 0);
        assert(c.queue(r)[i - 1] == t1 && c.queue(r)[j - 1] == t2);
    } else {
        assert(c.queue(r)[i] == t1 && c.queue(r)[j] == t2);
    }
}

/// Two transactions on disjoint free records are both ready once both are
/// queued, in either order.
pub proof fn lemma_disjoint_both_ready(
    s: LockTable,
    t1: u128,
    rs1: Set<u64>,
    t2: u128,
    rs2: Set<u64>,
)
    requires
        s.wf(),
        t1 != t2,
        !s.locks.contains_key(t1),
        !s.locks.contains_key(t2),
        rs1.disjoint(rs2),
        forall|r: u64| rs1.contains(r) || rs2.contains(r) ==> #[trigger] s.queue(r).len() == 0,
    ensures
        s.put(t1, rs1).put(t2, rs2).ready_set().contains(t1),
        s.put(t1, rs1).put(t2, rs2).ready_set().contains(t2),
        s.put(t2, rs2).put(t1, rs1).ready_set().contains(t1),
        s.put(t2, rs2).put(t1, rs1).ready_set().contains(t2),
{
    let a = s.put(t1, rs1);
    let b = s.put(t2, rs2);
    assert(a.pending[t1] =~= Set::<u64>::empty());
    assert(b.pending[t2] =~= Set::<u64>::empty());
    assert forall|r: u64| rs2.contains(r) implies #[trigger] a.queue(r).len() == 0 by {
        assert(!rs1.contains(r));
        assert(s.queue(r).len() == 0);
        assert(a.queue(r) == s.queue(r));
    }
    assert forall|r: u64| rs1.contains(r) implies #[trigger] b.queue(r).len() == 0 by {
        assert(!rs2.contains(r));
        assert(s.queue(r).len() == 0);
        assert(b.queue(r) == s.queue(r));
    }
    assert(a.put(t2, rs2).pending[t2] =~= Set::<u64>::empty());
    assert(b.put(t1, rs1).pending[t1] =~= Set::<u64>::empty());
    assert(a.put(t2, rs2).pending[t1] == a.pending[t1]);
    assert(b.put(t1, rs1).pending[t2] == b.pending[t2]);
}

/// A call on a lock manager, as the model sees it.
pub enum LockOp {
    Put(u128, Set<u64>),
    PopReady,
    Complete(u128),
}

impl LockTable {
    /// The state after `op`.
    pub open spec fn step(self, op: LockOp) -> LockTable {
        match op {
            LockOp::Put(u, rs) => self.put(u, rs),
            LockOp::PopReady => self.pop_ready(),
            LockOp::Complete(u) => self.complete(u),
        }
    }

    /// `op` meets the precondition of its call.
    pub open spec fn allows(self, op: LockOp) -> bool {
        match op {
            LockOp::Put(u, rs) => !self.locks.contains_key(u) && rs.finite(),
            LockOp::PopReady => true,
            LockOp::Complete(u) => self.holds_all(u),
        }
    }

    /// The state after the calls `ops`, in order.
    pub open spec fn run(self, ops: Seq<LockOp>) -> LockTable
        decreases ops.len(),
    {
        if ops.len() == 0 {
            self
        } else {
            self.step(ops[0]).run(ops.drop_first())
        }
    }

    /// Every call of `ops` meets its precondition when it is made.
    pub open spec fn allows_all(self, ops: Seq<LockOp>) -> bool
        decreases ops.len(),
    {
        ops.len() == 0 || (self.allows(ops[0]) && self.step(ops[0]).allows_all(ops.drop_first()))
    }
}

proof fn lemma_step_wf(s: LockTable, op: LockOp)
    requires
        s.wf(),
        s.allows(op),
    ensures
        s.step(op).wf(),
{
    match op {
        LockOp::Put(u, rs) => lemma_put_wf(s, u, rs),
        LockOp::PopReady => lemma_pop_ready_wf(s),
        LockOp::Complete(u) => lemma_complete_wf(s, u),
    }
}

/// After `t1` was queued ahead of `t2` on `r`, and as long as `t1` does not
/// complete, `t2` is not ready.
proof fn lemma_stays_behind(s: LockTable, ops: Seq<LockOp>, t1: u128, t2: u128, r: u64)
    requires
        s.wf(),
        s.allows_all(ops),
        s.precedes(t1, t2, r),
        forall|k: int| 0 <= k < ops.len() ==> ops[k] != LockOp::Complete(t1),
    ensures
        s.run(ops).precedes(t1, t2, r),
        s.run(ops).pending.contains_key(t2),
        !s.run(ops).ready_set().contains(t2),
    decreases ops.len(),
{
    lemma_no_overtaking(s, t1, t2, r);
    if ops.len() > 0 {
        let op = ops[0];
        lemma_step_wf(s, op);
        assert(op != LockOp::Complete(t1));
        let (i, j) = choose|i: int, j: int|
            #![trigger s.queue(r)[i], s.queue(r)[j]]
            0 <= i < j < s.queue(r).len() && s.queue(r)[i] == t1 && s.queue(r)[j] == t2;
        assert(s.queues[r][j] == t2);
        assert(s.locks.contains_key(t1) && s.locks.contains_key(t2)) by {
            assert(s.queues[r][i] == t1);
        }
        match op {
            LockOp::Put(u, rs) => {
                let p = s.put(u, rs);
                assert(p.queue(r)[i] == t1 && p.queue(r)[j] == t2);
            },
            LockOp::PopReady => {
                let p = s.pop_ready();
                assert(p.queue(r)[i] == t1 && p.queue(r)[j] == t2);
            },
            LockOp::Complete(v) => {
                assert(v != t1);
                assert(v != t2) by {
                    if v == t2 {
                        assert(s.at_head(t2, r));
                    }
                }
                let c = s.complete(v);
                if s.locks[v].contains(r) {
                    assert(s.at_head(v, r));
                    assert(i > 0);
                    assert(c.queue(r)[i - 1] == t1 && c.queue(r)[j - 1] == t2);
                } else {
                    assert(c.queue(r)[i] == t1 && c.queue(r)[j] == t2);
                }
            },
        }
        assert forall|k: int| 0 <= k < ops.drop_first().len() implies ops.drop_first()[k]
            != LockOp::Complete(t1) by {
            assert(ops.drop_first()[k] == ops[k + 1]);
        }
        lemma_stays_behind(s.step(op), ops.drop_first(), t1, t2, r);
    }
}

/// `t1` queued, stays live with `r` until `t2` is queued at index `j`.
proof fn lemma_live_until_put(
    s: LockTable,
    ops: Seq<LockOp>,
    j: int,
    t1: u128,
    t2: u128,
    rs2: Set<u64>,
    r: u64,
)
    requires
        s.wf(),
        s.allows_all(ops),
        0 <= j < ops.len(),
        ops[j] == LockOp::Put(t2, rs2),
        rs2.contains(r),
        s.locks.contains_key(t1),
        s.locks[t1].contains(r),
        forall|k: int| 0 <= k < ops.len() ==> ops[k] != LockOp::Complete(t1),
    ensures
        !s.run(ops).ready_set().contains(t2),
        s.run(ops).pending.contains_key(t2),
    decreases ops.len(),
{
    let op = ops[0];
    lemma_step_wf(s, op);
    assert forall|k: int| 0 <= k < ops.drop_first().len() implies ops.drop_first()[k]
        != LockOp::Complete(t1) by {
        assert(ops.drop_first()[k] == ops[k + 1]);
    }
    if j == 0 {
        lemma_put_queues_behind(s, t2, rs2, t1, r);
        lemma_stays_behind(s.step(op), ops.drop_first(), t1, t2, r);
    } else {
        assert(op != LockOp::Complete(t1));
        assert(ops.drop_first()[j - 1] == ops[j]);
        match op {
            LockOp::Put(u, rs) => {
                assert(u != t1);
            },
            _ => {},
        }
        lemma_live_until_put(s.step(op), ops.drop_first(), j - 1, t1, t2, rs2, r);
    }
}

/// For any history of valid calls in which `t1` is queued before `t2` on sets
/// of records that share `r`, and `t1` has not completed since, `t2` is not
/// ready: `pop_ready_txns` does not hand it out.
pub proof fn lemma_no_overtaking_in_history(
    s: LockTable,
    ops: Seq<LockOp>,
    i: int,
    j: int,
    t1: u128,
    rs1: Set<u64>,
    t2: u128,
    rs2: Set<u64>,
    r: u64,
)
    requires
        s.wf(),
        s.allows_all(ops),
        0 <= i < j < ops.len(),
        ops[i] == LockOp::Put(t1, rs1),
        ops[j] == LockOp::Put(t2, rs2),
        rs1.contains(r),
        rs2.contains(r),
        forall|k: int| i < k < ops.len() ==> ops[k] != LockOp::Complete(t1),
    ensures
        !s.run(ops).ready_set().contains(t2),
        s.run(ops).pending.contains_key(t2),
    decreases i,
{
    let op = ops[0];
    lemma_step_wf(s, op);
    assert(ops.drop_first()[j - 1] == ops[j]);
    if i == 0 {
        assert forall|k: int| 0 <= k < ops.drop_first().len() implies ops.drop_first()[k]
            != LockOp::Complete(t1) by {
            assert(ops.drop_first()[k] == ops[k + 1]);
        }
        lemma_live_until_put(s.step(op), ops.drop_first(), j - 1, t1, t2, rs2, r);
    } else {
        assert(ops.drop_first()[i - 1] == ops[i]);
        assert forall|k: int| i - 1 < k < ops.drop_first().len() implies ops.drop_first()[k]
            != LockOp::Complete(t1) by {
            assert(ops.drop_first()[k] == ops[k + 1]);
        }
        lemma_no_overtaking_in_history(s.step(op), ops.drop_first(), i - 1, j - 1, t1, rs1, t2, rs2, r);
    }
}

proof fn lemma_run_wf(s: LockTable, ops: Seq<LockOp>)
    requires
        s.wf(),
        s.allows_all(ops),
    ensures
        s.run(ops).wf(),
    decreases ops.len(),
{
    if ops.len() > 0 {
        lemma_step_wf(s, ops[0]);
        lemma_run_wf(s.step(ops[0]), ops.drop_first());
    }
}

proof fn lemma_prefix_allows(s: LockTable, ops: Seq<LockOp>, c: int)
    requires
        s.allows_all(ops),
        0 <= c < ops.len(),
    ensures
        s.allows_all(ops.subrange(0, c)),
        s.run(ops.subrange(0, c)).allows(ops[c]),
    decreases c,
{
    if c == 0 {
        assert(ops.subrange(0, 0) =~= Seq::<LockOp>::empty());
    } else {
        let rest = ops.drop_first();
        lemma_prefix_allows(s.step(ops[0]), rest, c - 1);
        let pre = ops.subrange(0, c);
        assert(pre[0] == ops[0]);
        assert(pre.drop_first() =~= rest.subrange(0, c - 1));
        assert(rest[c - 1] == ops[c]);
    }
}

/// In any history of valid calls, a transaction queued after another on a
/// common record can only complete once the other has completed: transactions
/// that conflict run, and release their locks, in the order they were queued.
pub proof fn lemma_completion_order(
    s: LockTable,
    ops: Seq<LockOp>,
    i: int,
    j: int,
    c: int,
    t1: u128,
    rs1: Set<u64>,
    t2: u128,
    rs2: Set<u64>,
    r: u64,
)
    requires
        s.wf(),
        s.allows_all(ops),
        0 <= i < j < c < ops.len(),
        ops[i] == LockOp::Put(t1, rs1),
        ops[j] == LockOp::Put(t2, rs2),
        rs1.contains(r),
        rs2.contains(r),
        ops[c] == LockOp::Complete(t2),
    ensures
        exists|k: int| i < k < c && ops[k] == LockOp::Complete(t1),
{
    if !(exists|k: int| i < k < c && ops[k] == LockOp::Complete(t1)) {
        let pre = ops.subrange(0, c);
        lemma_prefix_allows(s, ops, c);
        assert forall|k: int| i < k < pre.len() implies pre[k] != LockOp::Complete(t1) by {
            assert(pre[k] == ops[k]);
        }
        assert(pre[i] == ops[i] && pre[j] == ops[j]);
        lemma_no_overtaking_in_history(s, pre, i, j, t1, rs1, t2, rs2, r);
        lemma_run_wf(s, pre);
        let st = s.run(pre);
        assert(st.holds_all(t2));
        assert(st.pending[t2] =~= Set::<u64>::empty()) by {
            assert forall|x: u64| !#[trigger] st.pending[t2].contains(x) by {
                if st.locks[t2].contains(x) {
                    assert(st.at_head(t2, x));
                }
            }
        }
        assert(st.ready_set().contains(t2));
    }
}

/// Lock queues keyed by record id, for transactions identified by the 128-bit
/// value of their UUID.
pub struct LockManager {
    ordered_pending_txns_for_record_lock: HashMap<u64, Vec<u128>>,
    pending_record_locks_for_txn: HashMap<u128, HashSet<u64>>,
    all_record_locks_for_txn: HashMap<u128, Vec<u64>>,
    /// The transactions in `pending_record_locks_for_txn`, in arrival order.
    waiting_txns: Vec<u128>,
}

impl View for LockManager {
    type V = LockTable;

    closed spec fn view(&self) -> LockTable {
        LockTable {
            queues: self.ordered_pending_txns_for_record_lock@.map_values(|q: Vec<u128>| q@),
            pending: self.pending_record_locks_for_txn@.map_values(|p: HashSet<u64>| p@),
            locks: self.all_record_locks_for_txn@.map_values(|l: Vec<u64>| l@.to_set()),
        }
    }
}

/// `v` without `u`, the others in their order.
fn without(v: &Vec<u128>, u: u128) -> (r: Vec<u128>)
    requires
        v@.no_duplicates(),
    ensures
        r@.no_duplicates(),
        r@.to_set() == v@.to_set().remove(u),
{
    let mut r: Vec<u128> = Vec::new();
    let mut i: usize = 0;
    while i < v.len()
        invariant
            0 <= i <= v.len(),
            v@.no_duplicates(),
            r@.no_duplicates(),
            r@.to_set() == v@.subrange(0, i as int).to_set().remove(u),
        decreases v.len() - i,
    {
        let t = v[i];
        let ghost pre = v@.subrange(0, i as int);
        proof {
            assert(v@.subrange(0, i + 1) =~= pre.push(t));
            pre.lemma_push_to_set_commute(t);
            r@.lemma_push_to_set_commute(t);
        }
        if t != u {
            assert(!pre.contains(t)) by {
                if pre.contains(t) {
                    let j = choose|j: int| 0 <= j < pre.len() && pre[j] == t;
                    assert(v@[j] == v@[i as int]);
                }
            }
            assert(!r@.to_set().contains(t));
            r.push(t);
            assert(r@.to_set() =~= v@.subrange(0, i + 1).to_set().remove(u));
        } else {
            assert(r@.to_set() =~= v@.subrange(0, i + 1).to_set().remove(u));
        }
        i = i + 1;
    }
    assert(v@.subrange(0, v.len() as int) =~= v@);
    r
}

impl LockManager {
    /// Whatever the calls made on a lock manager, its state is well formed: each
    /// record's queue head is the one transaction granted that record.
    pub proof fn lemma_inv_wf(&self)
        requires
            self.inv(),
        ensures
            self@.wf(),
    {
    }

    pub closed spec fn inv(&self) -> bool {
        &&& self@.wf()
        &&& forall|t: u128| #[trigger]
            self.all_record_locks_for_txn@.contains_key(t)
                ==> self.all_record_locks_for_txn@[t]@.no_duplicates()
        &&& self.waiting_txns@.no_duplicates()
        &&& forall|t: u128|
            self.waiting_txns@.contains(t) <==> #[trigger] self.pending_record_locks_for_txn@.contains_key(t)
    }

    pub fn new() -> (r: LockManager)
        ensures
            r.inv(),
            r@.wf(),
            r@ == (LockTable { queues: Map::empty(), pending: Map::empty(), locks: Map::empty() }),
    {
        let r = LockManager {
            ordered_pending_txns_for_record_lock: HashMap::new(),
            pending_record_locks_for_txn: HashMap::new(),
            all_record_locks_for_txn: HashMap::new(),
            waiting_txns: Vec::new(),
        };
        assert(r@.queues =~= Map::empty());
        assert(r@.pending =~= Map::empty());
        assert(r@.locks =~= Map::empty());
        r
    }

    /// Queues `txn_uuid` on every record of `record_locks`, behind whoever is
    /// already queued there. It is ready at once when none of its records had a
    /// queue.
    pub fn put_txn(&mut self, txn_uuid: u128, record_locks: Vec<u64>)
        requires
            old(self).inv(),
            !old(self)@.locks.contains_key(txn_uuid),
        ensures
            final(self).inv(),
            final(self)@.wf(),
            final(self)@ == old(self)@.put(txn_uuid, record_locks@.to_set()),
    {
        let ghost s0 = self@;
        let u = txn_uuid;
        assert forall|r: u64| #[trigger] s0.queue(r).contains(u) implies false by {
            let i = choose|i: int| 0 <= i < s0.queue(r).len() && s0.queue(r)[i] == u;
            assert(s0.queues[r][i] == u);
        }
        let mut pending: HashSet<u64> = HashSet::new();
        let mut held: Vec<u64> = Vec::new();
        let mut i: usize = 0;
        while i < record_locks.len()
            invariant
                0 <= i <= record_locks.len(),
                s0 == old(self)@,
                s0.wf(),
                !s0.locks.contains_key(u),
                forall|r: u64| #[trigger] s0.queue(r).contains(u) ==> false,
                self.pending_record_locks_for_txn == old(self).pending_record_locks_for_txn,
                self.all_record_locks_for_txn == old(self).all_record_locks_for_txn,
                self.waiting_txns == old(self).waiting_txns,
                self@.queues == s0.put(u, record_locks@.subrange(0, i as int).to_set()).queues,
                pending@ == record_locks@.subrange(0, i as int).to_set().filter(
                    |r: u64| s0.queue(r).len() > 0,
                ),
                held@.to_set() == record_locks@.subrange(0, i as int).to_set(),
                held@.no_duplicates(),
            decreases record_locks.len() - i,
        {
            let ghost done = record_locks@.subrange(0, i as int).to_set();
            let r = record_locks[i];
            let ghost done2 = record_locks@.subrange(0, i + 1).to_set();
            assert(done2 =~= done.insert(r)) by {
                assert(record_locks@.subrange(0, i + 1) =~= record_locks@.subrange(0, i as int).push(r));
                record_locks@.subrange(0, i as int).lemma_push_to_set_commute(r);
            }
            let ghost start = self@.queues;
            let mut q = match self.ordered_pending_txns_for_record_lock.remove(&r) {
                Some(q) => q,
                None => Vec::new(),
            };
            assert(q@ == s0.put(u, done).queue(r));
            let seen = q.len() > 0 && q[q.len() - 1] == u;
            assert(seen == done.contains(r)) by {
                if !done.contains(r) && q.len() > 0 {
                    assert(s0.queue(r).contains(q@[q.len() - 1]));
                }
            }
            if !seen {
                if q.len() > 0 {
                    pending.insert(r);
                }
                q.push(u);
                assert(!held@.contains(r));
                proof {
                    held@.lemma_push_to_set_commute(r);
                }
                held.push(r);
            }
            assert(q@ == s0.put(u, done2).queues[r]);
            let ghost before = self.ordered_pending_txns_for_record_lock@;
            self.ordered_pending_txns_for_record_lock.insert(r, q);
            assert forall|x: u64| x != r implies (#[trigger] self@.queues.contains_key(x)
                == s0.put(u, done2).queues.contains_key(x)) && (self@.queues.contains_key(x)
                ==> self@.queues[x] == s0.put(u, done2).queues[x]) by {
                assert(self.ordered_pending_txns_for_record_lock@.contains_key(x) == before.contains_key(x));
                assert(done2.contains(x) == done.contains(x));
                assert(start.contains_key(x) == s0.put(u, done).queues.contains_key(x));
                if start.contains_key(x) {
                    assert(self@.queues[x] == start[x]);
                }
            }
            assert(self@.queues =~= s0.put(u, done2).queues);
            assert(pending@ =~= done2.filter(|r: u64| s0.queue(r).len() > 0));
            assert(held@.to_set() =~= done2);
            i = i + 1;
        }
        let ghost rs = record_locks@.to_set();
        assert(record_locks@.subrange(0, record_locks.len() as int) =~= record_locks@);
        assert(!self.waiting_txns@.contains(u)) by {
            if self.waiting_txns@.contains(u) {
                assert(self.pending_record_locks_for_txn@.contains_key(u));
                assert(s0.pending.contains_key(u));
            }
        }
        self.pending_record_locks_for_txn.insert(u, pending);
        self.all_record_locks_for_txn.insert(u, held);
        self.waiting_txns.push(u);
        assert(self@.pending =~= s0.put(u, rs).pending);
        assert(self@.locks =~= s0.put(u, rs).locks);
        assert(self@ == s0.put(u, rs));
        proof {
            lemma_put_wf(s0, u, rs);
        }
        assert forall|t: u128|
            self.waiting_txns@.contains(t) <==> #[trigger] self.pending_record_locks_for_txn@.contains_key(t) by {
            if self.waiting_txns@.contains(t) && t != u {
                let k = choose|k: int| 0 <= k < self.waiting_txns@.len() && self.waiting_txns@[k] == t;
                assert(old(self).waiting_txns@[k] == t);
            }
            if t == u {
                assert(self.waiting_txns@[self.waiting_txns@.len() - 1] == u);
            }
            if old(self).waiting_txns@.contains(t) {
                let k = choose|k: int| 0 <= k < old(self).waiting_txns@.len() && old(self).waiting_txns@[k] == t;
                assert(self.waiting_txns@[k] == t);
            }
        }
    }

    /// Hands out every transaction that waits for no lock any more. They keep
    /// their locks until `complete_txn`.
    pub fn pop_ready_txns(&mut self) -> (r: Vec<u128>)
        requires
            old(self).inv(),
        ensures
            final(self).inv(),
            final(self)@.wf(),
            final(self)@ == old(self)@.pop_ready(),
            r@.no_duplicates(),
            r@.to_set() == old(self)@.ready_set(),
    {
        let ghost s0 = self@;
        let mut ready: Vec<u128> = Vec::new();
        let mut rest: Vec<u128> = Vec::new();
        let mut i: usize = 0;
        while i < self.waiting_txns.len()
            invariant
                0 <= i <= self.waiting_txns.len(),
                self == old(self),
                s0 == self@,
                self.inv(),
                ready@.no_duplicates(),
                rest@.no_duplicates(),
                ready@.to_set() == self.waiting_txns@.subrange(0, i as int).to_set().filter(
                    |t: u128| s0.ready_set().contains(t),
                ),
                rest@.to_set() == self.waiting_txns@.subrange(0, i as int).to_set().filter(
                    |t: u128| !s0.ready_set().contains(t),
                ),
            decreases self.waiting_txns.len() - i,
        {
            let t = self.waiting_txns[i];
            let ghost pre = self.waiting_txns@.subrange(0, i as int);
            proof {
                assert(self.waiting_txns@.subrange(0, i + 1) =~= pre.push(t));
                pre.lemma_push_to_set_commute(t);
                ready@.lemma_push_to_set_commute(t);
                rest@.lemma_push_to_set_commute(t);
                assert(self.waiting_txns@.contains(t));
            }
            assert(!pre.contains(t)) by {
                if pre.contains(t) {
                    let j = choose|j: int| 0 <= j < pre.len() && pre[j] == t;
                    assert(self.waiting_txns@[j] == self.waiting_txns@[i as int]);
                }
            }
            let is_ready = match self.pending_record_locks_for_txn.get(&t) {
                Some(p) => p.is_empty(),
                None => false,
            };
            assert(is_ready == s0.ready_set().contains(t)) by {
                if is_ready {
                    assert(s0.pending[t] =~= Set::<u64>::empty());
                }
            }
            if is_ready {
                assert(!ready@.to_set().contains(t));
                ready.push(t);
            } else {
                assert(!rest@.to_set().contains(t));
                rest.push(t);
            }
            assert(ready@.to_set() =~= self.waiting_txns@.subrange(0, i + 1).to_set().filter(
                |t: u128| s0.ready_set().contains(t),
            ));
            assert(rest@.to_set() =~= self.waiting_txns@.subrange(0, i + 1).to_set().filter(
                |t: u128| !s0.ready_set().contains(t),
            ));
            i = i + 1;
        }
        assert(self.waiting_txns@.subrange(0, self.waiting_txns.len() as int) =~= self.waiting_txns@);
        assert(ready@.to_set() =~= s0.ready_set());
        let mut j: usize = 0;
        while j < ready.len()
            invariant
                0 <= j <= ready.len(),
                self.pending_record_locks_for_txn@ == old(
                    self,
                ).pending_record_locks_for_txn@.remove_keys(ready@.subrange(0, j as int).to_set()),
                self.ordered_pending_txns_for_record_lock == old(self).ordered_pending_txns_for_record_lock,
                self.all_record_locks_for_txn == old(self).all_record_locks_for_txn,
                self.waiting_txns == old(self).waiting_txns,
            decreases ready.len() - j,
        {
            let t = ready[j];
            proof {
                assert(ready@.subrange(0, j + 1) =~= ready@.subrange(0, j as int).push(t));
                ready@.subrange(0, j as int).lemma_push_to_set_commute(t);
            }
            self.pending_record_locks_for_txn.remove(&t);
            assert(self.pending_record_locks_for_txn@ =~= old(
                self,
            ).pending_record_locks_for_txn@.remove_keys(ready@.subrange(0, j + 1).to_set()));
            j = j + 1;
        }
        assert(ready@.subrange(0, ready.len() as int) =~= ready@);
        self.waiting_txns = rest;
        assert(self@.pending =~= s0.pop_ready().pending);
        assert(self@ == s0.pop_ready());
        proof {
            lemma_pop_ready_wf(s0);
        }
        assert forall|t: u128|
            self.waiting_txns@.contains(t) <==> #[trigger] self.pending_record_locks_for_txn@.contains_key(t) by {
            assert(self.waiting_txns@.to_set().contains(t) == self.waiting_txns@.contains(t));
            assert(old(self).waiting_txns@.to_set().contains(t) == old(self).waiting_txns@.contains(t));
        }
        ready
    }

    /// Releases the locks of `txn_uuid`, which holds all of them. Each record's
    /// next transaction in line, if any, is granted that record.
    pub fn complete_txn(&mut self, txn_uuid: u128)
        requires
            old(self).inv(),
            old(self)@.holds_all(txn_uuid),
        ensures
            final(self).inv(),
            final(self)@.wf(),
            final(self)@ == old(self)@.complete(txn_uuid),
    {
        let ghost s0 = self@;
        let u = txn_uuid;
        let ghost rs = s0.locks[u];
        let held = match self.all_record_locks_for_txn.remove(&u) {
            Some(h) => h,
            None => Vec::new(),
        };
        assert(held@.to_set() == rs);
        self.pending_record_locks_for_txn.remove(&u);
        self.waiting_txns = without(&self.waiting_txns, u);
        assert forall|t: u128|
            self.waiting_txns@.contains(t) <==> old(self).waiting_txns@.contains(t) && t != u by {
            assert(self.waiting_txns@.to_set().contains(t) == self.waiting_txns@.contains(t));
            assert(old(self).waiting_txns@.to_set().contains(t) == old(self).waiting_txns@.contains(t));
        }
        assert forall|t: u128| #[trigger] self@.pending.contains_key(t) implies self@.pending[t]
            =~= s0.pending[t].filter(
            |r: u64|
                !(held@.subrange(0, 0).contains(r) && s0.queues[r].len() > 1 && s0.queues[r][1] == t),
        ) by {}
        assert(self@.pending =~= Map::new(
            |t: u128| s0.pending.contains_key(t) && t != u,
            |t: u128|
                s0.pending[t].filter(
                    |r: u64|
                        !(held@.subrange(0, 0).contains(r) && s0.queues[r].len() > 1
                            && s0.queues[r][1] == t),
                ),
        ));
        let mut i: usize = 0;
        while i < held.len()
            invariant
                0 <= i <= held.len(),
                s0 == old(self)@,
                s0.wf(),
                s0.holds_all(u),
                rs == s0.locks[u],
                held@.no_duplicates(),
                held@.to_set() == rs,
                self.all_record_locks_for_txn@ == old(self).all_record_locks_for_txn@.remove(u),
                self.waiting_txns@.no_duplicates(),
                forall|t: u128|
                    self.waiting_txns@.contains(t) <==> old(self).waiting_txns@.contains(t) && t != u,
                self@.queues == Map::new(
                    |r: u64|
                        s0.queues.contains_key(r) && !(held@.subrange(0, i as int).contains(r)
                            && s0.queues[r].len() == 1),
                    |r: u64|
                        if held@.subrange(0, i as int).contains(r) {
                            s0.queues[r].drop_first()
                        } else {
                            s0.queues[r]
                        },
                ),
                self@.pending == Map::new(
                    |t: u128| s0.pending.contains_key(t) && t != u,
                    |t: u128|
                        s0.pending[t].filter(
                            |r: u64|
                                !(held@.subrange(0, i as int).contains(r) && s0.queues[r].len() > 1
                                    && s0.queues[r][1] == t),
                        ),
                ),
            decreases held.len() - i,
        {
            let r = held[i];
            let ghost done = held@.subrange(0, i as int);
            let ghost done2 = held@.subrange(0, i + 1);
            assert(done2 =~= done.push(r));
            assert(!done.contains(r)) by {
                if done.contains(r) {
                    let j = choose|j: int| 0 <= j < done.len() && done[j] == r;
                    assert(held@[j] == held@[i as int]);
                }
            }
            assert(rs.contains(r)) by {
                assert(held@.to_set().contains(r));
            }
            assert(s0.at_head(u, r));
            let ghost start_q = self@.queues;
            let ghost start_p = self@.pending;
            let ghost start_exec = self.ordered_pending_txns_for_record_lock@;
            assert(start_q.contains_key(r) && start_q[r] == s0.queues[r]);
            assert(start_exec.contains_key(r) && start_exec[r]@ == s0.queues[r]);
            let mut q = match self.ordered_pending_txns_for_record_lock.remove(&r) {
                Some(q) => q,
                None => Vec::new(),
            };
            assert(q@ == s0.queues[r]);
            q.remove(0);
            assert(q@ =~= s0.queues[r].drop_first());
            if q.len() > 0 {
                let h = q[0];
                assert(h == s0.queues[r][1]);
                match self.pending_record_locks_for_txn.remove(&h) {
                    Some(mut p) => {
                        p.remove(&r);
                        self.pending_record_locks_for_txn.insert(h, p);
                    },
                    None => {},
                }
                self.ordered_pending_txns_for_record_lock.insert(r, q);
            }
            assert forall|x: u64| x != r implies (#[trigger] self@.queues.contains_key(x)
                == start_q.contains_key(x)) && (self@.queues.contains_key(x) ==> self@.queues[x]
                == start_q[x]) by {}
            assert forall|x: u64| #[trigger] done2.contains(x) == (done.contains(x) || x == r) by {
                if done2.contains(x) {
                    let j = choose|j: int| 0 <= j < done2.len() && done2[j] == x;
                    if j < i {
                        assert(done[j] == x);
                    }
                }
                if done.contains(x) {
                    let j = choose|j: int| 0 <= j < done.len() && done[j] == x;
                    assert(done2[j] == x);
                }
                if x == r {
                    assert(done2[i as int] == x);
                }
            }
            assert(self@.queues =~= Map::new(
                |r: u64|
                    s0.queues.contains_key(r) && !(done2.contains(r) && s0.queues[r].len() == 1),
                |r: u64|
                    if done2.contains(r) {
                        s0.queues[r].drop_first()
                    } else {
                        s0.queues[r]
                    },
            ));
            assert forall|t: u128| #[trigger] self@.pending.contains_key(t) implies self@.pending[t]
                =~= s0.pending[t].filter(
                |x: u64|
                    !(done2.contains(x) && s0.queues[x].len() > 1 && s0.queues[x][1] == t),
            ) by {
                assert(start_p.contains_key(t));
                if s0.queues[r].len() > 1 && s0.queues[r][1] == t {
                    assert(self@.pending[t] == start_p[t].remove(r));
                } else {
                    assert(self@.pending[t] == start_p[t]);
                }
            }
            assert(self@.pending =~= Map::new(
                |t: u128| s0.pending.contains_key(t) && t != u,
                |t: u128|
                    s0.pending[t].filter(
                        |x: u64|
                            !(done2.contains(x) && s0.queues[x].len() > 1 && s0.queues[x][1] == t),
                    ),
            ));
            i = i + 1;
        }
        assert(held@.subrange(0, held.len() as int) =~= held@);
        assert forall|x: u64| held@.contains(x) == rs.contains(x) by {
            assert(held@.to_set().contains(x) == held@.contains(x));
        }
        assert(self@.queues =~= s0.complete(u).queues);
        assert forall|t: u128| #[trigger] self@.pending.contains_key(t) implies self@.pending[t]
            =~= s0.complete(u).pending[t] by {}
        assert(self@.pending =~= s0.complete(u).pending);
        assert(self@.locks =~= s0.complete(u).locks);
        proof {
            lemma_complete_wf(s0, u);
        }
        assert forall|t: u128|
            self.waiting_txns@.contains(t) <==> #[trigger] self.pending_record_locks_for_txn@.contains_key(t) by {
            assert(old(self).waiting_txns@.contains(t) == old(self).pending_record_locks_for_txn@.contains_key(t));
            assert(self.pending_record_locks_for_txn@.contains_key(t) == self@.pending.contains_key(t));
            assert(old(self).pending_record_locks_for_txn@.contains_key(t) == s0.pending.contains_key(t));
        }
    }

    /// Whether `txn_uuid` is queued or holds locks.
    pub fn is_tracked(&self, txn_uuid: u128) -> (r: bool)
        ensures
            r == self@.locks.contains_key(txn_uuid),
    {
        self.all_record_locks_for_txn.contains_key(&txn_uuid)
    }

    /// Whether `txn_uuid` is at the head of the queue of every record it locks.
    pub fn holds_all_locks(&self, txn_uuid: u128) -> (r: bool)
        requires
            self.inv(),
        ensures
            r == self@.holds_all(txn_uuid),
    {
        let t = txn_uuid;
        match self.all_record_locks_for_txn.get(&t) {
            None => false,
            Some(rs) => {
                let ghost set = self@.locks[t];
                assert(set == rs@.to_set());
                let mut i: usize = 0;
                let mut ok = true;
                while i < rs.len() && ok
                    invariant
                        0 <= i <= rs.len(),
                        set == rs@.to_set(),
                        self@.locks.contains_key(t),
                        set == self@.locks[t],
                        forall|j: int| 0 <= j < i ==> #[trigger] self@.at_head(t, rs@[j]),
                        !ok ==> !self@.holds_all(t),
                    decreases rs.len() - i + (if ok { 1int } else { 0int }),
                {
                    let r = rs[i];
                    let head_ok = match self.ordered_pending_txns_for_record_lock.get(&r) {
                        Some(q) => q.len() > 0 && q[0] == t,
                        None => false,
                    };
                    if !head_ok {
                        assert(set.contains(r));
                        assert(!self@.at_head(t, r));
                        assert(self@.locks[t].contains(r));
                        ok = false;
                    } else {
                        i = i + 1;
                    }
                }
                if ok {
                    assert forall|r: u64| #[trigger] set.contains(r) implies self@.at_head(t, r) by {
                        assert(rs@.contains(r));
                        let j = choose|j: int| 0 <= j < rs@.len() && rs@[j] == r;
                        assert(self@.at_head(t, rs@[j]));
                    }
                }
                ok
            },
        }
    }
}

} // verus!
