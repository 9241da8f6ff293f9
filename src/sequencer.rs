//! The replies that a node owes its clients. A node accepts a request, gives it
//! a transaction id, and registers where to answer; when a transaction from the
//! shared log completes, it is answered only by the node that registered it.

use std::collections::HashMap;
use vstd::prelude::*;

verus! {

broadcast use vstd::std_specs::hash::group_hash_axioms;

/// For each transaction accepted on this node and not answered yet, the channel
/// to answer on.
pub struct PendingReplies<T> {
    replies: HashMap<u128, T>,
}

impl<T> View for PendingReplies<T> {
    type V = Map<u128, T>;

    closed spec fn view(&self) -> Map<u128, T> {
        self.replies@
    }
}

impl<T> PendingReplies<T> {
    pub fn new() -> (r: PendingReplies<T>)
        ensures
            r@ == Map::<u128, T>::empty(),
    {
        PendingReplies { replies: HashMap::new() }
    }

    /// Records where to answer transaction `txn`.
    pub fn register(&mut self, txn: u128, reply: T)
        ensures
            final(self)@ == old(self)@.insert(txn, reply),
    {
        self.replies.insert(txn, reply);
    }

    /// Called when transaction `txn` completes: the channel to answer on when it
    /// was accepted here, and `None` when it came from another node. A
    /// transaction is answered at most once.
    pub fn take(&mut self, txn: u128) -> (r: Option<T>)
        ensures
            old(self)@.contains_key(txn) ==> r == Some(old(self)@[txn]),
            !old(self)@.contains_key(txn) ==> r is None,
            final(self)@ == old(self)@.remove(txn),
    {
        self.replies.remove(&txn)
    }
}

} // verus!
