//! Partitioning of the virtual-node space among peers.

use vstd::arithmetic::div_mod::lemma_add_mod_noop;
use vstd::prelude::*;

verus! {

/// A peer, identified by the 128-bit value of its UUID.
#[derive(Clone, Copy, Debug, Hash, PartialEq, Eq, PartialOrd, Ord, Structural)]
pub struct Peer {
    pub id: u128,
}

/// The virtual nodes from `start` up to, not including, `end`; an `end` of `0`
/// stands for the top of the space.
#[derive(Clone, Copy, Debug, PartialEq, Eq, Structural)]
pub struct VnodeRange {
    pub start: u16,
    pub end: u16,
}

/// The peers of this process, itself included.
#[derive(Clone, Debug)]
pub struct PeerManager {
    pub local_peers: Vec<Peer>,
}

/// The width of each peer's share of the virtual nodes among `n` peers, with
/// `n` taken as a `u16`.
pub open spec fn step_of(n: nat) -> nat {
    65535nat / (n % 65536)
}

/// The share of the `i`-th peer in id order among `n` peers: consecutive
/// steps, wrapping at the top, the last share running to the top.
pub open spec fn range_of(i: nat, n: nat) -> VnodeRange {
    VnodeRange {
        start: ((i * step_of(n)) % 65536) as u16,
        end: if i + 1 == n {
            0
        } else {
            (((i + 1) * step_of(n)) % 65536) as u16
        },
    }
}

/// Relies on `slice::sort_unstable`: the same ids, in ascending order.
#[verifier::external_body]
fn sort_ids(v: &mut Vec<u128>)
    ensures
        final(v)@.to_multiset() == old(v)@.to_multiset(),
        final(v)@.len() == old(v)@.len(),
        forall|i: int, j: int| 0 <= i < j < final(v)@.len() ==> final(v)@[i] <= final(v)@[j],
{
    v.sort_unstable();
}

impl PeerManager {
    /// The share of each peer, in ascending order of id.
    pub fn get_local_peer_ranges(&self) -> (r: Vec<(Peer, VnodeRange)>)
        requires
            self.local_peers@.len() % 65536 != 0,
        ensures
            r@.len() == self.local_peers@.len(),
            r@.map_values(|p: (Peer, VnodeRange)| p.0.id).to_multiset()
                == self.local_peers@.map_values(|p: Peer| p.id).to_multiset(),
            forall|i: int, j: int| 0 <= i < j < r@.len() ==> r@[i].0.id <= r@[j].0.id,
            forall|i: int|
                0 <= i < r@.len() ==> #[trigger] r@[i].1 == range_of(i as nat, r@.len() as nat),
    {
        let n = self.local_peers.len();
        let mut ids: Vec<u128> = Vec::new();
        let mut i: usize = 0;
        while i < n
            invariant
                0 <= i <= n,
                n == self.local_peers@.len(),
                ids@ == self.local_peers@.subrange(0, i as int).map_values(|p: Peer| p.id),
            decreases n - i,
        {
            ids.push(self.local_peers[i].id);
            assert(ids@ =~= self.local_peers@.subrange(0, i + 1).map_values(|p: Peer| p.id));
            i = i + 1;
        }
        assert(self.local_peers@.subrange(0, n as int) =~= self.local_peers@);
        let ghost unsorted = ids@;
        sort_ids(&mut ids);
        let count: u16 = (n % 65536) as u16;
        let step: u16 = u16::MAX / count;
        let mut start: u16 = 0;
        let mut r: Vec<(Peer, VnodeRange)> = Vec::new();
        let mut k: usize = 0;
        while k < n
            invariant
                0 <= k <= n,
                ids@.len() == n,
                n == self.local_peers@.len(),
                n % 65536 != 0,
                step as nat == step_of(n as nat),
                start as nat == (k * step_of(n as nat)) % 65536,
                r@.len() == k,
                forall|j: int| 0 <= j < k ==> #[trigger] r@[j].0.id == ids@[j],
                forall|j: int| 0 <= j < k ==> #[trigger] r@[j].1 == range_of(j as nat, n as nat),
            decreases n - k,
        {
            let next = start.wrapping_add(step);
            proof {
                lemma_add_mod_noop((k * step_of(n as nat)) as int, step as int, 65536);
                assert((k * step_of(n as nat)) + step_of(n as nat) == (k + 1) * step_of(n as nat)) by (nonlinear_arith);
                assert(step_of(n as nat) % 65536 == step_of(n as nat));
            }
            let end: u16 = if k + 1 == n {
                0
            } else {
                next
            };
            r.push((Peer { id: ids[k] }, VnodeRange { start, end }));
            start = next;
            k = k + 1;
        }
        assert(r@.map_values(|p: (Peer, VnodeRange)| p.0.id) =~= ids@);
        r
    }
}

} // verus!
