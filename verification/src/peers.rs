//! Per-peer bookkeeping: the protocol state of each connected peer and the
//! peer table, kept strictly ordered by peer handle so that a tick visits
//! peers in a stable, deterministic order.

use vstd::prelude::*;

use crate::ancestor::AncestorSearch;
use crate::types::Role;

verus! {

/// Per-peer protocol state.  At most one request is in flight per peer; the
/// variant records which kind, so the bound holds by construction.
#[derive(Clone, Copy, Debug)]
pub enum PeerSyncState {
    /// No request in flight.
    Available,
    /// An ancestor-search probe is in flight.
    Probing(AncestorSearch),
    /// An ascending block-range request is in flight, starting at `next`,
    /// chasing the peer's reported best; `retries` guard malformed replies.
    Ranging { next: u64, retries: u64 },
    /// A descending request is in flight for the fork-target block `hash`,
    /// starting at the block `from`.
    ForkFetch { hash: u64, from: u64 },
    /// A justification request is in flight for the block `hash`.
    Justifying { hash: u64 },
    /// No common ancestor within the configured depth, or repeated bad
    /// replies: the peer serves no further downloads.
    Incompatible,
}

/// Per-peer bookkeeping, created at handshake and dropped at disconnect.
#[derive(Clone, Copy, Debug)]
pub struct PeerInfo {
    /// The peer handle; key of the peer table.
    pub id: u64,
    pub role: Role,
    /// The peer's reported best block; only ever raised.
    pub best_hash: u64,
    pub best_number: u64,
    /// Highest block number verified identical on both chains, clamped to
    /// the local best.
    pub common_number: u64,
    pub state: PeerSyncState,
}

/// The peer table, strictly ordered by peer handle.
pub struct PeerTable {
    pub v: Vec<PeerInfo>,
}

impl PeerTable {
    /// Strict ordering by handle; implies that handles are unique.
    pub open spec fn wf(self) -> bool {
        forall|i: int, j: int|
            0 <= i < j < self.v@.len() ==> (#[trigger] self.v@[i]).id < (#[trigger] self.v@[j]).id
    }

    /// Whether a peer with this handle is connected.
    pub open spec fn spec_has(self, id: u64) -> bool {
        exists|i: int| 0 <= i < self.v@.len() && (#[trigger] self.v@[i]).id == id
    }

    /// The index of the peer with this handle.
    pub open spec fn spec_index_of(self, id: u64) -> int {
        choose|i: int| 0 <= i < self.v@.len() && (#[trigger] self.v@[i]).id == id
    }

    /// An empty table.
    pub fn new() -> (r: PeerTable)
        ensures
            r.wf(),
            r.v@.len() == 0,
    {
        PeerTable { v: Vec::new() }
    }

    /// Number of connected peers.
    pub fn len(&self) -> (r: usize)
        ensures
            r == self.v@.len(),
    {
        self.v.len()
    }

    /// Under the table's ordering, the index found for a handle is the only
    /// one carrying it.
    pub proof fn lemma_index_unique(self, i: int)
        requires
            self.wf(),
            0 <= i < self.v@.len(),
        ensures
            self.spec_has(self.v@[i].id),
            self.spec_index_of(self.v@[i].id) == i,
    {
        let id = self.v@[i].id;
        assert(self.spec_has(id));
        let j = self.spec_index_of(id);
        if i < j {
            assert(self.v@[i].id < self.v@[j].id);
        } else if j < i {
            assert(self.v@[j].id < self.v@[i].id);
        }
    }

    /// Index of the peer with handle `id`, if connected.
    pub fn find(&self, id: u64) -> (r: Option<usize>)
        ensures
            match r {
                Some(i) => (i as int) < self.v@.len() && self.v@[i as int].id == id,
                None => !self.spec_has(id),
            },
    {
        let mut i: usize = 0;
        while i < self.v.len()
            invariant
                i <= self.v@.len(),
                forall|j: int| 0 <= j < i ==> (#[trigger] self.v@[j]).id != id,
            decreases self.v@.len() - i,
        {
            if self.v[i].id == id {
                return Some(i);
            }
            i = i + 1;
        }
        None
    }

    /// Replace the entry at `i`, keeping its handle, so the ordering stands.
    pub fn set_at(&mut self, i: usize, p: PeerInfo)
        requires
            old(self).wf(),
            (i as int) < old(self).v@.len(),
            p.id == old(self).v@[i as int].id,
        ensures
            final(self).wf(),
            final(self).v@ == old(self).v@.update(i as int, p),
    {
        self.v.set(i, p);
        proof {
            assert forall|a: int, b: int| 0 <= a < b < self.v@.len() implies (
            #[trigger] self.v@[a]).id < (#[trigger] self.v@[b]).id by {
                assert(old(self).v@[a].id < old(self).v@[b].id);
            }
        }
    }

    /// Connect a peer: insert its entry at its ordered position.  Fails on a
    /// duplicate handle, leaving the table unchanged.
    pub fn insert(&mut self, p: PeerInfo) -> (r: bool)
        requires
            old(self).wf(),
        ensures
            final(self).wf(),
            r == !old(self).spec_has(p.id),
            !r ==> *final(self) == *old(self),
            r ==> exists|k: int|
                0 <= k <= old(self).v@.len() && final(self).v@ == #[trigger] old(self).v@.insert(
                    k,
                    p,
                ),
            r ==> final(self).spec_has(p.id),
    {
        let mut k: usize = 0;
        while k < self.v.len() && self.v[k].id < p.id
            invariant
                k <= self.v@.len(),
                forall|j: int| 0 <= j < k ==> (#[trigger] self.v@[j]).id < p.id,
            decreases self.v@.len() - k,
        {
            k = k + 1;
        }
        if k < self.v.len() && self.v[k].id == p.id {
            proof {
                self.lemma_index_unique(k as int);
            }
            return false;
        }
        // Every entry before k is below p.id; entry k (if any) is above it.
        proof {
            assert forall|j: int| 0 <= j < old(self).v@.len() implies (
            #[trigger] old(self).v@[j]).id != p.id by {
                if j >= k {
                    assert(old(self).v@[k as int].id <= old(self).v@[j].id);
                }
            }
        }
        let ghost oldv = self.v@;
        self.v.insert(k, p);
        proof {
            assert(self.v@ == oldv.insert(k as int, p));
            assert forall|a: int, b: int| 0 <= a < b < self.v@.len() implies (
            #[trigger] self.v@[a]).id < (#[trigger] self.v@[b]).id by {
                if b < k {
                    assert(self.v@[a] == oldv[a] && self.v@[b] == oldv[b]);
                } else if a < k && b == k {
                    assert(self.v@[a] == oldv[a]);
                } else if a < k && b > k {
                    assert(self.v@[a] == oldv[a] && self.v@[b] == oldv[b - 1]);
                } else if a == k {
                    assert(self.v@[b] == oldv[b - 1]);
                    assert(oldv[k as int].id <= oldv[b - 1].id);
                } else {
                    assert(self.v@[a] == oldv[a - 1] && self.v@[b] == oldv[b - 1]);
                }
            }
            assert(self.v@[k as int].id == p.id);
        }
        true
    }

    /// Disconnect a peer: drop its entry, leaving every other entry exactly
    /// as it was.
    pub fn remove(&mut self, id: u64) -> (r: Option<PeerInfo>)
        requires
            old(self).wf(),
        ensures
            final(self).wf(),
            r is None ==> *final(self) == *old(self) && !old(self).spec_has(id),
            r matches Some(p) ==> p.id == id && exists|k: int|
                0 <= k < old(self).v@.len() && old(self).v@[k] == p && final(self).v@
                    == #[trigger] old(self).v@.remove(k),
    {
        match self.find(id) {
            Some(k) => {
                let p = self.v.remove(k);
                proof {
                    let oldv = old(self).v@;
                    assert(self.v@ == oldv.remove(k as int));
                    assert forall|a: int, b: int| 0 <= a < b < self.v@.len() implies (
                    #[trigger] self.v@[a]).id < (#[trigger] self.v@[b]).id by {
                        if b < k {
                            assert(self.v@[a] == oldv[a] && self.v@[b] == oldv[b]);
                        } else if a < k {
                            assert(self.v@[a] == oldv[a] && self.v@[b] == oldv[b + 1]);
                        } else {
                            assert(self.v@[a] == oldv[a + 1] && self.v@[b] == oldv[b + 1]);
                        }
                    }
                }
                Some(p)
            }
            None => None,
        }
    }
}

} // verus!
