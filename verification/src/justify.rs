//! Tracking of pending finality-proof requests.
//!
//! Requests are keyed by block hash, not height, so justifications for two
//! sibling blocks at the same height resolve independently.  A request stays
//! tracked until a valid response resolves it; failures only defer it, and
//! every change of the connected-peer set clears the failure marks so the
//! request is retried.

use vstd::prelude::*;

verus! {

/// One pending finality-proof request.
#[derive(Debug)]
pub struct JustRequest {
    /// Hash of the block whose proof is wanted: the key.
    pub hash: u64,
    /// The height the block was reported at (informational, not the key).
    pub number: u64,
    /// The peer currently asked, if a request is in flight.
    pub active: Option<u64>,
    /// Peers that failed this request since the peer set last changed.
    pub tried: Vec<u64>,
}

/// All pending finality-proof requests, keyed by hash.
pub struct JustTracker {
    pub v: Vec<JustRequest>,
}

impl JustTracker {
    /// Keys are unique.
    pub open spec fn wf(self) -> bool {
        forall|i: int, j: int|
            0 <= i < j < self.v@.len() ==> (#[trigger] self.v@[i]).hash != (
            #[trigger] self.v@[j]).hash
    }

    /// Whether a request for this block is tracked.
    pub open spec fn spec_has(self, hash: u64) -> bool {
        exists|i: int| 0 <= i < self.v@.len() && (#[trigger] self.v@[i]).hash == hash
    }

    /// The index of the request for this block.
    pub open spec fn spec_index_of(self, hash: u64) -> int {
        choose|i: int| 0 <= i < self.v@.len() && (#[trigger] self.v@[i]).hash == hash
    }

    /// An empty tracker.
    pub fn new() -> (r: JustTracker)
        ensures
            r.wf(),
            r.v@.len() == 0,
    {
        JustTracker { v: Vec::new() }
    }

    /// Under unique keys, an index carrying a hash is the only one.
    pub proof fn lemma_index_unique(self, i: int)
        requires
            self.wf(),
            0 <= i < self.v@.len(),
        ensures
            self.spec_has(self.v@[i].hash),
            self.spec_index_of(self.v@[i].hash) == i,
    {
        let h = self.v@[i].hash;
        assert(self.spec_has(h));
        let j = self.spec_index_of(h);
        if i < j {
            assert(self.v@[i].hash != self.v@[j].hash);
        } else if j < i {
            assert(self.v@[j].hash != self.v@[i].hash);
        }
    }

    /// Index of the request for `hash`, if tracked.
    pub fn find(&self, hash: u64) -> (r: Option<usize>)
        ensures
            match r {
                Some(i) => (i as int) < self.v@.len() && self.v@[i as int].hash == hash,
                None => !self.spec_has(hash),
            },
    {
        let mut i: usize = 0;
        while i < self.v.len()
            invariant
                i <= self.v@.len(),
                forall|j: int| 0 <= j < i ==> (#[trigger] self.v@[j]).hash != hash,
            decreases self.v@.len() - i,
        {
            if self.v[i].hash == hash {
                return Some(i);
            }
            i = i + 1;
        }
        None
    }

    /// Track a request for the proof of block `hash` at height `number`.  A
    /// request already tracked for the same block is left untouched, so a
    /// request is never restarted or dropped by re-asking.
    pub fn add(&mut self, hash: u64, number: u64) -> (r: bool)
        requires
            old(self).wf(),
        ensures
            final(self).wf(),
            r == !old(self).spec_has(hash),
            !r ==> *final(self) == *old(self),
            r ==> final(self).v@.len() == old(self).v@.len() + 1 && final(self).v@.subrange(
                0,
                old(self).v@.len() as int,
            ) == old(self).v@ && ({
                let e = final(self).v@[old(self).v@.len() as int];
                e.hash == hash && e.number == number && e.active is None && e.tried@.len() == 0
            }),
            final(self).spec_has(hash),
    {
        match self.find(hash) {
            Some(i) => {
                proof {
                    self.lemma_index_unique(i as int);
                }
                false
            }
            None => {
                let ghost oldv = self.v@;
                self.v.push(JustRequest { hash, number, active: None, tried: Vec::new() });
                proof {
                    assert forall|i: int, j: int| 0 <= i < j < self.v@.len() implies (
                    #[trigger] self.v@[i]).hash != (#[trigger] self.v@[j]).hash by {
                        if j < oldv.len() {
                            assert(self.v@[i] == oldv[i] && self.v@[j] == oldv[j]);
                        } else {
                            assert(self.v@[i] == oldv[i]);
                            if oldv[i].hash == hash {
                                assert(old(self).spec_has(hash));
                            }
                        }
                    }
                    assert(self.v@.subrange(0, oldv.len() as int) =~= oldv);
                }
                true
            }
        }
    }

    /// The connected-peer set changed: clear every failure mark, and release
    /// any request that was in flight to the removed peer, so all pending
    /// requests are retried.  No request is dropped.
    pub fn peer_set_changed(&mut self, removed: Option<u64>)
        requires
            old(self).wf(),
        ensures
            final(self).wf(),
            final(self).v@.len() == old(self).v@.len(),
            forall|i: int|
                0 <= i < final(self).v@.len() ==> {
                    let e = #[trigger] final(self).v@[i];
                    let o = old(self).v@[i];
                    &&& e.hash == o.hash
                    &&& e.number == o.number
                    &&& e.tried@.len() == 0
                    &&& e.active == (if o.active == removed {
                        None::<u64>
                    } else {
                        o.active
                    })
                },
    {
        let mut i: usize = 0;
        while i < self.v.len()
            invariant
                old(self).wf(),
                i <= self.v@.len(),
                self.v@.len() == old(self).v@.len(),
                forall|j: int|
                    (i as int) <= j < self.v@.len() ==> #[trigger] self.v@[j] == old(self).v@[j],
                forall|j: int|
                    0 <= j < (i as int) ==> {
                        let e = #[trigger] self.v@[j];
                        let o = old(self).v@[j];
                        &&& e.hash == o.hash
                        &&& e.number == o.number
                        &&& e.tried@.len() == 0
                        &&& e.active == (if o.active == removed {
                            None::<u64>
                        } else {
                            o.active
                        })
                    },
            decreases self.v@.len() - i,
        {
            let hash = self.v[i].hash;
            let number = self.v[i].number;
            let active: Option<u64> = match self.v[i].active {
                Some(p) => {
                    let clear = match removed {
                        Some(rp) => rp == p,
                        None => false,
                    };
                    if clear {
                        None
                    } else {
                        Some(p)
                    }
                }
                None => None,
            };
            self.v.set(i, JustRequest { hash, number, active, tried: Vec::new() });
            i = i + 1;
        }
        proof {
            assert forall|i: int, j: int| 0 <= i < j < self.v@.len() implies (
            #[trigger] self.v@[i]).hash != (#[trigger] self.v@[j]).hash by {
                assert(self.v@[i].hash == old(self).v@[i].hash);
                assert(self.v@[j].hash == old(self).v@[j].hash);
            }
        }
    }

    /// Whether the request for `hash` is currently in flight to `peer`.
    pub fn is_active_for(&self, peer: u64, hash: u64) -> (r: bool)
        requires
            self.wf(),
        ensures
            r == (self.spec_has(hash) && self.v@[self.spec_index_of(hash)].active == Some(peer)),
    {
        match self.find(hash) {
            Some(i) => {
                proof {
                    self.lemma_index_unique(i as int);
                }
                match self.v[i].active {
                    Some(q) => q == peer,
                    None => false,
                }
            }
            None => false,
        }
    }

    /// The first request not in flight that `peer` has not yet failed: the
    /// one a free peer is asked next.
    pub fn next_for(&self, peer: u64) -> (r: Option<usize>)
        ensures
            r matches Some(i) ==> (i as int) < self.v@.len() && self.v@[i as int].active is None
                && !self.v@[i as int].tried@.contains(peer),
            r is None ==> forall|i: int|
                0 <= i < self.v@.len() ==> (#[trigger] self.v@[i]).active is Some
                    || self.v@[i].tried@.contains(peer),
    {
        let mut i: usize = 0;
        while i < self.v.len()
            invariant
                i <= self.v@.len(),
                forall|j: int|
                    0 <= j < i ==> (#[trigger] self.v@[j]).active is Some
                        || self.v@[j].tried@.contains(peer),
            decreases self.v@.len() - i,
        {
            let free = match self.v[i].active {
                Some(_) => false,
                None => true,
            };
            if free {
                let tried = crate::engine::ids_contains(&self.v[i].tried, peer);
                if !tried {
                    return Some(i);
                }
            }
            i = i + 1;
        }
        None
    }

    /// Put request `i` in flight to `peer`.  Only its `active` mark changes.
    pub fn assign(&mut self, i: usize, peer: u64)
        requires
            old(self).wf(),
            (i as int) < old(self).v@.len(),
            old(self).v@[i as int].active is None,
        ensures
            final(self).wf(),
            final(self).v@.len() == old(self).v@.len(),
            forall|j: int|
                0 <= j < final(self).v@.len() && j != i ==> #[trigger] final(self).v@[j] == old(
                    self,
                ).v@[j],
            final(self).v@[i as int].hash == old(self).v@[i as int].hash,
            final(self).v@[i as int].number == old(self).v@[i as int].number,
            final(self).v@[i as int].tried@ == old(self).v@[i as int].tried@,
            final(self).v@[i as int].active == Some(peer),
    {
        let hash = self.v[i].hash;
        let number = self.v[i].number;
        let tried = clone_ids(&self.v[i].tried);
        self.v.set(i, JustRequest { hash, number, active: Some(peer), tried });
        proof {
            assert forall|a: int, b: int| 0 <= a < b < self.v@.len() implies (
            #[trigger] self.v@[a]).hash != (#[trigger] self.v@[b]).hash by {
                assert(self.v@[a].hash == old(self).v@[a].hash);
                assert(self.v@[b].hash == old(self).v@[b].hash);
            }
        }
    }

    /// A peer answered without the proof (or its reply was malformed): put
    /// the request back to pending and remember not to re-ask that peer
    /// until the peer set changes.  Replies from peers the request is not in
    /// flight to are discarded.  Every other request is untouched.
    pub fn mark_failed(&mut self, peer: u64, hash: u64)
        requires
            old(self).wf(),
        ensures
            final(self).wf(),
            final(self).v@.len() == old(self).v@.len(),
            forall|i: int|
                0 <= i < final(self).v@.len() && old(self).v@[i].hash != hash ==> #[trigger] final(self).v@[i] == old(self).v@[i],
            forall|i: int|
                0 <= i < final(self).v@.len() && old(self).v@[i].hash == hash ==> {
                    let e = #[trigger] final(self).v@[i];
                    let o = old(self).v@[i];
                    &&& e.hash == o.hash
                    &&& e.number == o.number
                    &&& (o.active == Some(peer) ==> e.active is None && e.tried@ == o.tried@.push(
                        peer,
                    ))
                    &&& (o.active != Some(peer) ==> e == o)
                },
    {
        match self.find(hash) {
            Some(i) => {
                proof {
                    self.lemma_index_unique(i as int);
                }
                let is_active = match self.v[i].active {
                    Some(p) => p == peer,
                    None => false,
                };
                if is_active {
                    let hash2 = self.v[i].hash;
                    let number = self.v[i].number;
                    let mut tried = clone_ids(&self.v[i].tried);
                    tried.push(peer);
                    self.v.set(i, JustRequest { hash: hash2, number, active: None, tried });
                    proof {
                        assert forall|a: int, b: int| 0 <= a < b < self.v@.len() implies (
                        #[trigger] self.v@[a]).hash != (#[trigger] self.v@[b]).hash by {
                            assert(self.v@[a].hash == old(self).v@[a].hash);
                            assert(self.v@[b].hash == old(self).v@[b].hash);
                        }
                    }
                }
            }
            None => {}
        }
    }

    /// The block for `hash` just became available locally: clear the
    /// request's failure marks so the proof is asked for again.  Other
    /// requests are untouched; nothing is dropped.
    pub fn retry_for(&mut self, hash: u64)
        requires
            old(self).wf(),
        ensures
            final(self).wf(),
            final(self).v@.len() == old(self).v@.len(),
            forall|i: int|
                0 <= i < final(self).v@.len() ==> {
                    let e = #[trigger] final(self).v@[i];
                    let o = old(self).v@[i];
                    &&& e.hash == o.hash
                    &&& e.number == o.number
                    &&& e.active == o.active
                    &&& (o.hash != hash ==> e == o)
                },
    {
        match self.find(hash) {
            Some(i) => {
                proof {
                    self.lemma_index_unique(i as int);
                }
                let hash2 = self.v[i].hash;
                let number = self.v[i].number;
                let active = self.v[i].active;
                self.v.set(i, JustRequest { hash: hash2, number, active, tried: Vec::new() });
                proof {
                    assert forall|a: int, b: int| 0 <= a < b < self.v@.len() implies (
                    #[trigger] self.v@[a]).hash != (#[trigger] self.v@[b]).hash by {
                        assert(self.v@[a].hash == old(self).v@[a].hash);
                        assert(self.v@[b].hash == old(self).v@[b].hash);
                    }
                }
            }
            None => {}
        }
    }

    /// A peer delivered the proof.  Exactly the request for `hash` is
    /// resolved and dropped, and only if it was in flight to that peer;
    /// requests for every other block, siblings at the same height included,
    /// are untouched.  Returns whether the response was accepted (a later or
    /// unsolicited response is discarded).
    pub fn resolve(&mut self, peer: u64, hash: u64) -> (r: bool)
        requires
            old(self).wf(),
        ensures
            final(self).wf(),
            !r ==> *final(self) == *old(self),
            r ==> exists|k: int|
                0 <= k < old(self).v@.len() && (#[trigger] old(self).v@[k]).hash == hash && old(
                    self,
                ).v@[k].active == Some(peer) && final(self).v@ == old(self).v@.remove(k),
            r == (old(self).spec_has(hash) && old(self).v@[old(self).spec_index_of(hash)].active
                == Some(peer)),
    {
        match self.find(hash) {
            Some(i) => {
                proof {
                    self.lemma_index_unique(i as int);
                }
                let is_active = match self.v[i].active {
                    Some(p) => p == peer,
                    None => false,
                };
                if is_active {
                    self.v.remove(i);
                    proof {
                        let oldv = old(self).v@;
                        assert forall|a: int, b: int| 0 <= a < b < self.v@.len() implies (
                        #[trigger] self.v@[a]).hash != (#[trigger] self.v@[b]).hash by {
                            if b < i {
                                assert(self.v@[a] == oldv[a] && self.v@[b] == oldv[b]);
                            } else if a < i {
                                assert(self.v@[a] == oldv[a] && self.v@[b] == oldv[b + 1]);
                            } else {
                                assert(self.v@[a] == oldv[a + 1] && self.v@[b] == oldv[b + 1]);
                            }
                        }
                    }
                    true
                } else {
                    false
                }
            }
            None => false,
        }
    }
}

/// Copy a list of peer handles.
pub fn clone_ids(v: &Vec<u64>) -> (r: Vec<u64>)
    ensures
        r@ == v@,
{
    let mut r: Vec<u64> = Vec::new();
    let mut i: usize = 0;
    while i < v.len()
        invariant
            i <= v@.len(),
            r@ == v@.subrange(0, i as int),
        decreases v@.len() - i,
    {
        r.push(v[i]);
        proof {
            assert(r@ =~= v@.subrange(0, i + 1 as int));
        }
        i = i + 1;
    }
    proof {
        assert(r@ =~= v@);
    }
    r
}

} // verus!
