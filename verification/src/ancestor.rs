//! Common-ancestor search: a bounded binary search over block numbers that
//! locates the highest block shared between the local chain and a peer's.
//!
//! One probe is outstanding at a time.  The search space starts as
//! `[floor, top]` where `top` is the smaller of the two best numbers and
//! `floor` lies at most [`MAX_SEARCH_DEPTH`] below it; the first probe is at
//! `top`, so a peer on our own chain is settled in one round trip.  Every
//! later probe sits at the midpoint of what remains, so the space at least
//! halves each round: the search ends within a logarithmic number of probes
//! ([`lemma_search_run_terminates`]) and never probes below the floor, in
//! particular never below block 0.

use vstd::arithmetic::power2::lemma2_to64;
use vstd::arithmetic::power2::pow2;
use vstd::prelude::*;

verus! {

/// Retries allowed for a missing or malformed probe response before the peer
/// is abandoned for ancestor search.
pub const PROBE_RETRIES: u64 = 2;

/// How far below the starting point the search may reach.  A peer whose
/// chain shares nothing above this depth is treated as incompatible.
pub const MAX_SEARCH_DEPTH: u64 = 4096;

/// State of one in-flight ancestor search.
#[derive(Clone, Copy, Debug)]
pub struct AncestorSearch {
    /// Lowest number still possibly the highest common block.
    pub lo: u64,
    /// Highest number still possibly common.
    pub hi: u64,
    /// The outstanding probe position, within `[lo, hi]`.
    pub probe: u64,
    /// Highest position already verified common, if any.
    pub best_match: Option<u64>,
    /// Malformed-response retries left.
    pub retries: u64,
}

/// What one probe response does to a search.
#[derive(Clone, Copy, Debug)]
pub enum SearchStep {
    /// The search goes on with the next probe outstanding.
    Continue(AncestorSearch),
    /// The highest common block is `common`.
    Found { common: u64 },
    /// Nothing in the search space is common: the peer's chain is
    /// incompatible within the configured depth.
    NoCommon,
}

/// Midpoint of `[lo, hi]`, rounded down.
pub open spec fn spec_mid(lo: u64, hi: u64) -> u64 {
    (lo + (hi - lo) / 2) as u64
}

impl AncestorSearch {
    /// The probe lies in the space, and any verified match lies below it.
    pub open spec fn wf(self) -> bool {
        &&& self.lo <= self.probe <= self.hi
        &&& (self.best_match matches Some(m) ==> m < self.lo)
    }

    /// Size of the remaining search space.
    pub open spec fn interval(self) -> int {
        self.hi - self.lo + 1
    }

    /// The outstanding probe is at the midpoint (true of every state after
    /// the first).
    pub open spec fn probe_at_mid(self) -> bool {
        self.probe == spec_mid(self.lo, self.hi)
    }

    /// The search that `begin` returns.
    pub open spec fn spec_begin(local_best: u64, peer_best: u64) -> AncestorSearch {
        let top: u64 = if local_best <= peer_best {
            local_best
        } else {
            peer_best
        };
        let floor: u64 = if top > MAX_SEARCH_DEPTH {
            (top - MAX_SEARCH_DEPTH) as u64
        } else {
            0
        };
        AncestorSearch { lo: floor, hi: top, probe: top, best_match: None, retries: PROBE_RETRIES }
    }

    /// Open a search between a local chain and a peer chain with the given
    /// best numbers.  The first probe is at the smaller of the two.
    pub fn begin(local_best: u64, peer_best: u64) -> (r: AncestorSearch)
        ensures
            r == Self::spec_begin(local_best, peer_best),
            r.wf(),
            r.probe <= local_best && r.probe <= peer_best,
    {
        let top: u64 = if local_best <= peer_best {
            local_best
        } else {
            peer_best
        };
        let floor: u64 = if top > MAX_SEARCH_DEPTH {
            top - MAX_SEARCH_DEPTH
        } else {
            0
        };
        AncestorSearch { lo: floor, hi: top, probe: top, best_match: None, retries: PROBE_RETRIES }
    }

    /// What a well-formed probe response (matched or not) does to the search.
    pub open spec fn spec_step(self, matched: bool) -> SearchStep {
        if matched {
            if self.probe >= self.hi {
                SearchStep::Found { common: self.probe }
            } else {
                let lo2 = (self.probe + 1) as u64;
                SearchStep::Continue(
                    AncestorSearch {
                        lo: lo2,
                        hi: self.hi,
                        probe: spec_mid(lo2, self.hi),
                        best_match: Some(self.probe),
                        retries: self.retries,
                    },
                )
            }
        } else {
            if self.probe <= self.lo {
                match self.best_match {
                    Some(m) => SearchStep::Found { common: m },
                    None => SearchStep::NoCommon,
                }
            } else {
                let hi2 = (self.probe - 1) as u64;
                SearchStep::Continue(
                    AncestorSearch {
                        lo: self.lo,
                        hi: hi2,
                        probe: spec_mid(self.lo, hi2),
                        best_match: self.best_match,
                        retries: self.retries,
                    },
                )
            }
        }
    }

    /// Advance the search by one response: `matched` tells whether the
    /// peer's hash at the probe position equals the local canonical hash.
    /// The space shrinks every round, stays within the old bounds, and once
    /// the probe is at the midpoint it at least halves.
    pub fn step(self, matched: bool) -> (r: SearchStep)
        requires
            self.wf(),
        ensures
            r == self.spec_step(matched),
            r matches SearchStep::Continue(s2) ==> s2.wf() && s2.probe_at_mid() && self.lo
                <= s2.lo && s2.hi <= self.hi && s2.interval() <= self.interval() - 1 && (
            self.probe_at_mid() ==> 2 * s2.interval() <= self.interval()) && (matched
                ==> s2.best_match == Some(self.probe)) && (!matched ==> s2.best_match
                == self.best_match),
            r matches SearchStep::Found { common } ==> common <= self.hi && ((matched && common
                == self.probe) || (!matched && self.best_match == Some(common))),
            r is NoCommon ==> !matched && self.best_match is None && self.probe == self.lo,
    {
        if matched {
            if self.probe >= self.hi {
                SearchStep::Found { common: self.probe }
            } else {
                let lo2 = self.probe + 1;
                SearchStep::Continue(
                    AncestorSearch {
                        lo: lo2,
                        hi: self.hi,
                        probe: lo2 + (self.hi - lo2) / 2,
                        best_match: Some(self.probe),
                        retries: self.retries,
                    },
                )
            }
        } else {
            if self.probe <= self.lo {
                match self.best_match {
                    Some(m) => SearchStep::Found { common: m },
                    None => SearchStep::NoCommon,
                }
            } else {
                let hi2 = self.probe - 1;
                SearchStep::Continue(
                    AncestorSearch {
                        lo: self.lo,
                        hi: hi2,
                        probe: self.lo + (hi2 - self.lo) / 2,
                        best_match: self.best_match,
                        retries: self.retries,
                    },
                )
            }
        }
    }
}

/// The search run along a sequence of responses: apply `spec_step` for each
/// entry in turn until the search finishes or the responses run out.
pub open spec fn spec_run(s: AncestorSearch, results: Seq<bool>) -> SearchStep
    decreases results.len(),
{
    if results.len() == 0 {
        SearchStep::Continue(s)
    } else {
        match s.spec_step(results[0]) {
            SearchStep::Continue(s2) => spec_run(s2, results.drop_first()),
            SearchStep::Found { common } => SearchStep::Found { common },
            SearchStep::NoCommon => SearchStep::NoCommon,
        }
    }
}

/// Law: a search whose probe is at the midpoint of a space of size at most
/// `pow2(k)` finishes within `k + 1` further probes, whatever the responses.
pub proof fn lemma_search_run_terminates(s: AncestorSearch, results: Seq<bool>, k: nat)
    requires
        s.wf(),
        s.probe_at_mid(),
        s.interval() <= pow2(k),
        results.len() >= k + 1,
    ensures
        !(spec_run(s, results) is Continue),
    decreases k,
{
    let first = results[0];
    match s.spec_step(first) {
        SearchStep::Continue(s2) => {
            // One step at the midpoint at least halves the space, so it
            // cannot continue out of a space of size 1.
            let shape = s.step_shape_helper(first);
            if k == 0 {
                vstd::arithmetic::power2::lemma_pow2_pos(0);
                lemma2_to64();
                assert(s.interval() <= 1);
                assert(false);
            } else {
                assert(2 * s2.interval() <= s.interval());
                assert(pow2(k) == 2 * pow2((k - 1) as nat)) by {
                    vstd::arithmetic::power2::lemma_pow2_unfold(k);
                }
                lemma_search_run_terminates(s2, results.drop_first(), (k - 1) as nat);
            }
        }
        SearchStep::Found { common } => {}
        SearchStep::NoCommon => {}
    }
}

impl AncestorSearch {
    /// Identity helper so the proof above can case on the step's shape while
    /// reusing the contract of `step`.
    proof fn step_shape_helper(self, matched: bool) -> (r: SearchStep)
        requires
            self.wf(),
        ensures
            r == self.spec_step(matched),
            r matches SearchStep::Continue(s2) ==> s2.wf() && s2.probe_at_mid() && s2.interval()
                <= self.interval() - 1 && (self.probe_at_mid() ==> 2 * s2.interval()
                <= self.interval()),
    {
        self.spec_step(matched)
    }
}

/// Law: from its starting state a search finishes within 15 probes, whatever
/// the responses: one probe at the top of the space, whose size never
/// exceeds `MAX_SEARCH_DEPTH + 1 <= pow2(13)`, then a halving round per
/// probe.
pub proof fn lemma_search_probe_bound(local_best: u64, peer_best: u64, results: Seq<bool>)
    requires
        results.len() >= 15,
    ensures
        !(spec_run(AncestorSearch::spec_begin(local_best, peer_best), results) is Continue),
{
    let s = AncestorSearch::spec_begin(local_best, peer_best);
    assert(s.wf());
    let first = results[0];
    match s.spec_step(first) {
        SearchStep::Continue(s2) => {
            let shape = s.step_shape_helper(first);
            assert(s2.interval() <= MAX_SEARCH_DEPTH + 1);
            lemma2_to64();
            assert(pow2(13) == 8192);
            lemma_search_run_terminates(s2, results.drop_first(), 13nat);
        }
        SearchStep::Found { common } => {}
        SearchStep::NoCommon => {}
    }
}

} // verus!
