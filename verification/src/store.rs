//! In-memory chain store: parent-linked headers, longest-chain selection,
//! finalization and the read side that answers download requests.
//!
//! Every block except genesis is linked to a parent whose number precedes its
//! own; the canonical chain is the parent walk from the best block down to
//! genesis.  A new block becomes best only if it is strictly longer than the
//! current best and descends from the last finalized block; finalizing a block
//! off the current best path retracts the best pointer onto the finalized
//! branch.

use vstd::prelude::*;

use crate::types::BlockData;
use crate::types::BlockId;
use crate::types::Header;
use crate::types::ImportOutcome;
use crate::types::SyncError;

verus! {

/// One stored block: its header, whether the body is held (light stores keep
/// headers only), and the finality proof once one is known.
#[derive(Debug)]
pub struct Entry {
    pub header: Header,
    pub has_body: bool,
    pub justification: Option<Vec<u8>>,
}

/// Whether some entry of `s` carries the hash `h`.
pub open spec fn has_hash(s: Seq<Entry>, h: u64) -> bool {
    exists|i: int| 0 <= i < s.len() && s[i].header.hash == h
}

/// The index of the entry carrying `h`; meaningful only under `seq_wf`,
/// which makes hashes unique.
pub open spec fn hash_index(s: Seq<Entry>, h: u64) -> int {
    choose|i: int| 0 <= i < s.len() && s[i].header.hash == h
}

/// The entry carrying `h`; meaningful when `has_hash(s, h)`.
pub open spec fn entry_of(s: Seq<Entry>, h: u64) -> Entry {
    s[hash_index(s, h)]
}

/// The number of the block with hash `h`.
pub open spec fn number_of(s: Seq<Entry>, h: u64) -> u64 {
    entry_of(s, h).header.number
}

/// The parent hash of the block with hash `h`.
pub open spec fn parent_of(s: Seq<Entry>, h: u64) -> u64 {
    entry_of(s, h).header.parent
}

/// The entry `e` has a parent in `s` whose number immediately precedes its own.
pub open spec fn parent_linked(s: Seq<Entry>, e: Entry) -> bool {
    exists|j: int|
        0 <= j < s.len() && s[j].header.hash == e.header.parent && s[j].header.number + 1
            == e.header.number
}

/// Well-formedness of a store body: a genesis entry at number 0 first, unique
/// hashes, positive numbers after genesis, and every non-genesis entry linked
/// to a parent one number below it.
pub open spec fn seq_wf(s: Seq<Entry>) -> bool {
    &&& 1 <= s.len()
    &&& s[0].header.number == 0
    &&& forall|i: int| 1 <= i < s.len() ==> (#[trigger] s[i]).header.number > 0
    &&& forall|i: int, j: int|
        0 <= i < j < s.len() ==> (#[trigger] s[i]).header.hash != (#[trigger] s[j]).header.hash
    &&& forall|i: int|
        0 <= i < s.len() && (#[trigger] s[i]).header.number > 0 ==> parent_linked(s, s[i])
}

/// The hash reached from `h` by following `steps` parent links, or `None` if
/// the walk leaves the store before taking every step.
pub open spec fn walk_back(s: Seq<Entry>, h: u64, steps: nat) -> Option<u64>
    decreases steps,
{
    if steps == 0 {
        Some(h)
    } else if has_hash(s, h) {
        walk_back(s, parent_of(s, h), (steps - 1) as nat)
    } else {
        None
    }
}

/// Under unique hashes, the entry found at `h` is the one at any index whose
/// hash is `h`.
pub proof fn lemma_hash_index_unique(s: Seq<Entry>, i: int)
    requires
        seq_wf(s),
        0 <= i < s.len(),
    ensures
        has_hash(s, s[i].header.hash),
        hash_index(s, s[i].header.hash) == i,
        entry_of(s, s[i].header.hash) == s[i],
{
    let h = s[i].header.hash;
    assert(has_hash(s, h));
    let j = hash_index(s, h);
    assert(0 <= j < s.len() && s[j].header.hash == h);
    if i < j {
        assert(s[i].header.hash != s[j].header.hash);
    } else if j < i {
        assert(s[j].header.hash != s[i].header.hash);
    }
}

/// Under `seq_wf`, a block above genesis has its parent in the store, one
/// number below it.
pub proof fn lemma_parent_step(s: Seq<Entry>, h: u64)
    requires
        seq_wf(s),
        has_hash(s, h),
        number_of(s, h) > 0,
    ensures
        has_hash(s, parent_of(s, h)),
        number_of(s, parent_of(s, h)) + 1 == number_of(s, h),
{
    let i = hash_index(s, h);
    assert(parent_linked(s, s[i]));
    let j = choose|j: int|
        0 <= j < s.len() && s[j].header.hash == s[i].header.parent && s[j].header.number + 1
            == s[i].header.number;
    lemma_hash_index_unique(s, j);
}

/// Splitting a parent walk: walking `a + b` steps is walking `a` steps and
/// then `b` more from wherever that landed.
pub proof fn lemma_walk_back_add(s: Seq<Entry>, start: u64, a: nat, b: nat)
    ensures
        walk_back(s, start, a + b) == (match walk_back(s, start, a) {
            Some(m) => walk_back(s, m, b),
            None => None::<u64>,
        }),
    decreases a,
{
    if a > 0 {
        if has_hash(s, start) {
            lemma_walk_back_add(s, parent_of(s, start), (a - 1) as nat, b);
            assert(a + b - 1 == (a - 1) as nat + b);
        }
    }
}

/// In a well-formed store, a walk of at most the block's number stays inside
/// the store and lands exactly that many numbers below it.
pub proof fn lemma_walk_back_in_store(s: Seq<Entry>, h: u64, k: nat)
    requires
        seq_wf(s),
        has_hash(s, h),
        k <= number_of(s, h),
    ensures
        walk_back(s, h, k) is Some,
        has_hash(s, walk_back(s, h, k).unwrap()),
        number_of(s, walk_back(s, h, k).unwrap()) + k == number_of(s, h),
    decreases k,
{
    if k > 0 {
        lemma_parent_step(s, h);
        lemma_walk_back_in_store(s, parent_of(s, h), (k - 1) as nat);
    }
}

/// The chain store.  The fields are public so that specifications can speak
/// of them; mutate only through the methods, which keep `wf`.
pub struct ChainStore {
    pub entries: Vec<Entry>,
    /// Index of the best (canonical head) entry.
    pub best: usize,
    /// Index of the last finalized entry.
    pub finalized: usize,
}

impl ChainStore {
    /// Well-formedness: a well-formed body and valid best/finalized indices.
    pub open spec fn wf(self) -> bool {
        &&& seq_wf(self.entries@)
        &&& (self.best as int) < self.entries@.len()
        &&& (self.finalized as int) < self.entries@.len()
    }

    /// The header of the best block.
    pub open spec fn spec_best(self) -> Header {
        self.entries@[self.best as int].header
    }

    /// The header of the last finalized block.
    pub open spec fn spec_finalized(self) -> Header {
        self.entries@[self.finalized as int].header
    }

    /// The hash of the canonical block at number `n`: the walk from the best
    /// block down to `n`, or `None` above the best number.
    pub open spec fn spec_canon_at(self, n: u64) -> Option<u64> {
        if n > self.spec_best().number {
            None
        } else {
            walk_back(self.entries@, self.spec_best().hash, (self.spec_best().number - n) as nat)
        }
    }

    /// A fresh store holding only the genesis block.
    pub fn new(genesis_hash: u64) -> (r: ChainStore)
        ensures
            r.wf(),
            r.entries@.len() == 1,
            r.spec_best() == (Header { hash: genesis_hash, parent: genesis_hash, number: 0u64 }),
            r.spec_finalized() == r.spec_best(),
            has_hash(r.entries@, genesis_hash),
    {
        let mut entries: Vec<Entry> = Vec::new();
        entries.push(
            Entry {
                header: Header { hash: genesis_hash, parent: genesis_hash, number: 0u64 },
                has_body: true,
                justification: None,
            },
        );
        let r = ChainStore { entries, best: 0usize, finalized: 0usize };
        assert(r.entries@[0].header.hash == genesis_hash);
        r
    }

    /// Index of the entry with hash `h`, if present.
    fn find_index(&self, h: u64) -> (r: Option<usize>)
        ensures
            match r {
                Some(i) => (i as int) < self.entries@.len() && self.entries@[i as int].header.hash
                    == h,
                None => !has_hash(self.entries@, h),
            },
    {
        let mut i: usize = 0;
        while i < self.entries.len()
            invariant
                i <= self.entries@.len(),
                forall|j: int| 0 <= j < i ==> (#[trigger] self.entries@[j]).header.hash != h,
            decreases self.entries@.len() - i,
        {
            if self.entries[i].header.hash == h {
                return Some(i);
            }
            i = i + 1;
        }
        None
    }

    /// Whether the block with hash `h` is in the store.
    pub fn contains(&self, h: u64) -> (r: bool)
        ensures
            r == has_hash(self.entries@, h),
    {
        match self.find_index(h) {
            Some(_) => true,
            None => false,
        }
    }

    /// Number of blocks held, genesis included.
    pub fn blocks_count(&self) -> (r: usize)
        ensures
            r == self.entries@.len(),
    {
        self.entries.len()
    }

    /// Hash of the best block.
    pub fn best_hash(&self) -> (r: u64)
        requires
            self.wf(),
        ensures
            r == self.spec_best().hash,
    {
        self.entries[self.best].header.hash
    }

    /// Number of the best block.
    pub fn best_number(&self) -> (r: u64)
        requires
            self.wf(),
        ensures
            r == self.spec_best().number,
    {
        self.entries[self.best].header.number
    }

    /// Number of the last finalized block.
    pub fn finalized_number(&self) -> (r: u64)
        requires
            self.wf(),
        ensures
            r == self.spec_finalized().number,
    {
        self.entries[self.finalized].header.number
    }

    /// The hash reached from `start` by `steps` parent links, if the whole
    /// walk stays inside the store.
    pub fn walk_back_exec(&self, start: u64, steps: u64) -> (r: Option<u64>)
        requires
            self.wf(),
        ensures
            r == walk_back(self.entries@, start, steps as nat),
    {
        let mut h: u64 = start;
        let mut k: u64 = 0;
        while k < steps
            invariant
                self.wf(),
                k <= steps,
                walk_back(self.entries@, start, k as nat) == Some(h),
            decreases steps - k,
        {
            match self.find_index(h) {
                Some(i) => {
                    proof {
                        assert(has_hash(self.entries@, h));
                        lemma_hash_index_unique(self.entries@, i as int);
                        lemma_walk_back_add(self.entries@, start, k as nat, 1nat);
                        assert(walk_back(self.entries@, h, 1nat) == Some(
                            parent_of(self.entries@, h),
                        )) by {
                            reveal_with_fuel(walk_back, 2);
                        }
                    }
                    h = self.entries[i].header.parent;
                    k = k + 1;
                }
                None => {
                    proof {
                        lemma_walk_back_add(self.entries@, start, k as nat, (steps - k) as nat);
                    }
                    return None;
                }
            }
        }
        Some(h)
    }

    /// Hash of the canonical block at number `n`, or `None` above the best.
    pub fn canon_hash_at(&self, n: u64) -> (r: Option<u64>)
        requires
            self.wf(),
        ensures
            r == self.spec_canon_at(n),
    {
        let bn = self.best_number();
        if n > bn {
            None
        } else {
            self.walk_back_exec(self.best_hash(), bn - n)
        }
    }

    /// Header lookup by hash, or by number on the canonical chain.
    pub fn header(&self, id: BlockId) -> (r: Option<Header>)
        requires
            self.wf(),
        ensures
            match id {
                BlockId::Hash(h) => r == (if has_hash(self.entries@, h) {
                    Some(entry_of(self.entries@, h).header)
                } else {
                    None::<Header>
                }),
                BlockId::Number(n) => r == (match self.spec_canon_at(n) {
                    Some(h) => Some(entry_of(self.entries@, h).header),
                    None => None::<Header>,
                }),
            },
    {
        match id {
            BlockId::Hash(h) => {
                match self.find_index(h) {
                    Some(i) => {
                        proof {
                            lemma_hash_index_unique(self.entries@, i as int);
                        }
                        Some(self.entries[i].header)
                    }
                    None => None,
                }
            }
            BlockId::Number(n) => {
                match self.canon_hash_at(n) {
                    Some(h) => {
                        match self.find_index(h) {
                            Some(i) => {
                                proof {
                                    lemma_hash_index_unique(self.entries@, i as int);
                                }
                                Some(self.entries[i].header)
                            }
                            None => {
                                proof {
                                    lemma_hash_index_unique(self.entries@, self.best as int);
                                    lemma_walk_back_in_store(
                                        self.entries@,
                                        self.spec_best().hash,
                                        (self.spec_best().number - n) as nat,
                                    );
                                    assert(false);
                                }
                                None
                            }
                        }
                    }
                    None => None,
                }
            }
        }
    }

    /// The block may be appended: unknown hash, above genesis, parent held
    /// with the preceding number.
    pub open spec fn spec_import_ok(self, header: Header) -> bool {
        &&& !has_hash(self.entries@, header.hash)
        &&& header.number > 0
        &&& has_hash(self.entries@, header.parent)
        &&& number_of(self.entries@, header.parent) + 1 == header.number
    }

    /// The block would sit strictly above the last finalized block and its
    /// parent walk passes through it.
    pub open spec fn spec_extends_finalized(self, header: Header) -> bool {
        &&& header.number > self.spec_finalized().number
        &&& walk_back(
            self.entries@,
            header.parent,
            (header.number - 1 - self.spec_finalized().number) as nat,
        ) == Some(self.spec_finalized().hash)
    }

    /// Longest-chain rule, respecting finality: the block becomes best
    /// exactly when it is strictly longer than the current best and descends
    /// from the last finalized block.
    pub open spec fn spec_becomes_best(self, header: Header) -> bool {
        header.number > self.spec_best().number && self.spec_extends_finalized(header)
    }

    /// Append one block.  The outcome classifies the input exactly; the store
    /// changes only on `Imported`, by pushing one entry and possibly moving
    /// the best pointer to it.
    pub fn import(&mut self, header: Header, has_body: bool, justification: Option<Vec<u8>>) -> (r:
        ImportOutcome)
        requires
            old(self).wf(),
        ensures
            final(self).wf(),
            (r == ImportOutcome::AlreadyInChain) == has_hash(old(self).entries@, header.hash),
            (r == ImportOutcome::UnknownParent) == (!has_hash(old(self).entries@, header.hash)
                && header.number > 0 && !has_hash(old(self).entries@, header.parent)),
            (r == ImportOutcome::Rejected) == (!has_hash(old(self).entries@, header.hash) && (
            header.number == 0 || (has_hash(old(self).entries@, header.parent) && number_of(
                old(self).entries@,
                header.parent,
            ) + 1 != header.number))),
            (r matches ImportOutcome::Imported { .. }) == old(self).spec_import_ok(header),
            !(r matches ImportOutcome::Imported { .. }) ==> *final(self) == *old(self),
            r matches ImportOutcome::Imported { new_best } ==> {
                &&& final(self).entries@ == old(self).entries@.push(
                    (Entry { header, has_body, justification }),
                )
                &&& new_best == old(self).spec_becomes_best(header)
                &&& (new_best ==> final(self).spec_best() == header)
                &&& (!new_best ==> final(self).best == old(self).best)
                &&& final(self).finalized == old(self).finalized
            },
    {
        match self.find_index(header.hash) {
            Some(_) => {
                return ImportOutcome::AlreadyInChain;
            }
            None => {}
        }
        if header.number == 0 {
            return ImportOutcome::Rejected;
        }
        match self.find_index(header.parent) {
            None => ImportOutcome::UnknownParent,
            Some(pi) => {
                proof {
                    lemma_hash_index_unique(self.entries@, pi as int);
                }
                let pnum = self.entries[pi].header.number;
                if pnum != header.number - 1 {
                    return ImportOutcome::Rejected;
                }
                let fnum = self.finalized_number();
                let fin_hash = self.entries[self.finalized].header.hash;
                let extends: bool = if header.number > fnum {
                    match self.walk_back_exec(header.parent, header.number - 1 - fnum) {
                        Some(a) => a == fin_hash,
                        None => false,
                    }
                } else {
                    false
                };
                let new_best = header.number > self.best_number() && extends;
                proof {
                    assert(extends == self.spec_extends_finalized(header));
                }
                let ghost s = self.entries@;
                let e = Entry { header, has_body, justification };
                self.entries.push(e);
                if new_best {
                    self.best = self.entries.len() - 1;
                }
                proof {
                    let s2 = self.entries@;
                    let ghost e2 = (Entry { header, has_body, justification });
                    assert(s2 == s.push(e2));
                    assert(s2[0] == s[0]);
                    assert forall|i: int, j: int| 0 <= i < j < s2.len() implies (
                    #[trigger] s2[i]).header.hash != (#[trigger] s2[j]).header.hash by {
                        if j < s.len() {
                            assert(s2[i] == s[i] && s2[j] == s[j]);
                        } else {
                            assert(s2[j] == e2);
                            assert(s2[i] == s[i]);
                            assert(!has_hash(s, header.hash));
                            if s[i].header.hash == header.hash {
                                assert(has_hash(s, header.hash));
                            }
                        }
                    }
                    assert forall|i: int| 1 <= i < s2.len() implies (
                    #[trigger] s2[i]).header.number > 0 by {
                        if i < s.len() {
                            assert(s2[i] == s[i]);
                        } else {
                            assert(s2[i] == e2);
                        }
                    }
                    assert forall|i: int|
                        0 <= i < s2.len() && (#[trigger] s2[i]).header.number
                            > 0 implies parent_linked(s2, s2[i]) by {
                        if i < s.len() {
                            assert(s2[i] == s[i]);
                            if s[i].header.number > 0 {
                                assert(parent_linked(s, s[i]));
                                let j = choose|j: int|
                                    0 <= j < s.len() && s[j].header.hash == s[i].header.parent
                                        && s[j].header.number + 1 == s[i].header.number;
                                assert(s2[j] == s[j]);
                                assert(parent_linked(s2, s2[i]));
                            }
                        } else {
                            assert(s2[i] == e2);
                            let pj = hash_index(s, header.parent);
                            assert(s2[pj] == s[pj]);
                            assert(parent_linked(s2, e2));
                        }
                    }
                }
                ImportOutcome::Imported { new_best }
            }
        }
    }

    /// Resolve a block reference to the index of its entry.
    pub open spec fn spec_resolve(self, id: BlockId) -> Option<int> {
        match id {
            BlockId::Hash(h) => if has_hash(self.entries@, h) {
                Some(hash_index(self.entries@, h))
            } else {
                None
            },
            BlockId::Number(n) => match self.spec_canon_at(n) {
                Some(h) => if has_hash(self.entries@, h) {
                    Some(hash_index(self.entries@, h))
                } else {
                    None
                },
                None => None,
            },
        }
    }

    fn resolve_index(&self, id: BlockId) -> (r: Option<usize>)
        requires
            self.wf(),
        ensures
            match r {
                Some(i) => self.spec_resolve(id) == Some(i as int) && (i as int)
                    < self.entries@.len(),
                None => self.spec_resolve(id) is None,
            },
    {
        let hash_opt: Option<u64> = match id {
            BlockId::Hash(h) => Some(h),
            BlockId::Number(n) => self.canon_hash_at(n),
        };
        match hash_opt {
            Some(h) => {
                match self.find_index(h) {
                    Some(i) => {
                        proof {
                            lemma_hash_index_unique(self.entries@, i as int);
                        }
                        Some(i)
                    }
                    None => None,
                }
            }
            None => None,
        }
    }

    /// The finality proof stored for the referenced block, if any.
    pub fn justification(&self, id: BlockId) -> (r: Option<Vec<u8>>)
        requires
            self.wf(),
        ensures
            match self.spec_resolve(id) {
                Some(ti) => match self.entries@[ti].justification {
                    Some(v) => r matches Some(rv) && rv@ == v@,
                    None => r is None,
                },
                None => r is None,
            },
    {
        match self.resolve_index(id) {
            Some(i) => {
                match &self.entries[i].justification {
                    Some(v) => Some(clone_bytes(v)),
                    None => None,
                }
            }
            None => None,
        }
    }

    /// Attach a finality proof to a held block without moving the finalized
    /// or best pointers: used for proofs of blocks off the finalized path,
    /// so siblings hold their justifications independently.
    pub fn set_justification(&mut self, hash: u64, j: Vec<u8>) -> (r: bool)
        requires
            old(self).wf(),
        ensures
            final(self).wf(),
            r == has_hash(old(self).entries@, hash),
            !r ==> *final(self) == *old(self),
            r ==> final(self).entries@.len() == old(self).entries@.len() && final(self).best
                == old(self).best && final(self).finalized == old(self).finalized && (forall|i: int|
                0 <= i < final(self).entries@.len() ==> (#[trigger] final(self).entries@[i]).header
                    == old(self).entries@[i].header) && (forall|i: int|
                0 <= i < final(self).entries@.len() && old(self).entries@[i].header.hash != hash
                    ==> #[trigger] final(self).entries@[i] == old(self).entries@[i]) && (final(self).entries@[hash_index(old(self).entries@, hash)].justification matches Some(v) && v@
                == j@),
    {
        match self.find_index(hash) {
            None => false,
            Some(i) => {
                proof {
                    lemma_hash_index_unique(self.entries@, i as int);
                }
                let e = Entry {
                    header: self.entries[i].header,
                    has_body: self.entries[i].has_body,
                    justification: Some(j),
                };
                let ghost s = self.entries@;
                self.entries.set(i, e);
                proof {
                    self.lemma_wf_after_justification_update(s, i as int);
                }
                true
            }
        }
    }

    /// The target block is the last finalized one or one of its ancestors.
    pub open spec fn spec_final_is_ancestor(self, ti: int) -> bool {
        let t = self.entries@[ti].header;
        let f = self.spec_finalized();
        t.number <= f.number && walk_back(self.entries@, f.hash, (f.number - t.number) as nat)
            == Some(t.hash)
    }

    /// The target block descends from the last finalized one.
    pub open spec fn spec_final_descends(self, ti: int) -> bool {
        let t = self.entries@[ti].header;
        let f = self.spec_finalized();
        t.number > f.number && walk_back(self.entries@, t.hash, (t.number - f.number) as nat)
            == Some(f.hash)
    }

    /// Finalizing the target is allowed: it is on the already-final path, or
    /// it extends it.
    pub open spec fn spec_final_ok(self, ti: int) -> bool {
        self.spec_final_is_ancestor(ti) || self.spec_final_descends(ti)
    }

    /// The current best block descends from the target (so finalizing the
    /// target keeps the best pointer).
    pub open spec fn spec_best_descends(self, ti: int) -> bool {
        let t = self.entries@[ti].header;
        let b = self.spec_best();
        b.number >= t.number && walk_back(self.entries@, b.hash, (b.number - t.number) as nat)
            == Some(t.hash)
    }

    /// Mark the referenced block final, attaching `justification` when given.
    /// Finalizing a block off the current best path retracts the best pointer
    /// onto it; finalizing an ancestor of the finalized block only records
    /// the justification; a block on an unrelated branch is refused.
    pub fn finalize(&mut self, id: BlockId, justification: Option<Vec<u8>>, notify: bool) -> (r:
        Result<(), SyncError>)
        requires
            old(self).wf(),
        ensures
            final(self).wf(),
            r is Err ==> *final(self) == *old(self),
            (r == Err::<(), SyncError>(SyncError::UnknownBlock)) == (old(self).spec_resolve(id)
                is None),
            r is Ok <==> (old(self).spec_resolve(id) matches Some(ti) && old(self).spec_final_ok(
                ti,
            )),
            r is Ok ==> ({
                let ti = old(self).spec_resolve(id).unwrap();
                &&& final(self).entries@.len() == old(self).entries@.len()
                &&& forall|i: int|
                    0 <= i < final(self).entries@.len() ==> (#[trigger] final(self).entries@[i]).header == old(self).entries@[i].header && final(self).entries@[i].has_body == old(self).entries@[i].has_body
                &&& forall|i: int|
                    0 <= i < final(self).entries@.len() && i != ti ==> (#[trigger] final(self).entries@[i]).justification == old(self).entries@[i].justification
                &&& (justification is Some ==> final(self).entries@[ti].justification
                    == justification)
                &&& (justification is None ==> final(self).entries@[ti].justification == old(self).entries@[ti].justification)
                &&& (old(self).spec_final_descends(ti) ==> final(self).finalized == ti && (old(self).spec_best_descends(ti) ==> final(self).best == old(self).best) && (!old(self).spec_best_descends(ti) ==> final(self).best == ti))
                &&& (old(self).spec_final_is_ancestor(ti) ==> final(self).finalized == old(self).finalized && final(self).best == old(self).best)
            }),
    {
        let ti = match self.resolve_index(id) {
            Some(i) => i,
            None => {
                return Err(SyncError::UnknownBlock);
            }
        };
        let t = self.entries[ti].header;
        let fnum = self.finalized_number();
        let fin_hash = self.entries[self.finalized].header.hash;
        proof {
            lemma_hash_index_unique(self.entries@, ti as int);
        }
        if t.number <= fnum {
            // Possibly an already-final ancestor: check the walk down from
            // the finalized block.
            let ok = match self.walk_back_exec(fin_hash, fnum - t.number) {
                Some(a) => a == t.hash,
                None => false,
            };
            if !ok {
                return Err(SyncError::FinalityViolation);
            }
            if let Some(j) = justification {
                let e = Entry {
                    header: t,
                    has_body: self.entries[ti].has_body,
                    justification: Some(j),
                };
                let ghost s = self.entries@;
                self.entries.set(ti, e);
                proof {
                    self.lemma_wf_after_justification_update(s, ti as int);
                }
            }
            Ok(())
        } else {
            let ok = match self.walk_back_exec(t.hash, t.number - fnum) {
                Some(a) => a == fin_hash,
                None => false,
            };
            if !ok {
                return Err(SyncError::FinalityViolation);
            }
            let bnum = self.best_number();
            let best_hash = self.entries[self.best].header.hash;
            let keeps: bool = if bnum >= t.number {
                match self.walk_back_exec(best_hash, bnum - t.number) {
                    Some(a) => a == t.hash,
                    None => false,
                }
            } else {
                false
            };
            if let Some(j) = justification {
                let e = Entry {
                    header: t,
                    has_body: self.entries[ti].has_body,
                    justification: Some(j),
                };
                let ghost s = self.entries@;
                self.entries.set(ti, e);
                proof {
                    self.lemma_wf_after_justification_update(s, ti as int);
                }
            }
            self.finalized = ti;
            if !keeps {
                self.best = ti;
            }
            Ok(())
        }
    }

    /// In a well-formed store the canonical chain is complete: below the best
    /// number every canonical slot resolves to a held block of that number.
    pub proof fn lemma_canon_in_store(self, n: u64)
        requires
            self.wf(),
            n <= self.spec_best().number,
        ensures
            self.spec_canon_at(n) is Some,
            has_hash(self.entries@, self.spec_canon_at(n).unwrap()),
            number_of(self.entries@, self.spec_canon_at(n).unwrap()) == n,
            entry_of(self.entries@, self.spec_canon_at(n).unwrap()).header.number == n,
    {
        lemma_hash_index_unique(self.entries@, self.best as int);
        lemma_walk_back_in_store(
            self.entries@,
            self.spec_best().hash,
            (self.spec_best().number - n) as nat,
        );
    }

    /// Canonical blocks `start`, `start + 1`, ... while they exist, at most
    /// `count` of them: the read side of an ascending range request.
    pub fn read_ascending(&self, start: u64, count: u64, headers_only: bool) -> (r: Vec<BlockData>)
        requires
            self.wf(),
        ensures
            r@.len() == (if start > self.spec_best().number {
                0int
            } else if self.spec_best().number - start >= count {
                count as int
            } else {
                self.spec_best().number - start + 1
            }),
            forall|i: int|
                0 <= i < r@.len() ==> {
                    &&& self.spec_canon_at((start + i) as u64) == Some(
                        (#[trigger] r@[i]).header.hash,
                    )
                    &&& has_hash(self.entries@, r@[i].header.hash)
                    &&& r@[i].header == entry_of(self.entries@, r@[i].header.hash).header
                    &&& r@[i].header.number == start + i
                    &&& r@[i].has_body == !headers_only
                    &&& r@[i].justification is None
                },
    {
        let mut r: Vec<BlockData> = Vec::new();
        let bn = self.best_number();
        if start > bn {
            return r;
        }
        let take: u64 = if bn - start >= count {
            count
        } else {
            bn - start + 1
        };
        let mut i: u64 = 0;
        while i < take
            invariant
                self.wf(),
                start <= self.spec_best().number,
                take == (if self.spec_best().number - start >= count {
                    count as int
                } else {
                    self.spec_best().number - start + 1
                }),
                start + take <= self.spec_best().number + 1,
                i <= take,
                r@.len() == i as int,
                forall|j: int|
                    0 <= j < r@.len() ==> {
                        &&& self.spec_canon_at((start + j) as u64) == Some(
                            (#[trigger] r@[j]).header.hash,
                        )
                        &&& has_hash(self.entries@, r@[j].header.hash)
                        &&& r@[j].header == entry_of(self.entries@, r@[j].header.hash).header
                        &&& r@[j].header.number == start + j
                        &&& r@[j].has_body == !headers_only
                        &&& r@[j].justification is None
                    },
            decreases take - i,
        {
            let n = start + i;
            proof {
                self.lemma_canon_in_store(n);
            }
            match self.canon_hash_at(n) {
                Some(h) => {
                    match self.find_index(h) {
                        Some(idx) => {
                            proof {
                                lemma_hash_index_unique(self.entries@, idx as int);
                            }
                            r.push(
                                BlockData {
                                    header: self.entries[idx].header,
                                    has_body: !headers_only,
                                    justification: None,
                                },
                            );
                        }
                        None => {
                            proof {
                                assert(false);
                            }
                            return r;
                        }
                    }
                }
                None => {
                    proof {
                        assert(false);
                    }
                    return r;
                }
            }
            i = i + 1;
        }
        r
    }

    /// The block `hash` and its ancestors, parent-linked, newest first, at
    /// most `count`: the read side of a descending (fork) request.  The walk
    /// stops early only at genesis.
    pub fn read_descending(&self, hash: u64, count: u64, headers_only: bool) -> (r: Vec<BlockData>)
        requires
            self.wf(),
        ensures
            r@.len() <= count,
            (count > 0 && has_hash(self.entries@, hash)) ==> r@.len() >= 1,
            !(count > 0 && has_hash(self.entries@, hash)) ==> r@.len() == 0,
            forall|i: int|
                0 <= i < r@.len() ==> {
                    &&& walk_back(self.entries@, hash, i as nat) == Some(
                        (#[trigger] r@[i]).header.hash,
                    )
                    &&& has_hash(self.entries@, r@[i].header.hash)
                    &&& r@[i].header == entry_of(self.entries@, r@[i].header.hash).header
                    &&& r@[i].has_body == !headers_only
                    &&& r@[i].justification is None
                },
            (r@.len() < count && r@.len() > 0) ==> r@[r@.len() - 1].header.number == 0,
    {
        let mut r: Vec<BlockData> = Vec::new();
        let mut cur: u64 = hash;
        while (r.len() as u64) < count
            invariant
                self.wf(),
                r@.len() <= count,
                walk_back(self.entries@, hash, r@.len() as nat) == Some(cur),
                forall|i: int|
                    0 <= i < r@.len() ==> {
                        &&& walk_back(self.entries@, hash, i as nat) == Some(
                            (#[trigger] r@[i]).header.hash,
                        )
                        &&& has_hash(self.entries@, r@[i].header.hash)
                        &&& r@[i].header == entry_of(self.entries@, r@[i].header.hash).header
                        &&& r@[i].has_body == !headers_only
                        &&& r@[i].justification is None
                    },
                r@.len() > 0 ==> ({
                    let lh = r@[r@.len() - 1].header;
                    &&& lh.number > 0
                    &&& cur == lh.parent
                    &&& has_hash(self.entries@, lh.hash)
                    &&& lh == entry_of(self.entries@, lh.hash).header
                }),
            decreases count - r@.len(),
        {
            match self.find_index(cur) {
                Some(idx) => {
                    proof {
                        lemma_hash_index_unique(self.entries@, idx as int);
                        lemma_walk_back_add(self.entries@, hash, r@.len() as nat, 1nat);
                        assert(walk_back(self.entries@, cur, 1nat) == Some(
                            parent_of(self.entries@, cur),
                        )) by {
                            reveal_with_fuel(walk_back, 2);
                        }
                    }
                    let h = self.entries[idx].header;
                    r.push(BlockData { header: h, has_body: !headers_only, justification: None });
                    if h.number == 0 {
                        return r;
                    }
                    cur = h.parent;
                }
                None => {
                    proof {
                        if r@.len() > 0 {
                            let lh = r@[r@.len() - 1].header;
                            lemma_parent_step(self.entries@, lh.hash);
                            assert(false);
                        }
                    }
                    return r;
                }
            }
        }
        r
    }

    /// Updating one entry's justification, keeping its header, preserves
    /// well-formedness.
    proof fn lemma_wf_after_justification_update(self, s: Seq<Entry>, ti: int)
        requires
            seq_wf(s),
            0 <= ti < s.len(),
            self.entries@.len() == s.len(),
            forall|i: int| 0 <= i < s.len() && i != ti ==> self.entries@[i] == s[i],
            self.entries@[ti].header == s[ti].header,
        ensures
            seq_wf(self.entries@),
    {
        let s2 = self.entries@;
        assert(s2[0].header == s[0].header);
        assert forall|i: int| 1 <= i < s2.len() implies (#[trigger] s2[i]).header.number > 0 by {
            assert(s2[i].header == s[i].header);
        }
        assert forall|i: int, j: int| 0 <= i < j < s2.len() implies (#[trigger] s2[i]).header.hash
            != (#[trigger] s2[j]).header.hash by {
            assert(s2[i].header == s[i].header && s2[j].header == s[j].header);
        }
        assert forall|i: int|
            0 <= i < s2.len() && (#[trigger] s2[i]).header.number > 0 implies parent_linked(
            s2,
            s2[i],
        ) by {
            assert(s2[i].header == s[i].header);
            assert(parent_linked(s, s[i]));
            let j = choose|j: int|
                0 <= j < s.len() && s[j].header.hash == s[i].header.parent && s[j].header.number + 1
                    == s[i].header.number;
            assert(s2[j].header == s[j].header);
            assert(parent_linked(s2, s2[i]));
        }
    }
}

/// Copy a byte buffer.
pub fn clone_bytes(v: &Vec<u8>) -> (r: Vec<u8>)
    ensures
        r@ == v@,
{
    let mut r: Vec<u8> = Vec::new();
    let mut i: usize = 0;
    while i < v.len()
        invariant
            i <= v@.len(),
            r@ == v@.subrange(0, i as int),
        decreases v@.len() - i,
    {
        r.push(v[i]);
        proof {
            assert(r@ =~= v@.subrange(0, i + 1 as int));
        }
        i = i + 1;
    }
    proof {
        assert(r@ =~= v@);
    }
    r
}

/// Law: ancestry completeness.  In a well-formed store, every held block has
/// its whole ancestor chain present: for each number `k` at or below the
/// block's own, the parent walk from the block reaches a held block whose
/// number is exactly `k`.
pub proof fn lemma_ancestry_complete(s: Seq<Entry>, h: u64, k: u64)
    requires
        seq_wf(s),
        has_hash(s, h),
        k <= number_of(s, h),
    ensures
        walk_back(s, h, (number_of(s, h) - k) as nat) is Some,
        has_hash(s, walk_back(s, h, (number_of(s, h) - k) as nat).unwrap()),
        number_of(s, walk_back(s, h, (number_of(s, h) - k) as nat).unwrap()) == k,
{
    lemma_walk_back_in_store(s, h, (number_of(s, h) - k) as nat);
}

} // verus!
