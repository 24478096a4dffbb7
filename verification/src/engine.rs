//! The synchronization engine: owns the local chain store and the peer
//! table, consumes connect/disconnect/response/announcement events, and
//! emits at most one outbound request per peer per tick.  It never blocks:
//! network I/O stays outside, delivering events and carrying the returned
//! [`Action`]s.

use vstd::prelude::*;

use crate::ancestor::AncestorSearch;
use crate::ancestor::SearchStep;
use crate::justify::JustTracker;
use crate::peers::PeerInfo;
use crate::peers::PeerSyncState;
use crate::peers::PeerTable;
use crate::store::entry_of;
use crate::store::has_hash;
use crate::store::ChainStore;
use crate::store::Entry;
use crate::types::Action;
use crate::types::BlockData;
use crate::types::BlockId;
use crate::types::Header;
use crate::types::ImportOutcome;
use crate::types::Request;
use crate::types::Role;
use crate::types::SyncError;
use crate::types::SyncStatus;

verus! {

/// A peer whose reported best is this far above the local best keeps the
/// node in `MajorSyncing` while it is being probed or downloaded from.
pub const MAJOR_SYNC_GAP: u64 = 5;

/// Window of one block-range request: how many blocks are asked for at once.
pub const MAX_RANGE_BLOCKS: u64 = 64;

/// Retries allowed for a malformed range response before the peer is
/// excluded from downloads.
pub const RANGE_RETRIES: u64 = 2;

/// An explicit download target off the best-chain path: the block `hash`
/// reported at `number`, to be fetched from the listed peers.
#[derive(Debug)]
pub struct ForkTarget {
    pub hash: u64,
    pub number: u64,
    pub peer_ids: Vec<u64>,
}

/// A downloaded block waiting for its parent, tagged with the peer that
/// supplied it so a disconnect releases exactly its own contribution.
#[derive(Debug)]
pub struct BufferedBlock {
    pub from_peer: u64,
    pub data: BlockData,
}

/// Whether a request asks a peer to serve block data (the requests light
/// peers are never sent).
pub open spec fn spec_download_request(q: Request) -> bool {
    ||| q is Probe
    ||| q is Ascending
    ||| q is Descending
}

/// The chain-synchronization engine of one node.  The fields are public so
/// that specifications can speak of them; mutate only through the methods,
/// which keep `wf`.
pub struct SyncEngine {
    /// This node's own role; a light node downloads headers only and never
    /// announces.
    pub role: Role,
    /// The local chain store.
    pub chain: ChainStore,
    /// Connected peers, ordered by handle.
    pub peers: PeerTable,
    /// Pending finality-proof requests.
    pub just: JustTracker,
    /// Explicit fork-sync targets.
    pub forks: Vec<ForkTarget>,
    /// Downloaded blocks whose parents are not yet held.
    pub buffer: Vec<BufferedBlock>,
    /// Hashes of blocks the store rejected as bad: never re-requested.
    pub bad_blocks: Vec<u64>,
}

impl SyncEngine {
    /// Per-peer invariant: the common number never exceeds the local best
    /// nor the peer's reported best, an in-flight search stays within the
    /// peer's chain, and only a full peer is ever a download source.
    pub open spec fn peer_ok(self, p: PeerInfo) -> bool {
        &&& p.common_number <= self.chain.spec_best().number
        &&& p.common_number <= p.best_number
        &&& (p.state matches PeerSyncState::Probing(s) ==> s.wf() && s.hi <= p.best_number)
        &&& ((p.state is Probing || p.state is Ranging || p.state is ForkFetch) ==> p.role
            == Role::Full)
    }

    /// Engine invariant.
    pub open spec fn wf(self) -> bool {
        &&& self.chain.wf()
        &&& self.peers.wf()
        &&& self.just.wf()
        &&& forall|i: int|
            0 <= i < self.peers.v@.len() ==> self.peer_ok(#[trigger] self.peers.v@[i])
        &&& forall|i: int, j: int|
            0 <= i < j < self.forks@.len() ==> (#[trigger] self.forks@[i]).hash != (
            #[trigger] self.forks@[j]).hash
    }

    /// A peer that keeps the node in `MajorSyncing`: being probed or
    /// downloaded from, with its best further ahead than the configured gap.
    pub open spec fn spec_peer_major(p: PeerInfo, local_best: u64) -> bool {
        &&& (p.state is Probing || p.state is Ranging || p.state is ForkFetch)
        &&& p.best_number > local_best + MAJOR_SYNC_GAP
    }

    /// Some peer keeps the node in `MajorSyncing`.
    pub open spec fn spec_is_major_syncing(self) -> bool {
        exists|i: int|
            0 <= i < self.peers.v@.len() && Self::spec_peer_major(
                #[trigger] self.peers.v@[i],
                self.chain.spec_best().number,
            )
    }

    /// Whether this node's download requests ask for headers only (a light
    /// node never fetches bodies).
    pub open spec fn spec_headers_only(self) -> bool {
        self.role is Light
    }

    /// The action is addressed to a connected peer; a download request only
    /// ever to a full peer (a light peer is never a download source), and a
    /// descending request only for a registered fork target that lists the
    /// peer.
    pub open spec fn action_wf(self, a: Action) -> bool {
        &&& exists|i: int|
            0 <= i < self.peers.v@.len() && (#[trigger] self.peers.v@[i]).id == a.peer && (
            spec_download_request(a.request) ==> self.peers.v@[i].role == Role::Full)
        &&& (a.request matches Request::Descending { hash, .. } ==> exists|t: int|
            0 <= t < self.forks@.len() && (#[trigger] self.forks@[t]).hash == hash
                && self.forks@[t].peer_ids@.contains(a.peer))
    }

    /// A fresh engine over an empty chain holding only genesis.
    pub fn new(role: Role, genesis_hash: u64) -> (r: SyncEngine)
        ensures
            r.wf(),
            r.role == role,
            r.chain.entries@.len() == 1,
            r.chain.spec_best() == (Header {
                hash: genesis_hash,
                parent: genesis_hash,
                number: 0u64,
            }),
            r.peers.v@.len() == 0,
            r.just.v@.len() == 0,
            r.forks@.len() == 0,
            r.buffer@.len() == 0,
            r.bad_blocks@.len() == 0,
    {
        SyncEngine {
            role,
            chain: ChainStore::new(genesis_hash),
            peers: PeerTable::new(),
            just: JustTracker::new(),
            forks: Vec::new(),
            buffer: Vec::new(),
            bad_blocks: Vec::new(),
        }
    }

    /// Number of connected peers.
    pub fn num_peers(&self) -> (r: usize)
        ensures
            r == self.peers.v@.len(),
    {
        self.peers.len()
    }

    /// Offline: no connected peers.
    pub fn is_offline(&self) -> (r: bool)
        ensures
            r == (self.peers.v@.len() == 0),
    {
        self.peers.len() == 0
    }

    /// Whether the node is substantially behind some peer it is actively
    /// syncing from.
    pub fn is_major_syncing(&self) -> (r: bool)
        requires
            self.wf(),
        ensures
            r == self.spec_is_major_syncing(),
    {
        let local_best = self.chain.best_number();
        let mut i: usize = 0;
        while i < self.peers.len()
            invariant
                self.wf(),
                local_best == self.chain.spec_best().number,
                i <= self.peers.v@.len(),
                forall|j: int|
                    0 <= j < i ==> !Self::spec_peer_major(
                        #[trigger] self.peers.v@[j],
                        self.chain.spec_best().number,
                    ),
            decreases self.peers.v@.len() - i,
        {
            let p = self.peers.v[i];
            let active = match p.state {
                PeerSyncState::Probing(_) => true,
                PeerSyncState::Ranging { .. } => true,
                PeerSyncState::ForkFetch { .. } => true,
                _ => false,
            };
            if active && p.best_number > local_best && p.best_number - local_best
                > MAJOR_SYNC_GAP {
                return true;
            }
            i = i + 1;
        }
        false
    }

    /// Global status, derived: offline without peers, major-syncing while
    /// substantially behind, idle otherwise.  Never stored.
    pub fn status(&self) -> (r: SyncStatus)
        requires
            self.wf(),
        ensures
            r == (if self.peers.v@.len() == 0 {
                SyncStatus::Offline
            } else if self.spec_is_major_syncing() {
                SyncStatus::MajorSyncing
            } else {
                SyncStatus::Idle
            }),
    {
        if self.is_offline() {
            SyncStatus::Offline
        } else if self.is_major_syncing() {
            SyncStatus::MajorSyncing
        } else {
            SyncStatus::Idle
        }
    }

    /// The common number recorded for a peer, if connected.
    pub fn peer_common_number(&self, id: u64) -> (r: Option<u64>)
        requires
            self.wf(),
        ensures
            match r {
                Some(c) => exists|i: int|
                    0 <= i < self.peers.v@.len() && (#[trigger] self.peers.v@[i]).id == id
                        && self.peers.v@[i].common_number == c,
                None => !self.peers.spec_has(id),
            },
    {
        match self.peers.find(id) {
            Some(i) => Some(self.peers.v[i].common_number),
            None => None,
        }
    }

    /// The best number recorded for a peer, if connected.
    pub fn peer_best_number(&self, id: u64) -> (r: Option<u64>)
        requires
            self.wf(),
        ensures
            match r {
                Some(b) => exists|i: int|
                    0 <= i < self.peers.v@.len() && (#[trigger] self.peers.v@[i]).id == id
                        && self.peers.v@[i].best_number == b,
                None => !self.peers.spec_has(id),
            },
    {
        match self.peers.find(id) {
            Some(i) => Some(self.peers.v[i].best_number),
            None => None,
        }
    }

    /// Announce a held block to every connected peer.  A light node never
    /// announces; an unknown hash announces nothing.
    pub fn announce_block(&self, hash: u64) -> (r: Vec<Action>)
        requires
            self.wf(),
        ensures
            (self.role == Role::Light || !has_hash(self.chain.entries@, hash)) ==> r@.len() == 0,
            (self.role == Role::Full && has_hash(self.chain.entries@, hash)) ==> r@.len()
                == self.peers.v@.len() && forall|i: int|
                0 <= i < r@.len() ==> #[trigger] r@[i] == (Action {
                    peer: self.peers.v@[i].id,
                    request: Request::Announce {
                        header: entry_of(self.chain.entries@, hash).header,
                        is_best: hash == self.chain.spec_best().hash,
                    },
                }),
            forall|k: int| 0 <= k < r@.len() ==> self.action_wf(#[trigger] r@[k]),
    {
        let mut r: Vec<Action> = Vec::new();
        match self.role {
            Role::Light => {
                return r;
            }
            Role::Full => {}
        }
        let header = match self.chain.header(BlockId::Hash(hash)) {
            Some(h) => h,
            None => {
                return r;
            }
        };
        let is_best = hash == self.chain.best_hash();
        let mut i: usize = 0;
        while i < self.peers.len()
            invariant
                self.wf(),
                i <= self.peers.v@.len(),
                r@.len() == i as int,
                header == entry_of(self.chain.entries@, hash).header,
                is_best == (hash == self.chain.spec_best().hash),
                forall|j: int|
                    0 <= j < i ==> #[trigger] r@[j] == (Action {
                        peer: self.peers.v@[j].id,
                        request: Request::Announce { header, is_best },
                    }),
                forall|k: int| 0 <= k < r@.len() ==> self.action_wf(#[trigger] r@[k]),
            decreases self.peers.v@.len() - i,
        {
            let a = Action {
                peer: self.peers.v[i].id,
                request: Request::Announce { header, is_best },
            };
            proof {
                assert((self.peers.v@[i as int]).id == a.peer);
                assert(self.action_wf(a));
            }
            r.push(a);
            i = i + 1;
        }
        r
    }

    /// Import a block produced by this node, announcing the result to every
    /// peer (unless this node is light, which never announces).  The chain
    /// store classifies the block exactly as on any other import path.
    pub fn import_own_block(&mut self, header: Header, has_body: bool) -> (r: (
        ImportOutcome,
        Vec<Action>,
    ))
        requires
            old(self).wf(),
        ensures
            final(self).wf(),
            final(self).role == old(self).role,
            final(self).peers == old(self).peers,
            final(self).just == old(self).just,
            final(self).forks == old(self).forks,
            (r.0 matches ImportOutcome::Imported { .. }) == old(self).chain.spec_import_ok(header),
            r.0 matches ImportOutcome::Imported { new_best } ==> final(self).chain.entries@ == old(self).chain.entries@.push((Entry { header, has_body, justification: None }))
                && new_best == old(self).chain.spec_becomes_best(header),
            !(r.0 matches ImportOutcome::Imported { .. }) ==> final(self).chain == old(self).chain
                && r.1@.len() == 0,
            (r.0 matches ImportOutcome::Imported { .. } && old(self).role == Role::Full)
                ==> r.1@.len() == final(self).peers.v@.len(),
            r.0 matches ImportOutcome::Imported { new_best } ==> forall|k: int|
                0 <= k < r.1@.len() ==> #[trigger] r.1@[k] == (Action {
                    peer: final(self).peers.v@[k].id,
                    request: Request::Announce { header, is_best: new_best },
                }),
            forall|k: int| 0 <= k < r.1@.len() ==> final(self).action_wf(#[trigger] r.1@[k]),
    {
        let outcome = self.chain.import(header, has_body, None);
        proof {
            // An import never lowers the best number: the best entry is
            // untouched by the push, or the pushed block is strictly longer.
            match outcome {
                ImportOutcome::Imported { new_best } => {
                    if !new_best {
                        assert(self.chain.entries@[self.chain.best as int] == old(self).chain.entries@[old(self).chain.best as int]);
                    }
                    assert(self.chain.entries@[old(self).chain.entries@.len() as int].header.hash
                        == header.hash);
                    assert(has_hash(self.chain.entries@, header.hash));
                }
                _ => {}
            }
            assert(self.chain.spec_best().number >= old(self).chain.spec_best().number);
            assert forall|i: int|
                0 <= i < self.peers.v@.len() implies self.peer_ok(#[trigger] self.peers.v@[i]) by {
                assert(old(self).peer_ok(old(self).peers.v@[i]));
            }
        }
        let announce = match outcome {
            ImportOutcome::Imported { .. } => true,
            _ => false,
        };
        if announce {
            let acts = self.announce_block(header.hash);
            (outcome, acts)
        } else {
            (outcome, Vec::new())
        }
    }

    /// Track a finality-proof request for block `hash` at height `number`.
    /// An already-tracked request is left as it is: requests are resolved or
    /// retried, never silently dropped or restarted.
    pub fn request_justification(&mut self, hash: u64, number: u64)
        requires
            old(self).wf(),
        ensures
            final(self).wf(),
            final(self).chain == old(self).chain,
            final(self).peers == old(self).peers,
            final(self).just.spec_has(hash),
            old(self).just.spec_has(hash) ==> final(self).just == old(self).just,
            !old(self).just.spec_has(hash) ==> final(self).just.v@.len() == old(self).just.v@.len() + 1 && final(self).just.v@.subrange(0, old(self).just.v@.len() as int)
                == old(self).just.v@,
    {
        self.just.add(hash, number);
    }

    /// Finalize the referenced block (attaching the justification when
    /// given) through the chain store, then clamp every peer's common
    /// number to the possibly retracted local best.
    pub fn finalize_block(&mut self, id: BlockId, justification: Option<Vec<u8>>, notify: bool) -> (
        r: Result<(), SyncError>)
        requires
            old(self).wf(),
        ensures
            final(self).wf(),
            final(self).role == old(self).role,
            final(self).just == old(self).just,
            final(self).forks == old(self).forks,
            final(self).buffer == old(self).buffer,
            final(self).bad_blocks == old(self).bad_blocks,
            r is Err ==> final(self).chain == old(self).chain,
            (r == Err::<(), SyncError>(SyncError::UnknownBlock)) == (old(self).chain.spec_resolve(
                id,
            ) is None),
            r is Ok <==> (old(self).chain.spec_resolve(id) matches Some(ti) && old(self).chain.spec_final_ok(ti)),
            final(self).chain.entries@.len() == old(self).chain.entries@.len(),
            forall|i: int|
                0 <= i < final(self).chain.entries@.len() ==> (#[trigger] final(self).chain.entries@[i]).header == old(self).chain.entries@[i].header,
            r is Ok && justification is Some ==> final(self).chain.entries@[old(self).chain.spec_resolve(id).unwrap()].justification == justification,
            r is Ok ==> ({
                let ti = old(self).chain.spec_resolve(id).unwrap();
                &&& (old(self).chain.spec_final_descends(ti) ==> final(self).chain.finalized == ti
                    && (old(self).chain.spec_best_descends(ti) ==> final(self).chain.best == old(self).chain.best) && (!old(self).chain.spec_best_descends(ti) ==> final(self).chain.best == ti))
                &&& (old(self).chain.spec_final_is_ancestor(ti) ==> final(self).chain.finalized
                    == old(self).chain.finalized && final(self).chain.best == old(self).chain.best)
            }),
            final(self).peers.v@.len() == old(self).peers.v@.len(),
            forall|i: int|
                0 <= i < final(self).peers.v@.len() ==> {
                    let p = #[trigger] final(self).peers.v@[i];
                    let o = old(self).peers.v@[i];
                    &&& p.id == o.id
                    &&& p.role == o.role
                    &&& p.best_hash == o.best_hash
                    &&& p.best_number == o.best_number
                    &&& p.state == o.state
                    &&& p.common_number == (if o.common_number > final(self).chain.spec_best().number {
                        final(self).chain.spec_best().number
                    } else {
                        o.common_number
                    })
                },
    {
        let r = self.chain.finalize(id, justification, notify);
        let ghost chain_now = self.chain;
        let ghost result = r;
        let nb = self.chain.best_number();
        let mut i: usize = 0;
        while i < self.peers.len()
            invariant
                self.chain == chain_now,
                r == result,
                self.role == old(self).role,
                self.just == old(self).just,
                self.forks == old(self).forks,
                self.buffer == old(self).buffer,
                self.bad_blocks == old(self).bad_blocks,
                self.chain.wf(),
                self.peers.wf(),
                self.just.wf(),
                nb == self.chain.spec_best().number,
                i <= self.peers.v@.len(),
                self.peers.v@.len() == old(self).peers.v@.len(),
                forall|j: int, k: int|
                    0 <= j < k < self.forks@.len() ==> (#[trigger] self.forks@[j]).hash != (
                    #[trigger] self.forks@[k]).hash,
                forall|j: int|
                    0 <= j < self.peers.v@.len() ==> (#[trigger] self.peers.v@[j]).common_number
                        <= self.peers.v@[j].best_number && (self.peers.v@[j].state matches
                        PeerSyncState::Probing(s) ==> s.wf() && s.hi
                        <= self.peers.v@[j].best_number),
                forall|j: int|
                    (i as int) <= j < self.peers.v@.len() ==> #[trigger] self.peers.v@[j] == old(self).peers.v@[j],
                forall|j: int|
                    0 <= j < (i as int) ==> {
                        let p = #[trigger] self.peers.v@[j];
                        let o = old(self).peers.v@[j];
                        &&& p.id == o.id
                        &&& p.role == o.role
                        &&& p.best_hash == o.best_hash
                        &&& p.best_number == o.best_number
                        &&& p.state == o.state
                        &&& p.common_number == (if o.common_number > nb {
                            nb
                        } else {
                            o.common_number
                        })
                        &&& p.common_number <= nb
                    },
            decreases self.peers.v@.len() - i,
        {
            let p = self.peers.v[i];
            if p.common_number > nb {
                let p2 = PeerInfo {
                    id: p.id,
                    role: p.role,
                    best_hash: p.best_hash,
                    best_number: p.best_number,
                    common_number: nb,
                    state: p.state,
                };
                self.peers.set_at(i, p2);
            }
            i = i + 1;
        }
        r
    }
}

/// Some buffered block of `buf` carries exactly the header `h`.
pub open spec fn spec_header_from(buf: Seq<BufferedBlock>, h: Header) -> bool {
    exists|k: int| 0 <= k < buf.len() && (#[trigger] buf[k]).data.header == h
}

/// Some block of the response `bs` carries exactly the header `h`.
pub open spec fn spec_block_in(bs: Seq<BlockData>, h: Header) -> bool {
    exists|k: int| 0 <= k < bs.len() && (#[trigger] bs[k]).header == h
}

/// The buffered blocks kept when peer `id` disconnects: those another peer
/// supplied.
pub open spec fn spec_kept_after_disconnect(id: u64) -> spec_fn(BufferedBlock) -> bool {
    |b: BufferedBlock| b.from_peer != id
}

impl SyncEngine {
    /// The common number recorded at handshake: the peer's best if we hold
    /// its best block (clamped to the local best), else nothing yet.
    pub open spec fn spec_initial_common(self, best_hash: u64, best_number: u64) -> u64 {
        if has_hash(self.chain.entries@, best_hash) {
            if best_number <= self.chain.spec_best().number {
                best_number
            } else {
                self.chain.spec_best().number
            }
        } else {
            0
        }
    }

    /// The protocol state a handshake leaves the new peer in: a full peer
    /// with an unknown, not-blacklisted best ahead of the local chain is put
    /// to work at once (a range download from genesis, or an ancestor
    /// search); everyone else starts free.
    pub open spec fn spec_connect_state(self, role: Role, best_hash: u64, best_number: u64) -> PeerSyncState {
        if !has_hash(self.chain.entries@, best_hash) && role == Role::Full
            && !self.bad_blocks@.contains(best_hash) && best_number
            > self.chain.spec_best().number {
            if self.chain.spec_best().number == 0 {
                PeerSyncState::Ranging { next: 1u64, retries: RANGE_RETRIES }
            } else {
                PeerSyncState::Probing(
                    AncestorSearch::spec_begin(self.chain.spec_best().number, best_number),
                )
            }
        } else {
            PeerSyncState::Available
        }
    }

    /// Register `id` as a downloader of the fork target `hash` at `number`,
    /// creating the target if it is new.  Targets of other hashes keep
    /// their entries.
    fn add_fork_peer(&mut self, hash: u64, number: u64, id: u64)
        requires
            forall|i: int, j: int|
                0 <= i < j < old(self).forks@.len() ==> (#[trigger] old(self).forks@[i]).hash != (
                #[trigger] old(self).forks@[j]).hash,
        ensures
            forall|i: int, j: int|
                0 <= i < j < final(self).forks@.len() ==> (#[trigger] final(self).forks@[i]).hash
                    != (#[trigger] final(self).forks@[j]).hash,
            exists|t: int|
                0 <= t < final(self).forks@.len() && (#[trigger] final(self).forks@[t]).hash
                    == hash && final(self).forks@[t].peer_ids@.contains(id),
            forall|i: int|
                0 <= i < old(self).forks@.len() && old(self).forks@[i].hash != hash
                    ==> #[trigger] final(self).forks@[i] == old(self).forks@[i],
            forall|i: int|
                0 <= i < old(self).forks@.len() && old(self).forks@[i].hash == hash ==> (
                #[trigger] final(self).forks@[i]).hash == hash && (forall|q: u64|
                    old(self).forks@[i].peer_ids@.contains(q) ==> final(self).forks@[i].peer_ids@.contains(q)),
            final(self).forks@.len() == old(self).forks@.len() || final(self).forks@.len() == old(self).forks@.len() + 1,
            final(self).chain == old(self).chain,
            final(self).peers == old(self).peers,
            final(self).just == old(self).just,
            final(self).buffer == old(self).buffer,
            final(self).bad_blocks == old(self).bad_blocks,
            final(self).role == old(self).role,
    {
        let mut t: usize = 0;
        while t < self.forks.len()
            invariant
                *self == *old(self),
                t <= self.forks@.len(),
                forall|a: int, b: int|
                    0 <= a < b < old(self).forks@.len() ==> (#[trigger] old(self).forks@[a]).hash
                        != (#[trigger] old(self).forks@[b]).hash,
                forall|j: int| 0 <= j < t ==> (#[trigger] self.forks@[j]).hash != hash,
            decreases self.forks@.len() - t,
        {
            if self.forks[t].hash == hash {
                let already = ids_contains(&self.forks[t].peer_ids, id);
                if already {
                    proof {
                        assert(self.forks@[t as int].peer_ids@.contains(id));
                    }
                    return ;
                }
                let number2 = self.forks[t].number;
                let ghost oldids = self.forks@[t as int].peer_ids@;
                let mut ids = crate::justify::clone_ids(&self.forks[t].peer_ids);
                ids.push(id);
                proof {
                    assert(ids@[ids@.len() - 1] == id);
                    assert(ids@.contains(id));
                }
                self.forks.set(t, ForkTarget { hash, number: number2, peer_ids: ids });
                proof {
                    assert forall|i: int, j: int| 0 <= i < j < self.forks@.len() implies (
                    #[trigger] self.forks@[i]).hash != (#[trigger] self.forks@[j]).hash by {
                        assert(self.forks@[i].hash == old(self).forks@[i].hash);
                        assert(self.forks@[j].hash == old(self).forks@[j].hash);
                    }
                    assert(self.forks@[t as int].hash == hash);
                    assert forall|q: u64| oldids.contains(q) implies self.forks@[
                        t as int
                    ].peer_ids@.contains(q) by {
                        let w = choose|w: int| 0 <= w < oldids.len() && oldids[w] == q;
                        assert(self.forks@[t as int].peer_ids@[w] == q);
                    }
                }
                return ;
            }
            t = t + 1;
        }
        let mut ids: Vec<u64> = Vec::new();
        ids.push(id);
        proof {
            assert(ids@[0] == id);
            assert(ids@.contains(id));
        }
        let ghost oldf = self.forks@;
        self.forks.push(ForkTarget { hash, number, peer_ids: ids });
        proof {
            assert forall|i: int, j: int| 0 <= i < j < self.forks@.len() implies (
            #[trigger] self.forks@[i]).hash != (#[trigger] self.forks@[j]).hash by {
                if j < oldf.len() {
                    assert(self.forks@[i] == oldf[i] && self.forks@[j] == oldf[j]);
                } else {
                    assert(self.forks@[i] == oldf[i]);
                    assert(self.forks@[j].hash == hash);
                }
            }
            assert(self.forks@[self.forks@.len() - 1].hash == hash);
        }
    }

    /// Handshake: a peer connected, reporting its role and best block.
    /// Creates its table entry, restarts pending justification retries (the
    /// peer set changed), and emits at most one request: a probe when the
    /// peer's unknown best lies ahead, a range request when we are at
    /// genesis; a stale unknown best becomes a fork target instead.  A
    /// light peer is never asked for downloads.
    #[verifier::rlimit(100)]
    pub fn new_peer(&mut self, id: u64, role: Role, best_hash: u64, best_number: u64) -> (r: Result<
        Vec<Action>,
        SyncError,
    >)
        requires
            old(self).wf(),
        ensures
            final(self).wf(),
            final(self).chain == old(self).chain,
            final(self).role == old(self).role,
            final(self).buffer == old(self).buffer,
            (r == Err::<Vec<Action>, SyncError>(SyncError::DuplicatePeer)) == old(self).peers.spec_has(id),
            r is Err ==> *final(self) == *old(self),
            r is Ok ==> final(self).peers.v@.len() == old(self).peers.v@.len() + 1
                && final(self).peers.spec_has(id) && exists|k: int|
                0 <= k < final(self).peers.v@.len() && (#[trigger] final(self).peers.v@[k]).id
                    == id && final(self).peers.v@[k].role == role
                    && final(self).peers.v@[k].best_hash == best_hash
                    && final(self).peers.v@[k].best_number == best_number
                    && final(self).peers.v@[k].common_number == old(self).spec_initial_common(
                    best_hash,
                    best_number,
                ) && final(self).peers.v@[k].state == old(self).spec_connect_state(
                    role,
                    best_hash,
                    best_number,
                ) && old(self).peers.v@ == final(self).peers.v@.remove(k),
            r matches Ok(acts) ==> ({
                let start_state = old(self).spec_connect_state(role, best_hash, best_number);
                &&& (start_state is Available ==> acts@.len() == 0)
                &&& (start_state matches PeerSyncState::Ranging { next, .. } ==> acts@.len() == 1
                    && acts@[0] == (Action {
                    peer: id,
                    request: Request::Ascending {
                        start: next,
                        count: (if best_number < MAX_RANGE_BLOCKS {
                            best_number
                        } else {
                            MAX_RANGE_BLOCKS
                        }),
                        headers_only: old(self).spec_headers_only(),
                    },
                }))
                &&& (start_state matches PeerSyncState::Probing(s) ==> acts@.len() == 1
                    && acts@[0] == (Action { peer: id, request: Request::Probe { number: s.probe } }))
            }),
            r is Ok ==> final(self).just.v@.len() == old(self).just.v@.len() && forall|i: int|
                0 <= i < final(self).just.v@.len() ==> (#[trigger] final(self).just.v@[i]).hash
                    == old(self).just.v@[i].hash && final(self).just.v@[i].number == old(self).just.v@[i].number && final(self).just.v@[i].tried@.len() == 0,
            r matches Ok(acts) ==> acts@.len() <= 1 && forall|j: int|
                0 <= j < acts@.len() ==> final(self).action_wf(#[trigger] acts@[j]) && acts@[j].peer
                    == id,
            r is Ok && role == Role::Full && !has_hash(old(self).chain.entries@, best_hash)
                && !old(self).bad_blocks@.contains(best_hash) && 0 < best_number <= old(self).chain.spec_best().number ==> exists|t: int|
                0 <= t < final(self).forks@.len() && (#[trigger] final(self).forks@[t]).hash
                    == best_hash && final(self).forks@[t].peer_ids@.contains(id),
    {
        let local_best = self.chain.best_number();
        let tip_known = self.chain.contains(best_hash);
        let common: u64 = if tip_known {
            if best_number <= local_best {
                best_number
            } else {
                local_best
            }
        } else {
            0
        };
        let is_full = match role {
            Role::Full => true,
            Role::Light => false,
        };
        let bad = ids_contains(&self.bad_blocks, best_hash);
        let mut actions: Vec<Action> = Vec::new();
        let state: PeerSyncState = if !tip_known && is_full && !bad && best_number > local_best {
            if local_best == 0 {
                let count = if best_number < MAX_RANGE_BLOCKS {
                    best_number
                } else {
                    MAX_RANGE_BLOCKS
                };
                let headers_only = match self.role {
                    Role::Light => true,
                    Role::Full => false,
                };
                actions.push(
                    Action {
                        peer: id,
                        request: Request::Ascending { start: 1, count, headers_only },
                    },
                );
                PeerSyncState::Ranging { next: 1, retries: RANGE_RETRIES }
            } else {
                let s = AncestorSearch::begin(local_best, best_number);
                actions.push(Action { peer: id, request: Request::Probe { number: s.probe } });
                PeerSyncState::Probing(s)
            }
        } else {
            PeerSyncState::Available
        };
        let p = PeerInfo { id, role, best_hash, best_number, common_number: common, state };
        let inserted = self.peers.insert(p);
        if !inserted {
            proof {
                assert(actions@.len() <= 1);
            }
            return Err(SyncError::DuplicatePeer);
        }
        proof {
            let v1 = old(self).peers.v@;
            let k = choose|k: int| 0 <= k <= v1.len() && self.peers.v@ == v1.insert(k, p);
            assert(self.peers.v@[k] == p);
            assert(v1 =~= self.peers.v@.remove(k));
            assert forall|i: int|
                0 <= i < self.peers.v@.len() implies self.peer_ok(#[trigger] self.peers.v@[i]) by {
                if i < k {
                    assert(self.peers.v@[i] == v1[i]);
                    assert(old(self).peer_ok(v1[i]));
                } else if i == k {
                } else {
                    assert(self.peers.v@[i] == v1[i - 1]);
                    assert(old(self).peer_ok(v1[i - 1]));
                }
            }
        }
        self.just.peer_set_changed(None);
        if !tip_known && is_full && !bad && best_number > 0 && best_number <= local_best {
            self.add_fork_peer(best_hash, best_number, id);
        }
        proof {
            assert forall|j: int| 0 <= j < actions@.len() implies self.action_wf(
                #[trigger] actions@[j],
            ) && actions@[j].peer == id by {
                let k = choose|k: int|
                    0 <= k < self.peers.v@.len() && (#[trigger] self.peers.v@[k]).id == id;
                assert(self.peers.v@[k].id == actions@[j].peer);
            }
        }
        Ok(actions)
    }

    /// A peer disconnected: drop its table entry, release the buffered
    /// blocks only it supplied, cancel its in-flight justification request
    /// and restart pending justification retries.  Every remaining peer's
    /// entry is untouched, and in particular each one's common number still
    /// lies at or below both the local best and that peer's best.
    pub fn peer_disconnected(&mut self, id: u64) -> (r: Result<(), SyncError>)
        requires
            old(self).wf(),
        ensures
            final(self).wf(),
            final(self).chain == old(self).chain,
            final(self).role == old(self).role,
            (r == Err::<(), SyncError>(SyncError::UnknownPeer)) == !old(self).peers.spec_has(id),
            r is Err ==> *final(self) == *old(self),
            r is Ok ==> exists|k: int|
                0 <= k < old(self).peers.v@.len() && (#[trigger] old(self).peers.v@[k]).id == id
                    && final(self).peers.v@ == old(self).peers.v@.remove(k),
            forall|i: int|
                0 <= i < final(self).peers.v@.len() ==> (#[trigger] final(self).peers.v@[i]).common_number <= final(self).chain.spec_best().number && final(self).peers.v@[i].common_number <= final(self).peers.v@[i].best_number,
            r is Ok ==> final(self).buffer@ == old(self).buffer@.filter(
                spec_kept_after_disconnect(id),
            ),
            final(self).just.v@.len() == old(self).just.v@.len(),
            forall|i: int|
                0 <= i < final(self).just.v@.len() ==> (#[trigger] final(self).just.v@[i]).hash
                    == old(self).just.v@[i].hash && final(self).just.v@[i].number == old(self).just.v@[i].number,
            r is Ok ==> forall|i: int|
                0 <= i < final(self).just.v@.len() ==> (#[trigger] final(self).just.v@[i]).tried@.len() == 0 && final(self).just.v@[i].active == (if old(self).just.v@[i].active == Some(id) {
                    None::<u64>
                } else {
                    old(self).just.v@[i].active
                }),
    {
        let removed = self.peers.remove(id);
        match removed {
            None => Err(SyncError::UnknownPeer),
            Some(_) => {
                proof {
                    let v1 = old(self).peers.v@;
                    let k = choose|k: int|
                        0 <= k < v1.len() && v1[k] == removed.unwrap() && self.peers.v@
                            == v1.remove(k);
                    assert forall|i: int|
                        0 <= i < self.peers.v@.len() implies self.peer_ok(
                        #[trigger] self.peers.v@[i],
                    ) by {
                        if i < k {
                            assert(self.peers.v@[i] == v1[i]);
                            assert(old(self).peer_ok(v1[i]));
                        } else {
                            assert(self.peers.v@[i] == v1[i + 1]);
                            assert(old(self).peer_ok(v1[i + 1]));
                        }
                    }
                }
                self.drop_buffer_from(id);
                self.just.peer_set_changed(Some(id));
                Ok(())
            }
        }
    }

    /// Release the buffered blocks supplied by `id`, keeping all others in
    /// order.
    fn drop_buffer_from(&mut self, id: u64)
        ensures
            final(self).buffer@ == old(self).buffer@.filter(spec_kept_after_disconnect(id)),
            final(self).chain == old(self).chain,
            final(self).peers == old(self).peers,
            final(self).just == old(self).just,
            final(self).forks == old(self).forks,
            final(self).bad_blocks == old(self).bad_blocks,
            final(self).role == old(self).role,
    {
        let ghost pred = spec_kept_after_disconnect(id);
        let ghost orig = self.buffer@;
        let total = self.buffer.len();
        proof {
            assert(orig.len() == total as int);
        }
        let mut kept: Vec<BufferedBlock> = Vec::new();
        proof {
            reveal(Seq::filter);
            assert(orig.subrange(0, 0) =~= Seq::<BufferedBlock>::empty());
            assert(kept@ =~= orig.subrange(0, 0).filter(pred));
        }
        let mut taken: usize = 0;
        while self.buffer.len() > 0
            invariant
                self.chain == old(self).chain,
                self.peers == old(self).peers,
                self.just == old(self).just,
                self.forks == old(self).forks,
                self.bad_blocks == old(self).bad_blocks,
                self.role == old(self).role,
                pred == spec_kept_after_disconnect(id),
                taken <= orig.len(),
                orig.len() <= usize::MAX,
                orig == old(self).buffer@,
                self.buffer@ == orig.subrange(taken as int, orig.len() as int),
                kept@ == orig.subrange(0, taken as int).filter(pred),
            decreases self.buffer@.len(),
        {
            let b = self.buffer.remove(0);
            proof {
                assert(b == orig[taken as int]);
                reveal(Seq::filter);
                assert(orig.subrange(0, taken + 1).drop_last() =~= orig.subrange(0, taken as int));
                assert(orig.subrange(0, taken + 1).last() == orig[taken as int]);
                assert(self.buffer@ =~= orig.subrange(taken + 1, orig.len() as int));
            }
            if b.from_peer != id {
                kept.push(b);
            }
            taken = taken + 1;
        }
        proof {
            assert(orig.subrange(0, taken as int) =~= orig);
        }
        self.buffer = kept;
    }

    /// The first fork target still missing from the store that lists `id`
    /// as a source and is not blacklisted.
    fn find_fork_for(&self, id: u64) -> (r: Option<usize>)
        requires
            self.chain.wf(),
        ensures
            r matches Some(t) ==> (t as int) < self.forks@.len() && self.forks@[
                t as int
            ].peer_ids@.contains(id) && !has_hash(self.chain.entries@, self.forks@[t as int].hash)
                && !self.bad_blocks@.contains(self.forks@[t as int].hash),
            r is None ==> forall|t: int|
                0 <= t < self.forks@.len() ==> !((#[trigger] self.forks@[t]).peer_ids@.contains(id)
                    && !has_hash(self.chain.entries@, self.forks@[t].hash)
                    && !self.bad_blocks@.contains(self.forks@[t].hash)),
    {
        let mut t: usize = 0;
        while t < self.forks.len()
            invariant
                self.chain.wf(),
                t <= self.forks@.len(),
                forall|j: int|
                    0 <= j < t ==> !((#[trigger] self.forks@[j]).peer_ids@.contains(id)
                        && !has_hash(self.chain.entries@, self.forks@[j].hash)
                        && !self.bad_blocks@.contains(self.forks@[j].hash)),
            decreases self.forks@.len() - t,
        {
            let listed = ids_contains(&self.forks[t].peer_ids, id);
            if listed && !self.chain.contains(self.forks[t].hash) && !ids_contains(
                &self.bad_blocks,
                self.forks[t].hash,
            ) {
                return Some(t);
            }
            t = t + 1;
        }
        None
    }

    /// Whether some fork target covers `hash`.
    fn has_fork_target(&self, hash: u64) -> (r: bool)
        ensures
            r == exists|t: int| 0 <= t < self.forks@.len() && (#[trigger] self.forks@[t]).hash == hash,
    {
        let mut t: usize = 0;
        while t < self.forks.len()
            invariant
                t <= self.forks@.len(),
                forall|j: int| 0 <= j < t ==> (#[trigger] self.forks@[j]).hash != hash,
            decreases self.forks@.len() - t,
        {
            if self.forks[t].hash == hash {
                return true;
            }
            t = t + 1;
        }
        false
    }

    /// The peer can serve some registered fork target: it is listed for a
    /// target whose block is neither held nor blacklisted.
    pub open spec fn spec_fork_eligible(self, p: PeerInfo) -> bool {
        exists|t: int|
            0 <= t < self.forks@.len() && (#[trigger] self.forks@[t]).peer_ids@.contains(p.id)
                && !has_hash(self.chain.entries@, self.forks@[t].hash)
                && !self.bad_blocks@.contains(self.forks@[t].hash)
    }

    /// The peer's reported best warrants a download: ahead of the local
    /// best, unknown, not blacklisted, and not already covered by a fork
    /// target.
    pub open spec fn spec_main_sync_eligible(self, p: PeerInfo) -> bool {
        &&& p.best_number > self.chain.spec_best().number
        &&& !has_hash(self.chain.entries@, p.best_hash)
        &&& !self.bad_blocks@.contains(p.best_hash)
        &&& !(exists|t: int|
            0 <= t < self.forks@.len() && (#[trigger] self.forks@[t]).hash == p.best_hash)
    }

    /// Progress of one tick for one peer.  `pre` is the engine before the
    /// tick, `o` and `p` the peer's entry before and after, `r` the actions
    /// emitted so far, `just_now` the tracker afterwards.  A busy peer is
    /// untouched; a free full peer serving an open fork target is put on it
    /// with the descending request emitted; else an eligible unknown best
    /// starts the range download (from genesis) or the ancestor search,
    /// with that request emitted; any other free peer either asks for a
    /// pending justification or stays free because every request is in
    /// flight or already failed with it.
    pub open spec fn spec_tick_progress(
        pre: SyncEngine,
        o: PeerInfo,
        p: PeerInfo,
        r: Seq<Action>,
        just_now: JustTracker,
    ) -> bool {
        &&& (!(o.state is Available) ==> p.state == o.state)
        &&& (o.state is Available && o.role == Role::Full && pre.spec_fork_eligible(o) ==> (
        p.state matches PeerSyncState::ForkFetch { hash: fh, from: ff } && ff == fh && (exists|
            t: int,
        |
            0 <= t < pre.forks@.len() && (#[trigger] pre.forks@[t]).hash == fh
                && pre.forks@[t].peer_ids@.contains(o.id) && !has_hash(pre.chain.entries@, fh))
            && r.contains(
            (Action {
                peer: o.id,
                request: Request::Descending {
                    hash: fh,
                    from: fh,
                    count: MAX_RANGE_BLOCKS,
                    headers_only: pre.spec_headers_only(),
                },
            }),
        )))
        &&& (o.state is Available && o.role == Role::Full && !pre.spec_fork_eligible(o)
            && pre.spec_main_sync_eligible(o) ==> (if pre.chain.spec_best().number == 0 {
            p.state == (PeerSyncState::Ranging { next: 1u64, retries: RANGE_RETRIES })
                && r.contains(
                (Action {
                    peer: o.id,
                    request: Request::Ascending {
                        start: 1u64,
                        count: (if o.best_number < MAX_RANGE_BLOCKS {
                            o.best_number
                        } else {
                            MAX_RANGE_BLOCKS
                        }),
                        headers_only: pre.spec_headers_only(),
                    },
                }),
            )
        } else {
            p.state == PeerSyncState::Probing(
                AncestorSearch::spec_begin(pre.chain.spec_best().number, o.best_number),
            ) && r.contains(
                (Action {
                    peer: o.id,
                    request: Request::Probe {
                        number: AncestorSearch::spec_begin(
                            pre.chain.spec_best().number,
                            o.best_number,
                        ).probe,
                    },
                }),
            )
        }))
        &&& (o.state is Available && !(o.role == Role::Full && (pre.spec_fork_eligible(o)
            || pre.spec_main_sync_eligible(o))) ==> (p.state is Justifying || (p.state == o.state
            && forall|k2: int|
            0 <= k2 < just_now.v@.len() ==> (#[trigger] just_now.v@[k2]).active is Some
                || just_now.v@[k2].tried@.contains(o.id))))
    }

    /// Tick progress survives the rest of the tick: later peers only append
    /// actions and put further justification requests in flight.
    proof fn lemma_tick_progress_monotone(
        pre: SyncEngine,
        o: PeerInfo,
        p: PeerInfo,
        r1: Seq<Action>,
        r2: Seq<Action>,
        j1: JustTracker,
        j2: JustTracker,
    )
        requires
            Self::spec_tick_progress(pre, o, p, r1, j1),
            r1.len() <= r2.len(),
            forall|k: int| 0 <= k < r1.len() ==> #[trigger] r2[k] == r1[k],
            j2.v@.len() == j1.v@.len(),
            forall|k: int|
                0 <= k < j2.v@.len() ==> ((#[trigger] j1.v@[k]).active is Some ==> j2.v@[k].active
                    is Some) && j2.v@[k].tried@ == j1.v@[k].tried@,
        ensures
            Self::spec_tick_progress(pre, o, p, r2, j2),
    {
        assert forall|a: Action| r1.contains(a) implies #[trigger] r2.contains(a) by {
            let k = choose|k: int| 0 <= k < r1.len() && r1[k] == a;
            assert(r2[k] == a);
        }
        if o.state is Available && !(o.role == Role::Full && (pre.spec_fork_eligible(o)
            || pre.spec_main_sync_eligible(o))) {
            if !(p.state is Justifying) && p.state == o.state {
                if forall|k2: int|
                    0 <= k2 < j1.v@.len() ==> (#[trigger] j1.v@[k2]).active is Some
                        || j1.v@[k2].tried@.contains(o.id) {
                    assert forall|k2: int|
                        0 <= k2 < j2.v@.len() implies (#[trigger] j2.v@[k2]).active is Some
                            || j2.v@[k2].tried@.contains(o.id) by {
                        assert(j1.v@[k2].active is Some || j1.v@[k2].tried@.contains(o.id));
                    }
                }
            }
        }
    }

    /// One non-blocking tick: visit the peers in handle order and give every
    /// free peer at most one request.  A full peer is put to work on a fork
    /// target that lists it, else on its own unknown best (a probe, or a
    /// range request straight away when the local chain is at genesis), else
    /// on a pending justification; a light peer is only ever asked for
    /// justifications, never for downloads.  Peer identities, reported
    /// bests and common numbers are untouched, and the chain is only read,
    /// never mutated.
    pub fn tick(&mut self) -> (r: Vec<Action>)
        requires
            old(self).wf(),
        ensures
            final(self).wf(),
            final(self).chain == old(self).chain,
            final(self).role == old(self).role,
            final(self).forks == old(self).forks,
            final(self).buffer == old(self).buffer,
            final(self).bad_blocks == old(self).bad_blocks,
            final(self).peers.v@.len() == old(self).peers.v@.len(),
            forall|i: int|
                0 <= i < final(self).peers.v@.len() ==> {
                    let p = #[trigger] final(self).peers.v@[i];
                    let o = old(self).peers.v@[i];
                    &&& p.id == o.id
                    &&& p.role == o.role
                    &&& p.best_hash == o.best_hash
                    &&& p.best_number == o.best_number
                    &&& p.common_number == o.common_number
                },
            final(self).just.v@.len() == old(self).just.v@.len(),
            forall|i: int|
                0 <= i < final(self).just.v@.len() ==> (#[trigger] final(self).just.v@[i]).hash
                    == old(self).just.v@[i].hash && final(self).just.v@[i].number == old(self).just.v@[i].number,
            forall|k: int| 0 <= k < r@.len() ==> final(self).action_wf(#[trigger] r@[k]),
            // Progress: every free peer with an eligible target is put to
            // work, and the emitted request is pinned.
            forall|i: int|
                0 <= i < old(self).peers.v@.len() ==> Self::spec_tick_progress(
                    *old(self),
                    #[trigger] old(self).peers.v@[i],
                    final(self).peers.v@[i],
                    r@,
                    final(self).just,
                ),
    {
        let mut out: Vec<Action> = Vec::new();
        let headers_only = match self.role {
            Role::Light => true,
            Role::Full => false,
        };
        let mut i: usize = 0;
        while i < self.peers.len()
            invariant
                old(self).wf(),
                self.chain == old(self).chain,
                self.role == old(self).role,
                self.forks == old(self).forks,
                self.buffer == old(self).buffer,
                self.bad_blocks == old(self).bad_blocks,
                self.peers.wf(),
                self.just.wf(),
                i <= self.peers.v@.len(),
                self.peers.v@.len() == old(self).peers.v@.len(),
                forall|j: int|
                    0 <= j < self.peers.v@.len() ==> {
                        let p = #[trigger] self.peers.v@[j];
                        let o = old(self).peers.v@[j];
                        &&& p.id == o.id
                        &&& p.role == o.role
                        &&& p.best_hash == o.best_hash
                        &&& p.best_number == o.best_number
                        &&& p.common_number == o.common_number
                    },
                forall|j: int|
                    0 <= j < self.peers.v@.len() ==> self.peer_ok(#[trigger] self.peers.v@[j]),
                self.just.v@.len() == old(self).just.v@.len(),
                forall|j: int|
                    0 <= j < self.just.v@.len() ==> (#[trigger] self.just.v@[j]).hash == old(self).just.v@[j].hash && self.just.v@[j].number == old(self).just.v@[j].number,
                forall|k: int| 0 <= k < out@.len() ==> old(self).action_wf(#[trigger] out@[k]),
                headers_only == old(self).spec_headers_only(),
                forall|j: int|
                    (i as int) <= j < self.peers.v@.len() ==> (#[trigger] self.peers.v@[j]).state
                        == old(self).peers.v@[j].state,
                forall|j: int|
                    0 <= j < (i as int) ==> Self::spec_tick_progress(
                        *old(self),
                        #[trigger] old(self).peers.v@[j],
                        self.peers.v@[j],
                        out@,
                        self.just,
                    ),
            decreases self.peers.v@.len() - i,
        {
            let ghost peers0 = self.peers.v@;
            let ghost out0 = out@;
            let ghost just0 = self.just;
            let p = self.peers.v[i];
            let avail = match p.state {
                PeerSyncState::Available => true,
                _ => false,
            };
            let is_full = match p.role {
                Role::Full => true,
                Role::Light => false,
            };
            if avail {
                let mut dispatched = false;
                if is_full {
                    match self.find_fork_for(p.id) {
                        Some(t) => {
                            let fh = self.forks[t].hash;
                            let a = Action {
                                peer: p.id,
                                request: Request::Descending {
                                    hash: fh,
                                    from: fh,
                                    count: MAX_RANGE_BLOCKS,
                                    headers_only,
                                },
                            };
                            proof {
                                assert(old(self).peers.v@[i as int].id == p.id);
                                assert(old(self).peers.v@[i as int].role == Role::Full);
                                assert(old(self).action_wf(a));
                            }
                            out.push(a);
                            self.peers.set_at(
                                i,
                                PeerInfo {
                                    id: p.id,
                                    role: p.role,
                                    best_hash: p.best_hash,
                                    best_number: p.best_number,
                                    common_number: p.common_number,
                                    state: PeerSyncState::ForkFetch { hash: fh, from: fh },
                                },
                            );
                            proof {
                                assert(out@[out@.len() - 1] == a);
                                assert(out@.contains(a));
                                assert(headers_only == old(self).spec_headers_only());
                                assert(old(self).forks@[t as int].hash == fh);
                                assert(old(self).forks@[t as int].peer_ids@.contains(p.id));
                                assert(!has_hash(old(self).chain.entries@, fh));
                                assert(Self::spec_tick_progress(
                                    *old(self),
                                    old(self).peers.v@[i as int],
                                    self.peers.v@[i as int],
                                    out@,
                                    self.just,
                                ));
                            }
                            dispatched = true;
                        }
                        None => {}
                    }
                    if !dispatched {
                        let local_best = self.chain.best_number();
                        if p.best_number > local_best && !self.chain.contains(p.best_hash)
                            && !ids_contains(&self.bad_blocks, p.best_hash)
                            && !self.has_fork_target(p.best_hash) {
                            if local_best == 0 {
                                let count = if p.best_number < MAX_RANGE_BLOCKS {
                                    p.best_number
                                } else {
                                    MAX_RANGE_BLOCKS
                                };
                                let a = Action {
                                    peer: p.id,
                                    request: Request::Ascending { start: 1, count, headers_only },
                                };
                                proof {
                                    assert(old(self).peers.v@[i as int].id == p.id);
                                    assert(old(self).action_wf(a));
                                }
                                out.push(a);
                                self.peers.set_at(
                                    i,
                                    PeerInfo {
                                        id: p.id,
                                        role: p.role,
                                        best_hash: p.best_hash,
                                        best_number: p.best_number,
                                        common_number: p.common_number,
                                        state: PeerSyncState::Ranging {
                                            next: 1,
                                            retries: RANGE_RETRIES,
                                        },
                                    },
                                );
                                proof {
                                    assert(out@[out@.len() - 1] == a);
                                    assert(out@.contains(a));
if old(self).spec_fork_eligible(old(self).peers.v@[i as int]) {
                                        let o0 = old(self).peers.v@[i as int];
                                        let t0 = choose|t0: int|
                                            0 <= t0 < old(self).forks@.len() && (#[trigger] old(
                                                self,
                                            ).forks@[t0]).peer_ids@.contains(o0.id) && !has_hash(
                                                old(self).chain.entries@,
                                                old(self).forks@[t0].hash,
                                            ) && !old(self).bad_blocks@.contains(
                                                old(self).forks@[t0].hash,
                                            );
                                        assert(false);
                                    }
                                    assert(!old(self).spec_fork_eligible(
                                        old(self).peers.v@[i as int],
                                    ));
                                    assert(old(self).spec_main_sync_eligible(
                                        old(self).peers.v@[i as int],
                                    ));
                                    assert(Self::spec_tick_progress(
                                        *old(self),
                                        old(self).peers.v@[i as int],
                                        self.peers.v@[i as int],
                                        out@,
                                        self.just,
                                    ));
                                }
                            } else {
                                let s = AncestorSearch::begin(local_best, p.best_number);
                                let a = Action {
                                    peer: p.id,
                                    request: Request::Probe { number: s.probe },
                                };
                                proof {
                                    assert(old(self).peers.v@[i as int].id == p.id);
                                    assert(old(self).action_wf(a));
                                }
                                out.push(a);
                                self.peers.set_at(
                                    i,
                                    PeerInfo {
                                        id: p.id,
                                        role: p.role,
                                        best_hash: p.best_hash,
                                        best_number: p.best_number,
                                        common_number: p.common_number,
                                        state: PeerSyncState::Probing(s),
                                    },
                                );
                                proof {
                                    assert(out@[out@.len() - 1] == a);
                                    assert(out@.contains(a));
if old(self).spec_fork_eligible(old(self).peers.v@[i as int]) {
                                        let o0 = old(self).peers.v@[i as int];
                                        let t0 = choose|t0: int|
                                            0 <= t0 < old(self).forks@.len() && (#[trigger] old(
                                                self,
                                            ).forks@[t0]).peer_ids@.contains(o0.id) && !has_hash(
                                                old(self).chain.entries@,
                                                old(self).forks@[t0].hash,
                                            ) && !old(self).bad_blocks@.contains(
                                                old(self).forks@[t0].hash,
                                            );
                                        assert(false);
                                    }
                                    assert(!old(self).spec_fork_eligible(
                                        old(self).peers.v@[i as int],
                                    ));
                                    assert(old(self).spec_main_sync_eligible(
                                        old(self).peers.v@[i as int],
                                    ));
                                    assert(Self::spec_tick_progress(
                                        *old(self),
                                        old(self).peers.v@[i as int],
                                        self.peers.v@[i as int],
                                        out@,
                                        self.just,
                                    ));
                                }
                            }
                            dispatched = true;
                        }
                    }
                }
                if !dispatched {
                    match self.just.next_for(p.id) {
                        Some(ji) => {
                            let jh = self.just.v[ji].hash;
                            let jn = self.just.v[ji].number;
                            self.just.assign(ji, p.id);
                            let a = Action {
                                peer: p.id,
                                request: Request::Justification { hash: jh, number: jn },
                            };
                            proof {
                                assert(old(self).peers.v@[i as int].id == p.id);
                                assert(old(self).action_wf(a));
                            }
                            out.push(a);
                            self.peers.set_at(
                                i,
                                PeerInfo {
                                    id: p.id,
                                    role: p.role,
                                    best_hash: p.best_hash,
                                    best_number: p.best_number,
                                    common_number: p.common_number,
                                    state: PeerSyncState::Justifying { hash: jh },
                                },
                            );
                        }
                        None => {}
                    }
                }
            }
            proof {
                // The peer handled this round satisfies the progress clause;
                // the ones before keep it, the tick only having appended
                // actions and put more requests in flight since their turn.
                if avail && is_full {
                    if old(self).spec_fork_eligible(old(self).peers.v@[i as int])
                        && !(self.peers.v@[i as int].state is ForkFetch) {
                        let o0 = old(self).peers.v@[i as int];
                        let t0 = choose|t0: int|
                            0 <= t0 < old(self).forks@.len() && (#[trigger] old(
                                self,
                            ).forks@[t0]).peer_ids@.contains(o0.id) && !has_hash(
                                old(self).chain.entries@,
                                old(self).forks@[t0].hash,
                            ) && !old(self).bad_blocks@.contains(old(self).forks@[t0].hash);
                        assert(false);
                    }
                }
                assert(Self::spec_tick_progress(
                    *old(self),
                    old(self).peers.v@[i as int],
                    self.peers.v@[i as int],
                    out@,
                    self.just,
                ));
                assert forall|j: int|
                    0 <= j < (i as int) implies Self::spec_tick_progress(
                    *old(self),
                    #[trigger] old(self).peers.v@[j],
                    self.peers.v@[j],
                    out@,
                    self.just,
                ) by {
                    assert(self.peers.v@[j] == peers0[j]);
                    assert(Self::spec_tick_progress(
                        *old(self),
                        old(self).peers.v@[j],
                        peers0[j],
                        out0,
                        just0,
                    ));
                    assert forall|k: int| 0 <= k < out0.len() implies #[trigger] out@[k]
                        == out0[k] by {}
                    assert forall|k: int|
                        0 <= k < self.just.v@.len() implies ((#[trigger] just0.v@[k]).active
                            is Some ==> self.just.v@[k].active is Some) && self.just.v@[k].tried@
                            == just0.v@[k].tried@ by {}
                    Self::lemma_tick_progress_monotone(
                        *old(self),
                        old(self).peers.v@[j],
                        peers0[j],
                        out0,
                        out@,
                        just0,
                        self.just,
                    );
                }
            }
            i = i + 1;
        }
        proof {
            assert forall|k: int| 0 <= k < out@.len() implies self.action_wf(
                #[trigger] out@[k],
            ) by {
                let a = out@[k];
                assert(old(self).action_wf(a));
                let w = choose|w: int|
                    0 <= w < old(self).peers.v@.len() && (#[trigger] old(self).peers.v@[w]).id
                        == a.peer && (spec_download_request(a.request) ==> old(self).peers.v@[w].role == Role::Full);
                assert(self.peers.v@[w].id == a.peer);
                assert(spec_download_request(a.request) ==> self.peers.v@[w].role == Role::Full);
            }
        }
        out
    }

    /// Whether some fork target for `hash` lists `id` as a source.
    fn fork_target_lists(&self, hash: u64, id: u64) -> (r: bool)
        ensures
            r == exists|t: int|
                0 <= t < self.forks@.len() && (#[trigger] self.forks@[t]).hash == hash
                    && self.forks@[t].peer_ids@.contains(id),
    {
        let mut t: usize = 0;
        while t < self.forks.len()
            invariant
                t <= self.forks@.len(),
                forall|j: int|
                    0 <= j < t ==> !((#[trigger] self.forks@[j]).hash == hash
                        && self.forks@[j].peer_ids@.contains(id)),
            decreases self.forks@.len() - t,
        {
            if self.forks[t].hash == hash && ids_contains(&self.forks[t].peer_ids, id) {
                return true;
            }
            t = t + 1;
        }
        false
    }

    /// Strike `id` off the source list of the fork target for `hash` (the
    /// peer could not serve it); the targets themselves all stay.
    fn drop_fork_peer(&mut self, hash: u64, id: u64)
        requires
            forall|i: int, j: int|
                0 <= i < j < old(self).forks@.len() ==> (#[trigger] old(self).forks@[i]).hash != (
                #[trigger] old(self).forks@[j]).hash,
        ensures
            forall|i: int, j: int|
                0 <= i < j < final(self).forks@.len() ==> (#[trigger] final(self).forks@[i]).hash
                    != (#[trigger] final(self).forks@[j]).hash,
            final(self).forks@.len() == old(self).forks@.len(),
            forall|i: int|
                0 <= i < final(self).forks@.len() ==> (#[trigger] final(self).forks@[i]).hash
                    == old(self).forks@[i].hash && final(self).forks@[i].number == old(self).forks@[i].number,
            forall|i: int|
                0 <= i < final(self).forks@.len() && old(self).forks@[i].hash == hash ==> !(
                #[trigger] final(self).forks@[i]).peer_ids@.contains(id),
            final(self).chain == old(self).chain,
            final(self).peers == old(self).peers,
            final(self).just == old(self).just,
            final(self).buffer == old(self).buffer,
            final(self).bad_blocks == old(self).bad_blocks,
            final(self).role == old(self).role,
    {
        let mut t: usize = 0;
        while t < self.forks.len()
            invariant
                *self == *old(self),
                t <= self.forks@.len(),
                forall|j: int| 0 <= j < t ==> (#[trigger] self.forks@[j]).hash != hash,
                forall|a: int, b: int|
                    0 <= a < b < old(self).forks@.len() ==> (#[trigger] old(self).forks@[a]).hash
                        != (#[trigger] old(self).forks@[b]).hash,
            decreases self.forks@.len() - t,
        {
            if self.forks[t].hash == hash {
                let number = self.forks[t].number;
                let mut ids2: Vec<u64> = Vec::new();
                let mut k: usize = 0;
                while k < self.forks[t].peer_ids.len()
                    invariant
                        *self == *old(self),
                        (t as int) < self.forks@.len(),
                        k <= self.forks@[t as int].peer_ids@.len(),
                        forall|m: int| 0 <= m < ids2@.len() ==> #[trigger] ids2@[m] != id,
                    decreases self.forks@[t as int].peer_ids@.len() - k,
                {
                    let q = self.forks[t].peer_ids[k];
                    if q != id {
                        ids2.push(q);
                    }
                    k = k + 1;
                }
                self.forks.set(t, ForkTarget { hash, number, peer_ids: ids2 });
                proof {
                    assert forall|a: int, b: int| 0 <= a < b < self.forks@.len() implies (
                    #[trigger] self.forks@[a]).hash != (#[trigger] self.forks@[b]).hash by {
                        assert(self.forks@[a].hash == old(self).forks@[a].hash);
                        assert(self.forks@[b].hash == old(self).forks@[b].hash);
                    }
                    assert(!self.forks@[t as int].peer_ids@.contains(id));
                    assert forall|i: int|
                        0 <= i < self.forks@.len() && old(self).forks@[i].hash
                            == hash implies !(#[trigger] self.forks@[i]).peer_ids@.contains(
                        id,
                    ) by {
                        if i != t {
                            assert(old(self).forks@[i].hash != old(self).forks@[t as int].hash);
                        }
                    }
                }
                return ;
            }
            t = t + 1;
        }
    }

    /// Move every buffered block whose parent has become available into the
    /// store, releasing them in parent-first order; blocks already held or
    /// blacklisted are dropped from the buffer.  The store only grows, by
    /// blocks that were buffered, and the best number never falls.
    fn drain_buffer(&mut self)
        requires
            old(self).wf(),
        ensures
            final(self).wf(),
            final(self).role == old(self).role,
            final(self).peers == old(self).peers,
            final(self).just == old(self).just,
            final(self).forks == old(self).forks,
            final(self).bad_blocks == old(self).bad_blocks,
            old(self).chain.entries@.len() <= final(self).chain.entries@.len(),
            final(self).chain.entries@.subrange(0, old(self).chain.entries@.len() as int) == old(self).chain.entries@,
            final(self).chain.spec_best().number >= old(self).chain.spec_best().number,
            forall|i: int|
                old(self).chain.entries@.len() <= i < final(self).chain.entries@.len()
                    ==> spec_header_from(
                    old(self).buffer@,
                    (#[trigger] final(self).chain.entries@[i]).header,
                ),
            final(self).buffer@.len() <= old(self).buffer@.len(),
    {
        let ghost base = self.chain.entries@;
        proof {
            assert forall|j: int|
                0 <= j < self.buffer@.len() implies old(self).buffer@.contains(
                #[trigger] self.buffer@[j],
            ) by {
                assert(old(self).buffer@[j] == self.buffer@[j]);
            }
        }
        let mut done = false;
        while !done
            invariant
                self.wf(),
                self.role == old(self).role,
                self.peers == old(self).peers,
                self.just == old(self).just,
                self.forks == old(self).forks,
                self.bad_blocks == old(self).bad_blocks,
                base == old(self).chain.entries@,
                base.len() <= self.chain.entries@.len(),
                self.chain.entries@.subrange(0, base.len() as int) == base,
                self.chain.spec_best().number >= old(self).chain.spec_best().number,
                forall|i: int|
                    base.len() <= i < self.chain.entries@.len() ==> spec_header_from(
                        old(self).buffer@,
                        (#[trigger] self.chain.entries@[i]).header,
                    ),
                self.buffer@.len() <= old(self).buffer@.len(),
                forall|j: int|
                    0 <= j < self.buffer@.len() ==> old(self).buffer@.contains(
                        #[trigger] self.buffer@[j],
                    ),
            decreases self.buffer@.len() + (if done {
                0int
            } else {
                1int
            }),
        {
            let mut pick: Option<usize> = None;
            let mut k: usize = 0;
            while k < self.buffer.len()
                invariant_except_break
                    k <= self.buffer@.len(),
                    pick is None,
                ensures
                    pick matches Some(x) ==> (x as int) < self.buffer@.len(),
                decreases self.buffer@.len() - k,
            {
                let h = self.buffer[k].data.header;
                if self.chain.contains(h.parent) || self.chain.contains(h.hash) || ids_contains(
                    &self.bad_blocks,
                    h.hash,
                ) {
                    pick = Some(k);
                    break ;
                }
                k = k + 1;
            }
            match pick {
                None => {
                    done = true;
                }
                Some(x) => {
                    let ghost pre = *self;
                    let b = self.buffer.remove(x);
                    proof {
                        assert(old(self).buffer@.contains(pre.buffer@[x as int]));
                        assert forall|j: int|
                            0 <= j < self.buffer@.len() implies old(self).buffer@.contains(
                            #[trigger] self.buffer@[j],
                        ) by {
                            if j < x {
                                assert(self.buffer@[j] == pre.buffer@[j]);
                            } else {
                                assert(self.buffer@[j] == pre.buffer@[j + 1]);
                            }
                        }
                    }
                    let already = self.chain.contains(b.data.header.hash);
                    let bad = ids_contains(&self.bad_blocks, b.data.header.hash);
                    if !already && !bad {
                        let ghost prechain = self.chain;
                        let _outcome = self.chain.import(
                            b.data.header,
                            b.data.has_body,
                            b.data.justification,
                        );
                        proof {
                            match _outcome {
                                ImportOutcome::Imported { new_best } => {
                                    if !new_best {
                                        assert(self.chain.entries@[self.chain.best as int]
                                            == prechain.entries@[prechain.best as int]);
                                    }
                                }
                                _ => {}
                            }
                            assert(self.chain.spec_best().number
                                >= prechain.spec_best().number);
                            assert forall|j: int|
                                0 <= j < self.peers.v@.len() implies self.peer_ok(
                                #[trigger] self.peers.v@[j],
                            ) by {
                                assert(pre.peer_ok(pre.peers.v@[j]));
                            }
                            assert(self.chain.entries@.subrange(0, base.len() as int)
                                =~= prechain.entries@.subrange(0, base.len() as int));
                            assert forall|i: int|
                                base.len() <= i < self.chain.entries@.len() implies spec_header_from(
                                old(self).buffer@,
                                (#[trigger] self.chain.entries@[i]).header,
                            ) by {
                                if i < prechain.entries@.len() {
                                    assert(self.chain.entries@[i] == prechain.entries@[i]);
                                } else {
                                    assert(self.chain.entries@[i].header == b.data.header);
                                    assert(old(self).buffer@.contains(b));
                                    let k2 = choose|k2: int|
                                        0 <= k2 < old(self).buffer@.len() && old(self).buffer@[k2]
                                            == b;
                                    assert((old(self).buffer@[k2]).data.header == b.data.header);
                                }
                            }
                        }
                    }
                }
            }
        }
    }

    /// Append the whole response to the download buffer, tagged with the
    /// supplying peer.
    fn buffer_response(&mut self, peer_id: u64, blocks: Vec<BlockData>)
        ensures
            final(self).buffer@.len() == old(self).buffer@.len() + blocks@.len(),
            final(self).buffer@.subrange(0, old(self).buffer@.len() as int) == old(self).buffer@,
            forall|i: int|
                0 <= i < blocks@.len() ==> final(self).buffer@[old(self).buffer@.len() + i]
                    == (BufferedBlock { from_peer: peer_id, data: #[trigger] blocks@[i] }),
            final(self).chain == old(self).chain,
            final(self).peers == old(self).peers,
            final(self).just == old(self).just,
            final(self).forks == old(self).forks,
            final(self).bad_blocks == old(self).bad_blocks,
            final(self).role == old(self).role,
    {
        let ghost orig = blocks@;
        let ghost base = self.buffer@;
        let mut blocks = blocks;
        while blocks.len() > 0
            invariant
                self.chain == old(self).chain,
                self.peers == old(self).peers,
                self.just == old(self).just,
                self.forks == old(self).forks,
                self.bad_blocks == old(self).bad_blocks,
                self.role == old(self).role,
                base == old(self).buffer@,
                blocks@.len() <= orig.len(),
                blocks@ == orig.subrange(orig.len() - blocks@.len(), orig.len() as int),
                self.buffer@.len() == base.len() + orig.len() - blocks@.len(),
                self.buffer@.subrange(0, base.len() as int) == base,
                forall|i: int|
                    0 <= i < orig.len() - blocks@.len() ==> self.buffer@[base.len() + i]
                        == (BufferedBlock { from_peer: peer_id, data: #[trigger] orig[i] }),
            decreases blocks@.len(),
        {
            let ghost prebuf = self.buffer@;
            let ghost preblocks = blocks@;
            let b = blocks.remove(0);
            proof {
                assert(b == orig[orig.len() - preblocks.len()]);
                assert(blocks@ =~= orig.subrange(orig.len() - blocks@.len(), orig.len() as int));
            }
            self.buffer.push(BufferedBlock { from_peer: peer_id, data: b });
            proof {
                assert(self.buffer@.subrange(0, base.len() as int) =~= base);
            }
        }
    }

    /// A well-formed ascending range response: at least one block, numbers
    /// counting up from `next`, each block extending the one before it.
    pub open spec fn spec_valid_ascending(b: Seq<BlockData>, next: u64) -> bool {
        &&& b.len() >= 1
        &&& forall|i: int| 0 <= i < b.len() ==> (#[trigger] b[i]).header.number == next + i
        &&& forall|i: int|
            1 <= i < b.len() ==> (#[trigger] b[i]).header.parent == b[i - 1].header.hash
    }

    /// A well-formed descending fork response: starts at the requested
    /// block and walks parent links, numbers counting down.
    pub open spec fn spec_valid_descending(b: Seq<BlockData>, from: u64) -> bool {
        &&& b.len() >= 1
        &&& b[0].header.hash == from
        &&& forall|i: int|
            1 <= i < b.len() ==> (#[trigger] b[i]).header.hash == b[i - 1].header.parent && b[
                i
            ].header.number + 1 == b[i - 1].header.number
    }

    fn valid_ascending(blocks: &Vec<BlockData>, next: u64) -> (r: bool)
        ensures
            r == Self::spec_valid_ascending(blocks@, next),
    {
        if blocks.len() == 0 {
            return false;
        }
        let mut i: usize = 0;
        while i < blocks.len()
            invariant
                i <= blocks@.len(),
                forall|j: int| 0 <= j < i ==> (#[trigger] blocks@[j]).header.number == next + j,
                forall|j: int|
                    1 <= j < i ==> (#[trigger] blocks@[j]).header.parent == blocks@[j
                        - 1].header.hash,
                i > 0 ==> next + i - 1 <= u64::MAX,
            decreases blocks@.len() - i,
        {
            if i > 0 {
                if blocks[i].header.parent != blocks[i - 1].header.hash {
                    return false;
                }
                let prev_num = blocks[i - 1].header.number;
                if prev_num == u64::MAX {
                    return false;
                }
                if blocks[i].header.number != prev_num + 1 {
                    return false;
                }
            } else {
                if blocks[i].header.number != next {
                    return false;
                }
            }
            i = i + 1;
        }
        true
    }

    fn valid_descending(blocks: &Vec<BlockData>, from: u64) -> (r: bool)
        ensures
            r == Self::spec_valid_descending(blocks@, from),
    {
        if blocks.len() == 0 {
            return false;
        }
        if blocks[0].header.hash != from {
            return false;
        }
        let mut i: usize = 1;
        while i < blocks.len()
            invariant
                1 <= i <= blocks@.len(),
                blocks@[0].header.hash == from,
                forall|j: int|
                    1 <= j < i ==> (#[trigger] blocks@[j]).header.hash == blocks@[j
                        - 1].header.parent && blocks@[j].header.number + 1 == blocks@[j
                        - 1].header.number,
            decreases blocks@.len() - i,
        {
            if blocks[i].header.hash != blocks[i - 1].header.parent {
                return false;
            }
            let prev_num = blocks[i - 1].header.number;
            if prev_num == 0 {
                return false;
            }
            if blocks[i].header.number != prev_num - 1 {
                return false;
            }
            i = i + 1;
        }
        true
    }

    /// Blocks from `hashes` that the store now holds make their pending
    /// justification requests retriable again.
    fn retry_ready_justifications(&mut self, hashes: &Vec<u64>)
        requires
            old(self).wf(),
        ensures
            final(self).wf(),
            final(self).chain == old(self).chain,
            final(self).peers == old(self).peers,
            final(self).forks == old(self).forks,
            final(self).buffer == old(self).buffer,
            final(self).bad_blocks == old(self).bad_blocks,
            final(self).role == old(self).role,
            final(self).just.v@.len() == old(self).just.v@.len(),
            forall|i: int|
                0 <= i < final(self).just.v@.len() ==> (#[trigger] final(self).just.v@[i]).hash
                    == old(self).just.v@[i].hash && final(self).just.v@[i].number == old(self).just.v@[i].number && final(self).just.v@[i].active == old(self).just.v@[i].active,
    {
        let mut i: usize = 0;
        while i < hashes.len()
            invariant
                self.wf(),
                i <= hashes@.len(),
                self.chain == old(self).chain,
                self.peers == old(self).peers,
                self.forks == old(self).forks,
                self.buffer == old(self).buffer,
                self.bad_blocks == old(self).bad_blocks,
                self.role == old(self).role,
                self.just.v@.len() == old(self).just.v@.len(),
                forall|j: int|
                    0 <= j < self.just.v@.len() ==> (#[trigger] self.just.v@[j]).hash == old(self).just.v@[j].hash && self.just.v@[j].number == old(self).just.v@[j].number
                        && self.just.v@[j].active == old(self).just.v@[j].active,
            decreases hashes@.len() - i,
        {
            if self.chain.contains(hashes[i]) {
                self.just.retry_for(hashes[i]);
            }
            i = i + 1;
        }
    }

    /// A block-range response, ascending (main download) or descending
    /// (fork fetch) according to the peer's in-flight request.  Valid
    /// blocks are buffered and released to import in parent-first order; a
    /// malformed response is retried a bounded number of times, after which
    /// the peer is excluded from downloads.  The local chain only ever
    /// grows, by blocks that arrived in this or earlier responses, and no
    /// peer's common number falls.  When the download reaches the peer's
    /// best block the peer goes idle; a best that proved unreachable by
    /// ascending numbers is retried as a fork target by hash; a response
    /// that cannot attach anywhere restarts the ancestor search, the
    /// assumed common number having proved wrong.
    #[verifier::rlimit(100)]
    pub fn on_range_response(&mut self, peer_id: u64, blocks: Vec<BlockData>) -> (r: Vec<Action>)
        requires
            old(self).wf(),
        ensures
            final(self).wf(),
            final(self).role == old(self).role,
            final(self).bad_blocks == old(self).bad_blocks,
            final(self).just.v@.len() == old(self).just.v@.len(),
            forall|i: int|
                0 <= i < final(self).just.v@.len() ==> (#[trigger] final(self).just.v@[i]).hash
                    == old(self).just.v@[i].hash && final(self).just.v@[i].number == old(self).just.v@[i].number && final(self).just.v@[i].active == old(self).just.v@[i].active,
            old(self).chain.entries@.len() <= final(self).chain.entries@.len(),
            final(self).chain.entries@.subrange(0, old(self).chain.entries@.len() as int) == old(self).chain.entries@,
            final(self).chain.spec_best().number >= old(self).chain.spec_best().number,
            forall|i: int|
                old(self).chain.entries@.len() <= i < final(self).chain.entries@.len() ==> (
                spec_header_from(old(self).buffer@, (#[trigger] final(self).chain.entries@[i]).header)
                    || spec_block_in(blocks@, final(self).chain.entries@[i].header)),
            final(self).peers.v@.len() == old(self).peers.v@.len(),
            forall|i: int|
                0 <= i < final(self).peers.v@.len() ==> {
                    let p = #[trigger] final(self).peers.v@[i];
                    let o = old(self).peers.v@[i];
                    &&& p.id == o.id
                    &&& p.role == o.role
                    &&& p.best_hash == o.best_hash
                    &&& p.best_number == o.best_number
                    &&& p.common_number >= o.common_number
                    &&& (o.id != peer_id ==> p.state == o.state && p.common_number
                        == o.common_number)
                },
            r@.len() <= 1,
            forall|k: int|
                0 <= k < r@.len() ==> final(self).action_wf(#[trigger] r@[k]) && r@[k].peer
                    == peer_id,
    {
        let idx = match self.peers.find(peer_id) {
            Some(i) => i,
            None => {
                return Vec::new();
            }
        };
        proof {
            self.peers.lemma_index_unique(idx as int);
        }
        let p = self.peers.v[idx];
        let headers_only = match self.role {
            Role::Light => true,
            Role::Full => false,
        };
        let mut out: Vec<Action> = Vec::new();
        match p.state {
            PeerSyncState::Ranging { next, retries } => {
                proof {
                    assert(old(self).peer_ok(old(self).peers.v@[idx as int]));
                }
                if !Self::valid_ascending(&blocks, next) {
                    if retries > 0 {
                        self.peers.set_at(
                            idx,
                            PeerInfo {
                                id: p.id,
                                role: p.role,
                                best_hash: p.best_hash,
                                best_number: p.best_number,
                                common_number: p.common_number,
                                state: PeerSyncState::Ranging { next, retries: retries - 1 },
                            },
                        );
                        out.push(
                            Action {
                                peer: p.id,
                                request: Request::Ascending {
                                    start: next,
                                    count: MAX_RANGE_BLOCKS,
                                    headers_only,
                                },
                            },
                        );
                    } else {
                        self.peers.set_at(
                            idx,
                            PeerInfo {
                                id: p.id,
                                role: p.role,
                                best_hash: p.best_hash,
                                best_number: p.best_number,
                                common_number: p.common_number,
                                state: PeerSyncState::Incompatible,
                            },
                        );
                    }
                    proof {
                        assert forall|j: int|
                            0 <= j < self.peers.v@.len() implies self.peer_ok(
                            #[trigger] self.peers.v@[j],
                        ) by {
                            assert(old(self).peer_ok(old(self).peers.v@[j]));
                        }
                    }
                } else {
                    let first_hash = blocks[0].header.hash;
                    let last_num = blocks[blocks.len() - 1].header.number;
                    let resp_hashes = response_hashes(&blocks);
                    let ghost resp = blocks@;
                    self.buffer_response(peer_id, blocks);
                    let ghost mid = *self;
                    self.drain_buffer();
                    proof {
                        self.lemma_provenance_split(mid, old(self).buffer@, resp, peer_id);
                    }
                    self.retry_ready_justifications(&resp_hashes);
                    let local_best = self.chain.best_number();
                    if self.chain.contains(p.best_hash) {
                        let lift = if p.best_number <= local_best {
                            p.best_number
                        } else {
                            local_best
                        };
                        let c2 = if lift >= p.common_number {
                            lift
                        } else {
                            p.common_number
                        };
                        self.peers.set_at(
                            idx,
                            PeerInfo {
                                id: p.id,
                                role: p.role,
                                best_hash: p.best_hash,
                                best_number: p.best_number,
                                common_number: c2,
                                state: PeerSyncState::Available,
                            },
                        );
                    } else if !self.chain.contains(first_hash) {
                        // Nothing of the response attached: the assumed
                        // common number was wrong; search again.
                        if local_best > 0 {
                            let s = AncestorSearch::begin(local_best, p.best_number);
                            self.peers.set_at(
                                idx,
                                PeerInfo {
                                    id: p.id,
                                    role: p.role,
                                    best_hash: p.best_hash,
                                    best_number: p.best_number,
                                    common_number: p.common_number,
                                    state: PeerSyncState::Probing(s),
                                },
                            );
                            out.push(
                                Action { peer: p.id, request: Request::Probe { number: s.probe } },
                            );
                        } else {
                            self.peers.set_at(
                                idx,
                                PeerInfo {
                                    id: p.id,
                                    role: p.role,
                                    best_hash: p.best_hash,
                                    best_number: p.best_number,
                                    common_number: p.common_number,
                                    state: PeerSyncState::Incompatible,
                                },
                            );
                        }
                    } else if last_num >= p.best_number {
                        // The claimed best never appeared on the ascending
                        // walk: chase it by hash instead.
                        self.add_fork_peer(p.best_hash, p.best_number, p.id);
                        self.peers.set_at(
                            idx,
                            PeerInfo {
                                id: p.id,
                                role: p.role,
                                best_hash: p.best_hash,
                                best_number: p.best_number,
                                common_number: p.common_number,
                                state: PeerSyncState::Available,
                            },
                        );
                    } else {
                        let start = last_num + 1;
                        let count = if p.best_number - last_num < MAX_RANGE_BLOCKS {
                            p.best_number - last_num
                        } else {
                            MAX_RANGE_BLOCKS
                        };
                        self.peers.set_at(
                            idx,
                            PeerInfo {
                                id: p.id,
                                role: p.role,
                                best_hash: p.best_hash,
                                best_number: p.best_number,
                                common_number: p.common_number,
                                state: PeerSyncState::Ranging {
                                    next: start,
                                    retries: RANGE_RETRIES,
                                },
                            },
                        );
                        out.push(
                            Action {
                                peer: p.id,
                                request: Request::Ascending { start, count, headers_only },
                            },
                        );
                    }
                    proof {
                        assert forall|j: int|
                            0 <= j < self.peers.v@.len() implies self.peer_ok(
                            #[trigger] self.peers.v@[j],
                        ) by {
                            assert(mid.peer_ok(mid.peers.v@[j]));
                        }
                    }
                }
            }
            PeerSyncState::ForkFetch { hash, from } => {
                proof {
                    assert(old(self).peer_ok(old(self).peers.v@[idx as int]));
                }
                if !Self::valid_descending(&blocks, from) {
                    self.drop_fork_peer(hash, peer_id);
                    self.peers.set_at(
                        idx,
                        PeerInfo {
                            id: p.id,
                            role: p.role,
                            best_hash: p.best_hash,
                            best_number: p.best_number,
                            common_number: p.common_number,
                            state: PeerSyncState::Available,
                        },
                    );
                    proof {
                        assert forall|j: int|
                            0 <= j < self.peers.v@.len() implies self.peer_ok(
                            #[trigger] self.peers.v@[j],
                        ) by {
                            assert(old(self).peer_ok(old(self).peers.v@[j]));
                        }
                    }
                } else {
                    let last_parent = blocks[blocks.len() - 1].header.parent;
                    let last_num = blocks[blocks.len() - 1].header.number;
                    let resp_hashes = response_hashes(&blocks);
                    let ghost resp = blocks@;
                    self.buffer_response(peer_id, blocks);
                    let ghost mid = *self;
                    self.drain_buffer();
                    proof {
                        self.lemma_provenance_split(mid, old(self).buffer@, resp, peer_id);
                    }
                    self.retry_ready_justifications(&resp_hashes);
                    let target_held = self.chain.contains(hash);
                    let exhausted = last_num == 0 || self.chain.contains(last_parent);
                    if target_held {
                        self.peers.set_at(
                            idx,
                            PeerInfo {
                                id: p.id,
                                role: p.role,
                                best_hash: p.best_hash,
                                best_number: p.best_number,
                                common_number: p.common_number,
                                state: PeerSyncState::Available,
                            },
                        );
                    } else if exhausted {
                        self.drop_fork_peer(hash, peer_id);
                        self.peers.set_at(
                            idx,
                            PeerInfo {
                                id: p.id,
                                role: p.role,
                                best_hash: p.best_hash,
                                best_number: p.best_number,
                                common_number: p.common_number,
                                state: PeerSyncState::Available,
                            },
                        );
                    } else if self.fork_target_lists(hash, peer_id) {
                        self.peers.set_at(
                            idx,
                            PeerInfo {
                                id: p.id,
                                role: p.role,
                                best_hash: p.best_hash,
                                best_number: p.best_number,
                                common_number: p.common_number,
                                state: PeerSyncState::ForkFetch { hash, from: last_parent },
                            },
                        );
                        out.push(
                            Action {
                                peer: p.id,
                                request: Request::Descending {
                                    hash,
                                    from: last_parent,
                                    count: MAX_RANGE_BLOCKS,
                                    headers_only,
                                },
                            },
                        );
                    } else {
                        self.peers.set_at(
                            idx,
                            PeerInfo {
                                id: p.id,
                                role: p.role,
                                best_hash: p.best_hash,
                                best_number: p.best_number,
                                common_number: p.common_number,
                                state: PeerSyncState::Available,
                            },
                        );
                    }
                    proof {
                        assert forall|j: int|
                            0 <= j < self.peers.v@.len() implies self.peer_ok(
                            #[trigger] self.peers.v@[j],
                        ) by {
                            assert(mid.peer_ok(mid.peers.v@[j]));
                        }
                    }
                }
            }
            _ => {
                return Vec::new();
            }
        }
        proof {
            assert forall|k: int| 0 <= k < out@.len() implies self.action_wf(
                #[trigger] out@[k],
            ) && out@[k].peer == peer_id by {
                assert(old(self).peer_ok(old(self).peers.v@[idx as int]));
                assert(old(self).peers.v@[idx as int].role == Role::Full);
                assert(self.peers.v@[idx as int].id == peer_id);
                assert(self.peers.v@[idx as int].role == Role::Full);
            }
        }
        out
    }

    /// Blocks appended during a drain that followed buffering a response
    /// came from the earlier buffer or from that response.
    proof fn lemma_provenance_split(
        self,
        mid: SyncEngine,
        oldbuf: Seq<BufferedBlock>,
        resp: Seq<BlockData>,
        peer_id: u64,
    )
        requires
            mid.buffer@.len() == oldbuf.len() + resp.len(),
            mid.buffer@.subrange(0, oldbuf.len() as int) == oldbuf,
            forall|i: int|
                0 <= i < resp.len() ==> mid.buffer@[oldbuf.len() + i] == (BufferedBlock {
                    from_peer: peer_id,
                    data: #[trigger] resp[i],
                }),
            mid.chain.entries@.len() <= self.chain.entries@.len(),
            forall|i: int|
                mid.chain.entries@.len() <= i < self.chain.entries@.len() ==> spec_header_from(
                    mid.buffer@,
                    (#[trigger] self.chain.entries@[i]).header,
                ),
        ensures
            forall|i: int|
                mid.chain.entries@.len() <= i < self.chain.entries@.len() ==> (spec_header_from(
                    oldbuf,
                    (#[trigger] self.chain.entries@[i]).header,
                ) || spec_block_in(resp, self.chain.entries@[i].header)),
    {
        assert forall|i: int|
            mid.chain.entries@.len() <= i < self.chain.entries@.len() implies (spec_header_from(
            oldbuf,
            (#[trigger] self.chain.entries@[i]).header,
        ) || spec_block_in(resp, self.chain.entries@[i].header)) by {
            let h = self.chain.entries@[i].header;
            let k = choose|k: int| 0 <= k < mid.buffer@.len() && (#[trigger] mid.buffer@[k]).data.header == h;
            if k < oldbuf.len() {
                assert(oldbuf[k] == mid.buffer@[k]);
                assert((oldbuf[k]).data.header == h);
            } else {
                let j = k - oldbuf.len();
                assert(mid.buffer@[oldbuf.len() + j] == (BufferedBlock {
                    from_peer: peer_id,
                    data: resp[j],
                }));
                assert((resp[j]).header == h);
            }
        }
    }

    /// An unsolicited block announcement from a peer.  The announcer's
    /// recorded best is raised when it announces a higher best (never
    /// lowered).  The announced header is imported immediately exactly when
    /// its parent is already held — whether or not it was the announcer's
    /// best, which covers new-best and known-stale announcements alike.
    /// With an unknown parent the block is not imported directly: a new
    /// best beyond the local head is left to the ancestor-search/download
    /// path, and any other unknown block becomes a fork-download target
    /// served by the announcer through the same range machinery.
    pub fn on_block_announce(&mut self, peer_id: u64, header: Header, is_best: bool)
        requires
            old(self).wf(),
        ensures
            final(self).wf(),
            final(self).role == old(self).role,
            (old(self).peers.spec_has(peer_id) && !old(self).bad_blocks@.contains(header.hash)
                && !has_hash(old(self).chain.entries@, header.hash) && !has_hash(
                old(self).chain.entries@,
                header.parent,
            ) && header.number > 0 && !(is_best && header.number > old(self).chain.spec_best().number)) ==> exists|t: int|
                0 <= t < final(self).forks@.len() && (#[trigger] final(self).forks@[t]).hash
                    == header.hash && final(self).forks@[t].peer_ids@.contains(peer_id),
            final(self).buffer == old(self).buffer,
            final(self).bad_blocks == old(self).bad_blocks,
            final(self).just.v@.len() == old(self).just.v@.len(),
            forall|i: int|
                0 <= i < final(self).just.v@.len() ==> (#[trigger] final(self).just.v@[i]).hash
                    == old(self).just.v@[i].hash && final(self).just.v@[i].number == old(self).just.v@[i].number && final(self).just.v@[i].active == old(self).just.v@[i].active,
            final(self).chain.entries@ == old(self).chain.entries@ || final(self).chain.entries@
                == old(self).chain.entries@.push(
                (Entry { header, has_body: false, justification: None }),
            ),
            (final(self).chain.entries@ != old(self).chain.entries@) == (old(self).peers.spec_has(
                peer_id,
            ) && !old(self).bad_blocks@.contains(header.hash) && old(self).chain.spec_import_ok(
                header,
            )),
            final(self).peers.v@.len() == old(self).peers.v@.len(),
            forall|i: int|
                0 <= i < final(self).peers.v@.len() ==> {
                    let p = #[trigger] final(self).peers.v@[i];
                    let o = old(self).peers.v@[i];
                    &&& p.id == o.id
                    &&& p.role == o.role
                    &&& p.common_number == o.common_number
                    &&& p.state == o.state
                    &&& p.best_number >= o.best_number
                    &&& (o.id != peer_id ==> p == o)
                    &&& (o.id == peer_id ==> (if is_best && header.number > o.best_number {
                        p.best_hash == header.hash && p.best_number == header.number
                    } else {
                        p == o
                    }))
                },
    {
        let idx = match self.peers.find(peer_id) {
            Some(i) => i,
            None => {
                return ;
            }
        };
        proof {
            self.peers.lemma_index_unique(idx as int);
        }
        let p = self.peers.v[idx];
        if is_best && header.number > p.best_number {
            self.peers.set_at(
                idx,
                PeerInfo {
                    id: p.id,
                    role: p.role,
                    best_hash: header.hash,
                    best_number: header.number,
                    common_number: p.common_number,
                    state: p.state,
                },
            );
            proof {
                assert forall|j: int|
                    0 <= j < self.peers.v@.len() implies self.peer_ok(
                    #[trigger] self.peers.v@[j],
                ) by {
                    assert(old(self).peer_ok(old(self).peers.v@[j]));
                }
            }
        }
        if !ids_contains(&self.bad_blocks, header.hash) {
            let local_best = self.chain.best_number();
            let hash_known = self.chain.contains(header.hash);
            let parent_known = self.chain.contains(header.parent);
            let ghost pre = *self;
            let _outcome = self.chain.import(header, false, None);
            proof {
                match _outcome {
                    ImportOutcome::Imported { new_best } => {
                        if !new_best {
                            assert(self.chain.entries@[self.chain.best as int]
                                == pre.chain.entries@[pre.chain.best as int]);
                        }
                    }
                    _ => {}
                }
                assert(self.chain.spec_best().number >= pre.chain.spec_best().number);
                assert forall|j: int|
                    0 <= j < self.peers.v@.len() implies self.peer_ok(
                    #[trigger] self.peers.v@[j],
                ) by {
                    assert(pre.peer_ok(pre.peers.v@[j]));
                }
            }
            match _outcome {
                ImportOutcome::Imported { .. } => {
                    self.just.retry_for(header.hash);
                }
                _ => {}
            }
            if !hash_known && !parent_known && header.number > 0 && !(is_best && header.number
                > local_best) {
                let ghost pre2 = *self;
                self.add_fork_peer(header.hash, header.number, peer_id);
                proof {
                    assert forall|j: int|
                        0 <= j < self.peers.v@.len() implies self.peer_ok(
                        #[trigger] self.peers.v@[j],
                    ) by {
                        assert(pre2.peer_ok(pre2.peers.v@[j]));
                    }
                }
            }
        }
    }

    /// A response to an ancestor-search probe.  A well-formed response is
    /// one binary-search step: matched against the local canonical hash at
    /// the probe position it narrows the space or concludes; a missing or
    /// malformed response is retried a bounded number of times at the same
    /// position, after which the peer is abandoned for search.  On success
    /// the verified common number is recorded (clamped to the local best,
    /// never lowered) and the range download begins; a search space
    /// exhausted without any match marks the peer incompatible — a normal
    /// outcome, not an error.
    #[verifier::rlimit(80)]
    pub fn on_probe_response(&mut self, peer_id: u64, resp: Option<Header>) -> (r: Vec<Action>)
        requires
            old(self).wf(),
        ensures
            final(self).wf(),
            final(self).chain == old(self).chain,
            final(self).role == old(self).role,
            final(self).forks == old(self).forks,
            final(self).buffer == old(self).buffer,
            final(self).bad_blocks == old(self).bad_blocks,
            final(self).just == old(self).just,
            final(self).peers.v@.len() == old(self).peers.v@.len(),
            forall|i: int|
                0 <= i < final(self).peers.v@.len() ==> {
                    let p = #[trigger] final(self).peers.v@[i];
                    let o = old(self).peers.v@[i];
                    &&& p.id == o.id
                    &&& p.role == o.role
                    &&& p.best_hash == o.best_hash
                    &&& p.best_number == o.best_number
                    &&& p.common_number >= o.common_number
                    &&& (o.id != peer_id ==> p == o)
                    &&& (!(o.state is Probing) && o.id == peer_id ==> p == o)
                },
            r@.len() <= 1,
            forall|k: int|
                0 <= k < r@.len() ==> final(self).action_wf(#[trigger] r@[k]) && r@[k].peer
                    == peer_id,
            // The exact protocol step, for the addressed peer in search:
            forall|i: int|
                0 <= i < old(self).peers.v@.len() && (#[trigger] old(self).peers.v@[i]).id
                    == peer_id ==> {
                    let o = old(self).peers.v@[i];
                    let p = final(self).peers.v@[i];
                    o.state matches PeerSyncState::Probing(s) ==> {
                        let well_formed = resp matches Some(h) && h.number == s.probe;
                        &&& (!well_formed ==> (if s.retries > 0 {
                            p.state matches PeerSyncState::Probing(s2) && s2.lo == s.lo && s2.hi
                                == s.hi && s2.probe == s.probe && s2.best_match == s.best_match
                                && s2.retries == s.retries - 1 && r@.len() == 1 && r@[0]
                                == (Action {
                                peer: peer_id,
                                request: Request::Probe { number: s.probe },
                            })
                        } else {
                            p.state is Incompatible && r@.len() == 0
                        }))
                        &&& (well_formed ==> ({
                            let matched = old(self).chain.spec_canon_at(s.probe) == Some(
                                resp.unwrap().hash,
                            );
                            match s.spec_step(matched) {
                                SearchStep::Continue(s2) => p.state == PeerSyncState::Probing(s2)
                                    && p.common_number == o.common_number && r@.len() == 1
                                    && r@[0] == (Action {
                                    peer: peer_id,
                                    request: Request::Probe { number: s2.probe },
                                }),
                                SearchStep::Found { common } => {
                                    let clamped = if common <= final(self).chain.spec_best().number {
                                        common
                                    } else {
                                        final(self).chain.spec_best().number
                                    };
                                    let c2 = if clamped >= o.common_number {
                                        clamped
                                    } else {
                                        o.common_number
                                    };
                                    &&& p.common_number == c2
                                    &&& (has_hash(final(self).chain.entries@, o.best_hash) || c2
                                        >= o.best_number ==> p.state is Available && r@.len() == 0)
                                    &&& (!has_hash(final(self).chain.entries@, o.best_hash) && c2
                                        < o.best_number ==> p.state == (PeerSyncState::Ranging {
                                        next: (c2 + 1) as u64,
                                        retries: RANGE_RETRIES,
                                    }) && r@.len() == 1 && r@[0] == (Action {
                                        peer: peer_id,
                                        request: Request::Ascending {
                                            start: (c2 + 1) as u64,
                                            count: (if o.best_number - c2 < MAX_RANGE_BLOCKS {
                                                (o.best_number - c2) as u64
                                            } else {
                                                MAX_RANGE_BLOCKS
                                            }),
                                            headers_only: old(self).spec_headers_only(),
                                        },
                                    }))
                                },
                                SearchStep::NoCommon => p.state is Incompatible && r@.len() == 0,
                            }
                        }))
                    }
                },
    {
        let idx = match self.peers.find(peer_id) {
            Some(i) => i,
            None => {
                return Vec::new();
            }
        };
        proof {
            self.peers.lemma_index_unique(idx as int);
        }
        let p = self.peers.v[idx];
        let s = match p.state {
            PeerSyncState::Probing(s) => s,
            _ => {
                return Vec::new();
            }
        };
        let headers_only = match self.role {
            Role::Light => true,
            Role::Full => false,
        };
        let mut out: Vec<Action> = Vec::new();
        let well_formed = match resp {
            Some(h) => h.number == s.probe,
            None => false,
        };
        if !well_formed {
            if s.retries > 0 {
                let s2 = AncestorSearch {
                    lo: s.lo,
                    hi: s.hi,
                    probe: s.probe,
                    best_match: s.best_match,
                    retries: s.retries - 1,
                };
                self.peers.set_at(
                    idx,
                    PeerInfo {
                        id: p.id,
                        role: p.role,
                        best_hash: p.best_hash,
                        best_number: p.best_number,
                        common_number: p.common_number,
                        state: PeerSyncState::Probing(s2),
                    },
                );
                out.push(Action { peer: p.id, request: Request::Probe { number: s.probe } });
            } else {
                self.peers.set_at(
                    idx,
                    PeerInfo {
                        id: p.id,
                        role: p.role,
                        best_hash: p.best_hash,
                        best_number: p.best_number,
                        common_number: p.common_number,
                        state: PeerSyncState::Incompatible,
                    },
                );
            }
        } else {
            let h = match resp {
                Some(h) => h,
                None => {
                    proof {
                        assert(false);
                    }
                    return out;
                }
            };
            let matched = match self.chain.canon_hash_at(s.probe) {
                Some(c) => c == h.hash,
                None => false,
            };
            match s.step(matched) {
                SearchStep::Continue(s2) => {
                    self.peers.set_at(
                        idx,
                        PeerInfo {
                            id: p.id,
                            role: p.role,
                            best_hash: p.best_hash,
                            best_number: p.best_number,
                            common_number: p.common_number,
                            state: PeerSyncState::Probing(s2),
                        },
                    );
                    out.push(Action { peer: p.id, request: Request::Probe { number: s2.probe } });
                }
                SearchStep::Found { common } => {
                    let local_best = self.chain.best_number();
                    let clamped = if common <= local_best {
                        common
                    } else {
                        local_best
                    };
                    let c2 = if clamped >= p.common_number {
                        clamped
                    } else {
                        p.common_number
                    };
                    let done = self.chain.contains(p.best_hash) || c2 >= p.best_number;
                    if done {
                        self.peers.set_at(
                            idx,
                            PeerInfo {
                                id: p.id,
                                role: p.role,
                                best_hash: p.best_hash,
                                best_number: p.best_number,
                                common_number: c2,
                                state: PeerSyncState::Available,
                            },
                        );
                    } else {
                        let start = c2 + 1;
                        let count = if p.best_number - c2 < MAX_RANGE_BLOCKS {
                            p.best_number - c2
                        } else {
                            MAX_RANGE_BLOCKS
                        };
                        self.peers.set_at(
                            idx,
                            PeerInfo {
                                id: p.id,
                                role: p.role,
                                best_hash: p.best_hash,
                                best_number: p.best_number,
                                common_number: c2,
                                state: PeerSyncState::Ranging {
                                    next: start,
                                    retries: RANGE_RETRIES,
                                },
                            },
                        );
                        out.push(
                            Action {
                                peer: p.id,
                                request: Request::Ascending { start, count, headers_only },
                            },
                        );
                    }
                }
                SearchStep::NoCommon => {
                    self.peers.set_at(
                        idx,
                        PeerInfo {
                            id: p.id,
                            role: p.role,
                            best_hash: p.best_hash,
                            best_number: p.best_number,
                            common_number: p.common_number,
                            state: PeerSyncState::Incompatible,
                        },
                    );
                }
            }
        }
        proof {
            assert forall|j: int|
                0 <= j < self.peers.v@.len() implies self.peer_ok(#[trigger] self.peers.v@[j]) by {
                assert(old(self).peer_ok(old(self).peers.v@[j]));
            }
            assert forall|k: int| 0 <= k < out@.len() implies self.action_wf(
                #[trigger] out@[k],
            ) && out@[k].peer == peer_id by {
                assert(old(self).peer_ok(old(self).peers.v@[idx as int]));
                assert(old(self).peers.v@[idx as int].role == Role::Full);
                assert(self.peers.v@[idx as int].id == peer_id);
                assert(self.peers.v@[idx as int].role == Role::Full);
            }
        }
        out
    }

    /// Ask for an explicit block off the best-chain path: record the fork
    /// target and the peers to fetch it from.  A target already held in the
    /// store is ignored; the next ticks emit the descending requests.
    pub fn set_sync_fork_request(&mut self, peer_ids: Vec<u64>, hash: u64, number: u64)
        requires
            old(self).wf(),
        ensures
            final(self).wf(),
            final(self).chain == old(self).chain,
            final(self).peers == old(self).peers,
            final(self).just == old(self).just,
            final(self).role == old(self).role,
            has_hash(old(self).chain.entries@, hash) ==> *final(self) == *old(self),
            !has_hash(old(self).chain.entries@, hash) ==> forall|p: u64|
                #[trigger] peer_ids@.contains(p) ==> exists|t: int|
                    0 <= t < final(self).forks@.len() && (#[trigger] final(self).forks@[t]).hash
                        == hash && final(self).forks@[t].peer_ids@.contains(p),
    {
        if self.chain.contains(hash) {
            return ;
        }
        let mut i: usize = 0;
        while i < peer_ids.len()
            invariant
                old(self).wf(),
                self.chain == old(self).chain,
                self.peers == old(self).peers,
                self.just == old(self).just,
                self.buffer == old(self).buffer,
                self.bad_blocks == old(self).bad_blocks,
                self.role == old(self).role,
                i <= peer_ids@.len(),
                forall|a: int, b: int|
                    0 <= a < b < self.forks@.len() ==> (#[trigger] self.forks@[a]).hash != (
                    #[trigger] self.forks@[b]).hash,
                forall|j: int|
                    0 <= j < i ==> exists|t: int|
                        0 <= t < self.forks@.len() && (#[trigger] self.forks@[t]).hash == hash
                            && self.forks@[t].peer_ids@.contains(#[trigger] peer_ids@[j]),
            decreases peer_ids@.len() - i,
        {
            let pid = peer_ids[i];
            let ghost before = self.forks@;
            self.add_fork_peer(hash, number, pid);
            proof {
                assert forall|j: int|
                    0 <= j < i + 1 implies exists|t: int|
                    0 <= t < self.forks@.len() && (#[trigger] self.forks@[t]).hash == hash
                        && self.forks@[t].peer_ids@.contains(#[trigger] peer_ids@[j]) by {
                    if j < i {
                        let t0 = choose|t: int|
                            0 <= t < before.len() && (#[trigger] before[t]).hash == hash
                                && before[t].peer_ids@.contains(peer_ids@[j]);
                        assert(self.forks@[t0].hash == hash);
                        assert(self.forks@[t0].peer_ids@.contains(peer_ids@[j]));
                    } else {
                        assert(peer_ids@[j] == pid);
                    }
                }
            }
            i = i + 1;
        }
        proof {
            assert forall|p: u64| #[trigger] peer_ids@.contains(p) implies exists|t: int|
                0 <= t < self.forks@.len() && (#[trigger] self.forks@[t]).hash == hash
                    && self.forks@[t].peer_ids@.contains(p) by {
                let j = choose|j: int| 0 <= j < peer_ids@.len() && peer_ids@[j] == p;
                assert(peer_ids@[j] == p);
            }
        }
    }
}

impl SyncEngine {
    /// A response to a finality-proof request.  Only a proof from the peer
    /// the request is in flight to is considered; the first one that
    /// finalizes resolves and drops the request, and later or unsolicited
    /// responses for the same block are discarded.  A missing proof, an
    /// unknown block or a failed finalization put the request back to
    /// pending, with that peer marked as tried: the request is never
    /// silently dropped.  Requests for every other block — siblings at the
    /// same height included — are untouched.
    #[verifier::rlimit(100)]
    pub fn on_justification_response(
        &mut self,
        peer_id: u64,
        hash: u64,
        proof_bytes: Option<Vec<u8>>,
    )
        requires
            old(self).wf(),
        ensures
            final(self).wf(),
            final(self).role == old(self).role,
            final(self).forks == old(self).forks,
            final(self).buffer == old(self).buffer,
            final(self).bad_blocks == old(self).bad_blocks,
            final(self).chain.entries@.len() == old(self).chain.entries@.len(),
            forall|i: int|
                0 <= i < final(self).chain.entries@.len() ==> (#[trigger] final(self).chain.entries@[i]).header == old(self).chain.entries@[i].header,
            final(self).peers.v@.len() == old(self).peers.v@.len(),
            forall|i: int|
                0 <= i < final(self).peers.v@.len() ==> {
                    let p = #[trigger] final(self).peers.v@[i];
                    let o = old(self).peers.v@[i];
                    &&& p.id == o.id
                    &&& p.role == o.role
                    &&& p.best_hash == o.best_hash
                    &&& p.best_number == o.best_number
                    &&& p.common_number <= o.common_number
                    &&& (o.id != peer_id ==> p.state == o.state)
                    &&& (o.id == peer_id && o.state == (PeerSyncState::Justifying { hash })
                        ==> p.state is Available)
                },
            (exists|k: int|
                0 <= k < old(self).just.v@.len() && (#[trigger] old(self).just.v@[k]).hash == hash
                    && final(self).just.v@ == old(self).just.v@.remove(k)) || (final(self).just.v@.len() == old(self).just.v@.len() && forall|i: int|
                0 <= i < final(self).just.v@.len() ==> (#[trigger] final(self).just.v@[i]).hash
                    == old(self).just.v@[i].hash && final(self).just.v@[i].number == old(self).just.v@[i].number),
            final(self).just.v@.len() != old(self).just.v@.len() ==> proof_bytes is Some,
            // Exactness: only a proof from the peer the request is in flight
            // to counts; one that arrives for a held block is attached and
            // resolves the request, anything else defers it with that peer
            // marked as tried.
            ({
                let accepted = old(self).peers.spec_has(peer_id) && old(self).just.spec_has(hash)
                    && old(self).just.v@[old(self).just.spec_index_of(hash)].active == Some(
                    peer_id,
                );
                &&& (!accepted ==> final(self).just == old(self).just)
                &&& (accepted ==> (proof_bytes matches Some(bytes) ==> (has_hash(
                    old(self).chain.entries@,
                    hash,
                ) ==> (exists|k: int|
                    0 <= k < old(self).just.v@.len() && (#[trigger] old(self).just.v@[k]).hash
                        == hash && final(self).just.v@ == old(self).just.v@.remove(k)) && (
                entry_of(final(self).chain.entries@, hash).justification matches Some(v) && v@
                    == bytes@))))
                &&& (accepted && (proof_bytes is None || !has_hash(old(self).chain.entries@, hash))
                    ==> ({
                    let ji = old(self).just.spec_index_of(hash);
                    &&& final(self).just.v@.len() == old(self).just.v@.len()
                    &&& (forall|i: int|
                        0 <= i < final(self).just.v@.len() && i != ji ==> #[trigger] final(self).just.v@[i] == old(self).just.v@[i])
                    &&& final(self).just.v@[ji].hash == hash
                    &&& final(self).just.v@[ji].number == old(self).just.v@[ji].number
                    &&& final(self).just.v@[ji].active is None
                    &&& final(self).just.v@[ji].tried@ == old(self).just.v@[ji].tried@.push(
                        peer_id,
                    )
                }))
            }),
    {
        let idx = match self.peers.find(peer_id) {
            Some(i) => i,
            None => {
                proof {
                    assert forall|i: int|
                        0 <= i < self.just.v@.len() implies (#[trigger] self.just.v@[i]).hash
                        == old(self).just.v@[i].hash && self.just.v@[i].number == old(self).just.v@[i].number by {}
                }
                return ;
            }
        };
        proof {
            self.peers.lemma_index_unique(idx as int);
        }
        let p = self.peers.v[idx];
        let waiting = match p.state {
            PeerSyncState::Justifying { hash: h } => h == hash,
            _ => false,
        };
        if waiting {
            self.peers.set_at(
                idx,
                PeerInfo {
                    id: p.id,
                    role: p.role,
                    best_hash: p.best_hash,
                    best_number: p.best_number,
                    common_number: p.common_number,
                    state: PeerSyncState::Available,
                },
            );
            proof {
                assert forall|j: int|
                    0 <= j < self.peers.v@.len() implies self.peer_ok(
                    #[trigger] self.peers.v@[j],
                ) by {
                    assert(old(self).peer_ok(old(self).peers.v@[j]));
                }
            }
        }
        let accepted = self.just.is_active_for(peer_id, hash);
        if accepted {
            self.apply_justification(peer_id, hash, proof_bytes);
        }
    }

    /// Apply an accepted finality-proof response: finalize (or, for a
    /// sibling of a finalized block, only attach) a delivered proof of a
    /// held block and drop the request; defer the request and mark the
    /// peer tried when the proof is missing or the block unknown.
    fn apply_justification(&mut self, peer_id: u64, hash: u64, proof_bytes: Option<Vec<u8>>)
        requires
            old(self).wf(),
            old(self).just.spec_has(hash),
            old(self).just.v@[old(self).just.spec_index_of(hash)].active == Some(peer_id),
        ensures
            final(self).wf(),
            final(self).role == old(self).role,
            final(self).forks == old(self).forks,
            final(self).buffer == old(self).buffer,
            final(self).bad_blocks == old(self).bad_blocks,
            final(self).chain.entries@.len() == old(self).chain.entries@.len(),
            forall|i: int|
                0 <= i < final(self).chain.entries@.len() ==> (#[trigger] final(self).chain.entries@[i]).header == old(self).chain.entries@[i].header,
            final(self).peers.v@.len() == old(self).peers.v@.len(),
            forall|i: int|
                0 <= i < final(self).peers.v@.len() ==> {
                    let p = #[trigger] final(self).peers.v@[i];
                    let o = old(self).peers.v@[i];
                    &&& p.id == o.id
                    &&& p.role == o.role
                    &&& p.best_hash == o.best_hash
                    &&& p.best_number == o.best_number
                    &&& p.common_number <= o.common_number
                    &&& p.state == o.state
                },
            proof_bytes matches Some(bytes) ==> (has_hash(old(self).chain.entries@, hash) ==> (
            exists|k: int|
                0 <= k < old(self).just.v@.len() && (#[trigger] old(self).just.v@[k]).hash == hash
                    && final(self).just.v@ == old(self).just.v@.remove(k)) && (entry_of(
                final(self).chain.entries@,
                hash,
            ).justification matches Some(v) && v@ == bytes@)),
            (proof_bytes is None || !has_hash(old(self).chain.entries@, hash)) ==> ({
                let ji = old(self).just.spec_index_of(hash);
                &&& final(self).just.v@.len() == old(self).just.v@.len()
                &&& (forall|i: int|
                    0 <= i < final(self).just.v@.len() && i != ji ==> #[trigger] final(self).just.v@[i] == old(self).just.v@[i])
                &&& final(self).just.v@[ji].hash == hash
                &&& final(self).just.v@[ji].number == old(self).just.v@[ji].number
                &&& final(self).just.v@[ji].active is None
                &&& final(self).just.v@[ji].tried@ == old(self).just.v@[ji].tried@.push(peer_id)
            }),
            (exists|k: int|
                0 <= k < old(self).just.v@.len() && (#[trigger] old(self).just.v@[k]).hash == hash
                    && final(self).just.v@ == old(self).just.v@.remove(k)) || (final(self).just.v@.len() == old(self).just.v@.len() && forall|i: int|
                0 <= i < final(self).just.v@.len() ==> (#[trigger] final(self).just.v@[i]).hash
                    == old(self).just.v@[i].hash && final(self).just.v@[i].number == old(self).just.v@[i].number),
            final(self).just.v@.len() != old(self).just.v@.len() ==> proof_bytes is Some,
    {
        proof {
            old(self).just.lemma_index_unique(old(self).just.spec_index_of(hash));
        }
        let failed: bool = match proof_bytes {
            Some(bytes) => {
                if self.chain.contains(hash) {
                    let ghost bytes_view = bytes@;
                    let backup = crate::store::clone_bytes(&bytes);
                    let ghost ti = crate::store::hash_index(old(self).chain.entries@, hash);
                    match self.finalize_block(BlockId::Hash(hash), Some(bytes), true) {
                        Ok(_) => {
                            proof {
                                assert(0 <= ti < old(self).chain.entries@.len() && old(self).chain.entries@[ti].header.hash == hash);
                                assert(self.chain.entries@[ti].header == old(self).chain.entries@[ti].header);
                                crate::store::lemma_hash_index_unique(self.chain.entries@, ti);
                                assert(entry_of(self.chain.entries@, hash)
                                    == self.chain.entries@[ti]);
                                assert(self.chain.entries@[ti].justification matches Some(v)
                                    && v@ == bytes_view);
                            }
                            let took = self.just.resolve(peer_id, hash);
                            proof {
                                assert(took);
                            }
                            false
                        }
                        Err(_) => {
                            // The block conflicts with local finality (a
                            // sibling of a finalized block): hold its proof
                            // anyway, without moving the finalized or best
                            // pointers.
                            proof {
                                assert(self.chain.entries@[ti].header == old(self).chain.entries@[ti].header);
                                assert(has_hash(self.chain.entries@, hash));
                                crate::store::lemma_hash_index_unique(self.chain.entries@, ti);
                            }
                            let here = self.chain.set_justification(hash, backup);
                            proof {
                                assert(here);
                                crate::store::lemma_hash_index_unique(self.chain.entries@, ti);
                                assert(entry_of(self.chain.entries@, hash)
                                    == self.chain.entries@[ti]);
                            }
                            let took = self.just.resolve(peer_id, hash);
                            proof {
                                assert(took);
                            }
                            false
                        }
                    }
                } else {
                    true
                }
            }
            None => true,
        };
        if failed {
            self.just.mark_failed(peer_id, hash);
            proof {
                let ji = old(self).just.spec_index_of(hash);
                assert(self.just.v@[ji].hash == hash);
            }
        }
    }
}

impl SyncEngine {
    /// The external validity check found the block bad: blacklist its hash
    /// permanently, so it is never re-requested from any peer.
    pub fn mark_bad(&mut self, hash: u64)
        requires
            old(self).wf(),
        ensures
            final(self).wf(),
            final(self).bad_blocks@ == old(self).bad_blocks@.push(hash),
            final(self).chain == old(self).chain,
            final(self).peers == old(self).peers,
            final(self).just == old(self).just,
            final(self).forks == old(self).forks,
            final(self).buffer == old(self).buffer,
            final(self).role == old(self).role,
    {
        self.bad_blocks.push(hash);
    }
}

/// Law: a completed download leaves no holes.  When a peer's best block is
/// held — how every download ends — the store holds a parent-linked header
/// chain under it: for every number `k` at or below it, in particular all
/// of `(common, best]`, the walk from the best block reaches a held block
/// whose number is exactly `k`.
pub proof fn lemma_download_complete_range(e: SyncEngine, best_hash: u64, k: u64)
    requires
        e.wf(),
        has_hash(e.chain.entries@, best_hash),
        k <= crate::store::number_of(e.chain.entries@, best_hash),
    ensures
        crate::store::walk_back(
            e.chain.entries@,
            best_hash,
            (crate::store::number_of(e.chain.entries@, best_hash) - k) as nat,
        ) is Some,
        has_hash(
            e.chain.entries@,
            crate::store::walk_back(
                e.chain.entries@,
                best_hash,
                (crate::store::number_of(e.chain.entries@, best_hash) - k) as nat,
            ).unwrap(),
        ),
        crate::store::number_of(
            e.chain.entries@,
            crate::store::walk_back(
                e.chain.entries@,
                best_hash,
                (crate::store::number_of(e.chain.entries@, best_hash) - k) as nat,
            ).unwrap(),
        ) == k,
{
    crate::store::lemma_ancestry_complete(e.chain.entries@, best_hash, k);
}

/// The hashes of the blocks in a response.
fn response_hashes(blocks: &Vec<BlockData>) -> (r: Vec<u64>)
    ensures
        r@.len() == blocks@.len(),
{
    let mut r: Vec<u64> = Vec::new();
    let mut i: usize = 0;
    while i < blocks.len()
        invariant
            i <= blocks@.len(),
            r@.len() == i as int,
        decreases blocks@.len() - i,
    {
        r.push(blocks[i].header.hash);
        i = i + 1;
    }
    r
}

/// Whether a list of handles or hashes contains `x`.
pub fn ids_contains(v: &Vec<u64>, x: u64) -> (r: bool)
    ensures
        r == v@.contains(x),
{
    let mut i: usize = 0;
    while i < v.len()
        invariant
            i <= v@.len(),
            forall|j: int| 0 <= j < i ==> v@[j] != x,
        decreases v@.len() - i,
    {
        if v[i] == x {
            return true;
        }
        i = i + 1;
    }
    assert(!v@.contains(x));
    false
}

} // verus!
