//! Plain data carried between the engine, the chain store and the transport.

use vstd::prelude::*;

verus! {

/// Role a peer declared at handshake.  Light peers store and serve headers
/// only and are never selected as a download source.
#[derive(Clone, Copy, Debug, PartialEq, Eq, Structural)]
pub enum Role {
    Full,
    Light,
}

/// Block metadata.  A block is identified by `hash`; `parent` is the hash of
/// the block at `number - 1` that it extends.
#[derive(Clone, Copy, Debug, PartialEq, Eq, Structural)]
pub struct Header {
    pub hash: u64,
    pub parent: u64,
    pub number: u64,
}

/// A block as carried in a download response: its header, whether the body
/// came along (light downloads carry headers only), and an optional
/// finality-proof payload.
#[derive(Debug, PartialEq, Eq)]
pub struct BlockData {
    pub header: Header,
    pub has_body: bool,
    pub justification: Option<Vec<u8>>,
}

/// A block reference: either a hash or a number on the canonical chain.
#[derive(Clone, Copy, Debug, PartialEq, Eq, Structural)]
pub enum BlockId {
    Hash(u64),
    Number(u64),
}

/// Outcome of handing one block to the chain store.
#[derive(Clone, Copy, Debug, PartialEq, Eq, Structural)]
pub enum ImportOutcome {
    /// Appended; `new_best` tells whether it became the best block.
    Imported { new_best: bool },
    /// The hash is already present; the store is unchanged.
    AlreadyInChain,
    /// The parent hash is not present; the block cannot be linked yet.
    UnknownParent,
    /// Malformed: number 0, or a number that does not follow its parent's.
    Rejected,
}

/// Global, derived synchronization status; recomputed on demand, never stored.
#[derive(Clone, Copy, Debug, PartialEq, Eq, Structural)]
pub enum SyncStatus {
    Offline,
    MajorSyncing,
    Idle,
}

/// Errors surfaced by the engine and the store.  None of them is fatal.
#[derive(Clone, Copy, Debug, PartialEq, Eq, Structural)]
pub enum SyncError {
    /// The referenced block is not in the store.
    UnknownBlock,
    /// The operation would contradict an already finalized block.
    FinalityViolation,
    /// A peer with this handle is already connected.
    DuplicatePeer,
    /// No peer with this handle is connected.
    UnknownPeer,
}

/// A typed outbound message to one peer.
#[derive(Debug, PartialEq, Eq)]
pub enum Request {
    /// Ask for the peer's canonical header at `number` (ancestor search).
    Probe { number: u64 },
    /// Ask for canonical blocks `start`, `start + 1`, ... (at most `count`).
    Ascending { start: u64, count: u64, headers_only: bool },
    /// Ask for the block `from` and its ancestors (at most `count`),
    /// walking parent links: fetches the fork target `hash`, which may sit
    /// off the canonical path; `from` starts at `hash` and moves down the
    /// fork as responses arrive.
    Descending { hash: u64, from: u64, count: u64, headers_only: bool },
    /// Ask for the finality proof of block `hash` (said to sit at `number`).
    Justification { hash: u64, number: u64 },
    /// Tell the peer about a block we hold.
    Announce { header: Header, is_best: bool },
}

/// An outbound request addressed to one peer.
#[derive(Debug, PartialEq, Eq)]
pub struct Action {
    pub peer: u64,
    pub request: Request,
}

} // verus!
