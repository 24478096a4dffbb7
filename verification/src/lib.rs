//! Chain-synchronization engine for a blockchain node.
//!
//! The engine keeps a set of peer-connected nodes converging on a common best
//! chain despite forks, partial connectivity, light (header-only) peers and
//! out-of-band finality-proof requests.  It is driven by discrete events
//! (connect, disconnect, response, announcement) and a non-blocking tick that
//! emits at most one outbound request per peer; all network I/O stays outside.
//!
//! Modules, leaf to root:
//! - [`types`]: block identifiers, headers, requests and status values.
//! - [`store`]: the in-memory chain store with parent-linked headers,
//!   longest-chain selection and finalization.
//! - [`ancestor`]: the binary common-ancestor search state machine.
//! - [`justify`]: tracking of pending finality-proof requests, keyed by hash.
//! - [`peers`]: the per-peer bookkeeping table.
//! - [`engine`]: the composed synchronization engine.

pub mod ancestor;
pub mod engine;
pub mod justify;
pub mod peers;
pub mod store;
pub mod types;
