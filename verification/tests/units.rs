//! Unit tests against single engines and stores, without a simulated
//! network: exact import classification, longest-chain and finalization
//! rules, range reads, ancestor-search behaviour and justification
//! bookkeeping.

use chainsync::ancestor::AncestorSearch;
use chainsync::ancestor::SearchStep;
use chainsync::engine::SyncEngine;
use chainsync::store::ChainStore;
use chainsync::types::Action;
use chainsync::types::BlockId;
use chainsync::types::Header;
use chainsync::types::ImportOutcome;
use chainsync::types::Request;
use chainsync::types::Role;
use chainsync::types::SyncError;
use chainsync::types::SyncStatus;

const G: u64 = 7;

fn h(hash: u64, parent: u64, number: u64) -> Header {
    Header { hash, parent, number }
}

fn linear_store(n: u64) -> ChainStore {
    let mut s = ChainStore::new(G);
    let mut parent = G;
    for k in 1..=n {
        let hash = 1000 + k;
        let r = s.import(h(hash, parent, k), true, None);
        assert_eq!(r, ImportOutcome::Imported { new_best: true });
        parent = hash;
    }
    s
}

#[test]
fn import_classifies_blocks_exactly() {
    let mut s = ChainStore::new(G);
    assert_eq!(s.import(h(11, G, 1), true, None), ImportOutcome::Imported { new_best: true });
    assert_eq!(s.import(h(11, G, 1), true, None), ImportOutcome::AlreadyInChain);
    assert_eq!(s.import(h(12, 99, 2), true, None), ImportOutcome::UnknownParent);
    assert_eq!(s.import(h(13, G, 0), true, None), ImportOutcome::Rejected);
    assert_eq!(s.import(h(14, G, 5), true, None), ImportOutcome::Rejected);
    assert_eq!(s.blocks_count(), 2);
}

#[test]
fn longest_chain_rule_with_tie_keeps_current_best() {
    let mut s = ChainStore::new(G);
    assert_eq!(s.import(h(21, G, 1), true, None), ImportOutcome::Imported { new_best: true });
    assert_eq!(s.import(h(22, 21, 2), true, None), ImportOutcome::Imported { new_best: true });
    // A sibling branch of equal length never takes over...
    assert_eq!(s.import(h(31, G, 1), true, None), ImportOutcome::Imported { new_best: false });
    assert_eq!(s.import(h(32, 31, 2), true, None), ImportOutcome::Imported { new_best: false });
    assert_eq!(s.best_hash(), 22);
    // ...until it is strictly longer.
    assert_eq!(s.import(h(33, 32, 3), true, None), ImportOutcome::Imported { new_best: true });
    assert_eq!(s.best_hash(), 33);
    assert_eq!(s.canon_hash_at(1), Some(31));
    assert_eq!(s.canon_hash_at(2), Some(32));
    assert_eq!(s.canon_hash_at(4), None);
}

#[test]
fn finalize_attaches_retracts_and_refuses() {
    let mut s = linear_store(3);
    // Unknown block.
    assert_eq!(
        s.finalize(BlockId::Hash(555), Some(vec![1]), true),
        Err(SyncError::UnknownBlock)
    );
    // Finalize #2 with a justification.
    assert_eq!(s.finalize(BlockId::Number(2), Some(vec![9]), true), Ok(()));
    assert_eq!(s.justification(BlockId::Number(2)), Some(vec![9]));
    assert_eq!(s.justification(BlockId::Number(1)), None);
    // An ancestor of the finalized block only records its justification.
    assert_eq!(s.finalize(BlockId::Number(1), Some(vec![8]), true), Ok(()));
    assert_eq!(s.justification(BlockId::Number(1)), Some(vec![8]));
    assert_eq!(s.best_number(), 3);
    // A sibling below the finalized block is refused.
    assert_eq!(s.import(h(41, G, 1), true, None), ImportOutcome::Imported { new_best: false });
    assert_eq!(
        s.finalize(BlockId::Hash(41), Some(vec![7]), true),
        Err(SyncError::FinalityViolation)
    );
}

#[test]
fn finalizing_a_side_branch_retracts_the_best_pointer() {
    let mut s = linear_store(3);
    assert_eq!(s.import(h(41, G, 1), true, None), ImportOutcome::Imported { new_best: false });
    assert_eq!(s.finalize(BlockId::Hash(41), Some(Vec::new()), true), Ok(()));
    assert_eq!(s.best_hash(), 41);
    assert_eq!(s.best_number(), 1);
    // Blocks that do not descend from the finalized block never become best.
    assert_eq!(s.import(h(1004, 1003, 4), true, None), ImportOutcome::Imported { new_best: false });
    assert_eq!(s.best_hash(), 41);
}

#[test]
fn read_ascending_returns_the_canonical_window() {
    let s = linear_store(5);
    let r = s.read_ascending(2, 3, false);
    assert_eq!(r.len(), 3);
    assert_eq!(r[0].header, h(1002, 1001, 2));
    assert_eq!(r[1].header, h(1003, 1002, 3));
    assert_eq!(r[2].header, h(1004, 1003, 4));
    assert!(r.iter().all(|b| b.has_body));
    // Clamped at the best block.
    let r = s.read_ascending(4, 10, true);
    assert_eq!(r.len(), 2);
    assert!(r.iter().all(|b| !b.has_body));
    // Beyond the best: nothing.
    assert_eq!(s.read_ascending(6, 10, false).len(), 0);
}

#[test]
fn read_descending_walks_parents_to_genesis() {
    let s = linear_store(3);
    let r = s.read_descending(1003, 10, false);
    assert_eq!(r.len(), 4);
    assert_eq!(r[0].header.hash, 1003);
    assert_eq!(r[1].header.hash, 1002);
    assert_eq!(r[2].header.hash, 1001);
    assert_eq!(r[3].header.hash, G);
    assert_eq!(r[3].header.number, 0);
    // An unknown start yields nothing.
    assert_eq!(s.read_descending(404, 10, false).len(), 0);
    // The count caps the walk.
    assert_eq!(s.read_descending(1003, 2, false).len(), 2);
}

fn probe_number(acts: &[Action]) -> Option<u64> {
    match acts {
        [Action { request: Request::Probe { number }, .. }] => Some(*number),
        _ => None,
    }
}

#[test]
fn ancestor_search_concludes_at_the_fork_point_within_log_probes() {
    // Local chain: 120 blocks; the peer shares the first 20 and claims 140.
    let mut e = SyncEngine::new(Role::Full, G);
    let mut parent = G;
    for k in 1..=120u64 {
        let hash = 2000 + k;
        let (o, _) = e.import_own_block(h(hash, parent, k), true);
        assert!(matches!(o, ImportOutcome::Imported { .. }));
        parent = hash;
    }
    let acts = e.new_peer(5, Role::Full, 9999, 140).unwrap();
    let mut probe = probe_number(&acts).expect("search starts with a probe");
    assert_eq!(probe, 120);
    let mut probes: u64 = 1;
    loop {
        // The peer's chain: identical to ours up to 20, divergent above.
        let reply = if probe <= 20 {
            e.chain.header(BlockId::Number(probe)).unwrap()
        } else {
            h(90_000 + probe, 90_000 + probe - 1, probe)
        };
        let acts = e.on_probe_response(5, Some(reply));
        match probe_number(&acts) {
            Some(next) => {
                assert!(next <= 120);
                probe = next;
                probes += 1;
                assert!(probes <= 15, "ancestor search must finish in O(log distance) probes");
            }
            None => break,
        }
    }
    assert_eq!(e.peer_common_number(5), Some(20));
}

#[test]
fn ancestor_search_direct_run_is_logarithmic_and_exact() {
    // Pure state-machine run: highest common block is 1000, chains reach
    // 4000 and 5000.
    let mut state = AncestorSearch::begin(4000, 5000);
    let mut probes: u64 = 0;
    let common: u64 = 1000;
    loop {
        probes += 1;
        assert!(probes <= 15);
        assert!(state.probe <= 4000);
        match state.step(state.probe <= common) {
            SearchStep::Continue(next) => state = next,
            SearchStep::Found { common: c } => {
                assert_eq!(c, common);
                break;
            }
            SearchStep::NoCommon => panic!("a common block exists"),
        }
    }
}

#[test]
fn ancestor_search_no_common_within_depth() {
    // Nothing matches at all: the search reports an incompatible chain.
    let mut state = AncestorSearch::begin(100, 100);
    let mut probes: u64 = 0;
    loop {
        probes += 1;
        assert!(probes <= 15);
        match state.step(false) {
            SearchStep::Continue(next) => state = next,
            SearchStep::Found { .. } => panic!("nothing is common"),
            SearchStep::NoCommon => break,
        }
    }
}

#[test]
fn status_derivation_offline_major_idle() {
    let mut e = SyncEngine::new(Role::Full, G);
    assert_eq!(e.status(), SyncStatus::Offline);
    assert!(e.is_offline());
    // A peer far ahead puts the node in major sync while downloading.
    let acts = e.new_peer(1, Role::Full, 888, 100).unwrap();
    assert_eq!(acts.len(), 1);
    assert_eq!(e.status(), SyncStatus::MajorSyncing);
    assert!(e.is_major_syncing());
    let _ = e.peer_disconnected(1);
    assert_eq!(e.status(), SyncStatus::Offline);
    // A peer barely ahead does not.
    let _ = e.new_peer(2, Role::Full, 889, 3).unwrap();
    assert_eq!(e.status(), SyncStatus::Idle);
}

#[test]
fn duplicate_and_unknown_peers_are_refused() {
    let mut e = SyncEngine::new(Role::Full, G);
    assert!(e.new_peer(1, Role::Full, G, 0).is_ok());
    assert_eq!(e.new_peer(1, Role::Full, G, 0), Err(SyncError::DuplicatePeer));
    assert_eq!(e.peer_disconnected(9), Err(SyncError::UnknownPeer));
    assert!(e.peer_disconnected(1).is_ok());
}

#[test]
fn announce_raises_best_only_upward() {
    let mut e = SyncEngine::new(Role::Full, G);
    let _ = e.new_peer(1, Role::Full, 333, 10).unwrap();
    assert_eq!(e.peer_best_number(1), Some(10));
    // A lower "best" announcement never lowers the record.
    e.on_block_announce(1, h(50, 49, 5), true);
    assert_eq!(e.peer_best_number(1), Some(10));
    // A higher one raises it.
    e.on_block_announce(1, h(60, 59, 12), true);
    assert_eq!(e.peer_best_number(1), Some(12));
}

#[test]
fn announce_with_known_parent_imports_immediately() {
    let mut e = SyncEngine::new(Role::Full, G);
    let _ = e.new_peer(1, Role::Full, G, 0).unwrap();
    e.on_block_announce(1, h(11, G, 1), false);
    assert!(e.chain.header(BlockId::Hash(11)).is_some());
    // An unknown parent is not imported directly.
    e.on_block_announce(1, h(33, 32, 3), false);
    assert!(e.chain.header(BlockId::Hash(33)).is_none());
}

#[test]
fn bad_blocks_are_never_requested_again() {
    let mut e = SyncEngine::new(Role::Full, G);
    e.mark_bad(666);
    let acts = e.new_peer(1, Role::Full, 666, 50).unwrap();
    // The handshake may probe nothing for a blacklisted best, and no tick
    // ever asks for it.
    let _ = acts;
    let acts = e.tick();
    assert!(acts.is_empty());
    // An announcement of the bad block is ignored.
    e.on_block_announce(1, h(666, G, 1), true);
    assert!(e.chain.header(BlockId::Hash(666)).is_none());
}

#[test]
fn finalize_retraction_clamps_common_numbers() {
    let mut e = SyncEngine::new(Role::Full, G);
    let mut parent = G;
    for k in 1..=4u64 {
        let hash = 3000 + k;
        let _ = e.import_own_block(h(hash, parent, k), true);
        parent = hash;
    }
    // The peer sits exactly at our best: common becomes 4.
    let _ = e.new_peer(1, Role::Full, 3004, 4).unwrap();
    assert_eq!(e.peer_common_number(1), Some(4));
    // Finalizing a side branch retracts the local best to 1; the recorded
    // common number follows it down.
    let (o, _) = e.import_own_block(h(77, G, 1), true);
    assert_eq!(o, ImportOutcome::Imported { new_best: false });
    assert_eq!(e.finalize_block(BlockId::Hash(77), Some(Vec::new()), false), Ok(()));
    assert_eq!(e.chain.best_number(), 1);
    assert_eq!(e.peer_common_number(1), Some(1));
}

#[test]
fn sibling_justification_requests_resolve_independently() {
    let mut e = SyncEngine::new(Role::Full, G);
    // Two siblings at height 1.
    let (o1, _) = e.import_own_block(h(81, G, 1), true);
    let (o2, _) = e.import_own_block(h(82, G, 1), true);
    assert_eq!(o1, ImportOutcome::Imported { new_best: true });
    assert_eq!(o2, ImportOutcome::Imported { new_best: false });
    let _ = e.new_peer(1, Role::Full, 81, 1).unwrap();
    e.request_justification(81, 1);
    e.request_justification(82, 1);
    assert_eq!(e.just.v.len(), 2);
    // The tick fans one request out to the free peer.
    let acts = e.tick();
    assert_eq!(acts.len(), 1);
    let hash = match &acts[0].request {
        Request::Justification { hash, number } => {
            assert_eq!(*number, 1);
            *hash
        }
        other => panic!("expected a justification request, got {:?}", other),
    };
    assert_eq!(hash, 81);
    // Resolving the first sibling leaves the second tracked and intact.
    e.on_justification_response(1, 81, Some(vec![5]));
    assert_eq!(e.just.v.len(), 1);
    assert_eq!(e.just.v[0].hash, 82);
    assert_eq!(e.just.v[0].number, 1);
    assert_eq!(e.chain.justification(BlockId::Hash(81)), Some(vec![5]));
    assert_eq!(e.chain.justification(BlockId::Hash(82)), None);
    // A later response for the resolved block is discarded.
    e.on_justification_response(1, 81, Some(vec![6]));
    assert_eq!(e.chain.justification(BlockId::Hash(81)), Some(vec![5]));
    // Resolving the second gives each sibling its own proof.
    let acts = e.tick();
    assert_eq!(acts.len(), 1);
    e.on_justification_response(1, 82, Some(vec![9]));
    assert_eq!(e.just.v.len(), 0);
    assert_eq!(e.chain.justification(BlockId::Hash(81)), Some(vec![5]));
    assert_eq!(e.chain.justification(BlockId::Hash(82)), Some(vec![9]));
}

#[test]
fn failed_justification_requests_stay_pending() {
    let mut e = SyncEngine::new(Role::Full, G);
    let (_, _) = e.import_own_block(h(91, G, 1), true);
    let _ = e.new_peer(1, Role::Full, 91, 1).unwrap();
    e.request_justification(91, 1);
    let acts = e.tick();
    assert_eq!(acts.len(), 1);
    // The peer has no proof: the request stays tracked, the peer marked.
    e.on_justification_response(1, 91, None);
    assert_eq!(e.just.v.len(), 1);
    // No re-ask of the same peer while nothing changed.
    assert!(e.tick().is_empty());
    // A change of the peer set makes it retriable.
    let _ = e.new_peer(2, Role::Full, 91, 1).unwrap();
    let acts = e.tick();
    assert_eq!(acts.len(), 1);
    assert!(matches!(acts[0].request, Request::Justification { hash: 91, .. }));
}

#[test]
fn light_peers_never_receive_download_requests() {
    let mut e = SyncEngine::new(Role::Full, G);
    // A light peer claiming many blocks ahead is never asked to serve them.
    let acts = e.new_peer(1, Role::Light, 444, 100).unwrap();
    assert!(acts.is_empty());
    assert!(e.tick().is_empty());
    // A full peer with the same claim is probed or ranged at once.
    let acts = e.new_peer(2, Role::Full, 445, 100).unwrap();
    assert_eq!(acts.len(), 1);
    assert!(matches!(acts[0].request, Request::Ascending { .. }));
    assert_eq!(acts[0].peer, 2);
}

#[test]
fn fork_request_emits_descending_request_to_listed_peer() {
    let mut e = SyncEngine::new(Role::Full, G);
    let _ = e.new_peer(1, Role::Full, G, 0).unwrap();
    let _ = e.new_peer(2, Role::Full, G, 0).unwrap();
    e.set_sync_fork_request(vec![2], 777, 3);
    let acts = e.tick();
    assert_eq!(acts.len(), 1);
    assert_eq!(acts[0].peer, 2);
    assert!(matches!(
        acts[0].request,
        Request::Descending { hash: 777, from: 777, .. }
    ));
    // A target already held asks for nothing.
    let mut e2 = SyncEngine::new(Role::Full, G);
    let _ = e2.new_peer(1, Role::Full, G, 0).unwrap();
    e2.set_sync_fork_request(vec![1], G, 0);
    assert!(e2.tick().is_empty());
}

#[test]
fn completed_download_leaves_parent_linked_range() {
    // One engine downloads 30 blocks from a simulated source store, then
    // the whole range (common, best] is present and parent-linked.
    let src = {
        let mut s = linear_store(30);
        let _ = s;
        linear_store(30)
    };
    let mut e = SyncEngine::new(Role::Full, G);
    let mut acts = e.new_peer(1, Role::Full, src.best_hash(), src.best_number()).unwrap();
    let mut steps = 0;
    while let Some(a) = acts.pop() {
        steps += 1;
        assert!(steps < 100);
        let replies = match a.request {
            Request::Probe { number } => {
                let r = src.header(BlockId::Number(number));
                e.on_probe_response(1, r)
            }
            Request::Ascending { start, count, headers_only } => {
                let blocks = src.read_ascending(start, count, headers_only);
                e.on_range_response(1, blocks)
            }
            Request::Descending { from, count, headers_only, .. } => {
                let blocks = src.read_descending(from, count, headers_only);
                e.on_range_response(1, blocks)
            }
            _ => Vec::new(),
        };
        acts.extend(replies);
        if acts.is_empty() {
            acts = e.tick();
            if acts.is_empty() {
                break;
            }
        }
    }
    assert_eq!(e.chain.best_number(), 30);
    assert_eq!(e.peer_common_number(1), Some(30));
    // Parent-linked all the way down.
    let mut cur = e.chain.header(BlockId::Hash(e.chain.best_hash())).unwrap();
    while cur.number > 0 {
        let parent = e.chain.header(BlockId::Hash(cur.parent)).unwrap();
        assert_eq!(parent.number + 1, cur.number);
        cur = parent;
    }
}
