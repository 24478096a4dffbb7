//! A deterministic in-process network of sync engines: events are routed by
//! hand, responses are computed from each node's own chain store, and a poll
//! processes a bounded number of messages so intermediate states (major
//! syncing, partial downloads) stay observable.

use chainsync::engine::SyncEngine;
use chainsync::types::Action;
use chainsync::types::BlockId;
use chainsync::types::Header;
use chainsync::types::Request;
use chainsync::types::Role;
use chainsync::types::SyncError;

const GENESIS_HASH: u64 = 7;
const MAX_POLLS: usize = 50_000;
const MSGS_PER_POLL: usize = 1;

fn mix(v: u64) -> u64 {
    let mut x = v.wrapping_add(0x9e3779b97f4a7c15);
    x = (x ^ (x >> 30)).wrapping_mul(0xbf58476d1ce4e5b9);
    x = (x ^ (x >> 27)).wrapping_mul(0x94d049bb133111eb);
    x ^ (x >> 31)
}

fn block_hash(parent: u64, number: u64, salt: u64) -> u64 {
    mix(parent ^ mix(number) ^ mix(salt))
}

#[allow(non_camel_case_types)]
#[derive(Clone, Copy, PartialEq, Eq, Debug)]
enum Roles {
    FULL,
    LIGHT,
}

#[derive(Clone)]
struct ProtocolConfig {
    roles: Roles,
}

impl Default for ProtocolConfig {
    fn default() -> Self {
        ProtocolConfig { roles: Roles::FULL }
    }
}

#[allow(dead_code)]
#[derive(Clone, Copy)]
enum BlockOrigin {
    Own,
    File,
}

struct Peer {
    id: u64,
    engine: SyncEngine,
    outbox: Vec<Action>,
    fork_counter: u64,
    plain_pushes: Vec<(u64, u64)>,
}

impl Peer {
    fn new(id: u64, role: Role) -> Peer {
        Peer {
            id,
            engine: SyncEngine::new(role, GENESIS_HASH),
            outbox: Vec::new(),
            fork_counter: 0,
            plain_pushes: Vec::new(),
        }
    }

    fn id(&self) -> u64 {
        self.id
    }

    fn num_peers(&self) -> usize {
        self.engine.num_peers()
    }

    fn is_offline(&self) -> bool {
        self.engine.is_offline()
    }

    fn is_major_syncing(&self) -> bool {
        self.engine.is_major_syncing()
    }

    fn blocks_count(&self) -> usize {
        self.engine.chain.blocks_count()
    }

    fn push_blocks(&mut self, n: usize, fork: bool) -> u64 {
        let best = self.engine.chain.best_hash();
        self.push_blocks_at(BlockId::Hash(best), n, fork)
    }

    fn push_blocks_at(&mut self, at: BlockId, n: usize, fork: bool) -> u64 {
        let base = self.engine.chain.header(at).expect("push base must exist");
        // A forked push gets a salt of its own, so it diverges from anything
        // else.  A plain push is deterministic: the first one from a given
        // parent builds the same blocks on every peer, and only a repeated
        // plain push from the same parent diverges (a deliberate sibling).
        let salt = if fork {
            self.fork_counter += 1;
            mix(self.id.wrapping_mul(1_000_003).wrapping_add(self.fork_counter))
        } else {
            let count = match self.plain_pushes.iter_mut().find(|e| e.0 == base.hash) {
                Some(e) => {
                    e.1 += 1;
                    e.1
                }
                None => {
                    self.plain_pushes.push((base.hash, 0));
                    0
                }
            };
            if count == 0 {
                0
            } else {
                mix(base.hash.wrapping_add(count.wrapping_mul(0x5851f42d4c957f2d)))
            }
        };
        let mut parent = base.hash;
        let mut number = base.number;
        let mut last = parent;
        for _ in 0..n {
            number += 1;
            let h = block_hash(parent, number, salt);
            let (_outcome, acts) = self.engine.import_own_block(
                Header { hash: h, parent, number },
                true,
            );
            self.outbox.extend(acts);
            parent = h;
            last = h;
        }
        last
    }

    fn generate_blocks(&mut self, count: usize, _origin: BlockOrigin) {
        self.push_blocks(count, false);
    }

    fn announce_block(&mut self, hash: u64, _data: Vec<u8>) {
        let acts = self.engine.announce_block(hash);
        self.outbox.extend(acts);
    }

    fn request_justification(&mut self, hash: &u64, number: u64) {
        self.engine.request_justification(*hash, number);
    }

    fn set_sync_fork_request(&mut self, peers: Vec<u64>, hash: u64, number: u64) {
        self.engine.set_sync_fork_request(peers, hash, number);
    }

    fn client(&mut self) -> Client<'_> {
        Client { peer: self }
    }

    fn blockchain_canon_equals(&self, other: &Peer) -> bool {
        let a = &self.engine.chain;
        let b = &other.engine.chain;
        if a.best_number() != b.best_number() {
            return false;
        }
        let mut ah = a.best_hash();
        let mut bh = b.best_hash();
        let mut n = a.best_number();
        loop {
            if ah != bh {
                return false;
            }
            if n == 0 {
                return true;
            }
            let ha = a.header(BlockId::Hash(ah)).expect("canonical block held");
            let hb = b.header(BlockId::Hash(bh)).expect("canonical block held");
            ah = ha.parent;
            bh = hb.parent;
            n -= 1;
        }
    }
}

struct Client<'a> {
    peer: &'a mut Peer,
}

#[allow(dead_code)]
struct ClientInfo {
    chain: ChainInfo,
}

#[allow(dead_code)]
struct ChainInfo {
    best_number: u64,
    best_hash: u64,
}

impl<'a> Client<'a> {
    fn justification(&self, id: &BlockId) -> Result<Option<Vec<u8>>, ()> {
        Ok(self.peer.engine.chain.justification(*id))
    }

    fn header(&self, id: &BlockId) -> Result<Option<Header>, ()> {
        Ok(self.peer.engine.chain.header(*id))
    }

    fn finalize_block(
        &mut self,
        id: BlockId,
        justification: Option<Vec<u8>>,
        notify: bool,
    ) -> Result<(), SyncError> {
        let hash = self.peer.engine.chain.header(id).map(|h| h.hash);
        let r = self.peer.engine.finalize_block(id, justification, notify);
        if r.is_ok() && notify {
            if let Some(h) = hash {
                let acts = self.peer.engine.announce_block(h);
                self.peer.outbox.extend(acts);
            }
        }
        r
    }

    fn info(&self) -> ClientInfo {
        ClientInfo {
            chain: ChainInfo {
                best_number: self.peer.engine.chain.best_number(),
                best_hash: self.peer.engine.chain.best_hash(),
            },
        }
    }
}

struct TestNet {
    peers: Vec<Peer>,
    next_id: u64,
    queue: Vec<(u64, Action)>,
    links: Vec<(u64, u64)>,
}

type JustificationTestNet = TestNet;

impl TestNet {
    fn new(n: usize) -> TestNet {
        let mut net = TestNet { peers: Vec::new(), next_id: 0, queue: Vec::new(), links: Vec::new() };
        for _ in 0..n {
            net.add_full_peer(&ProtocolConfig::default());
        }
        net
    }

    fn add_full_peer(&mut self, _config: &ProtocolConfig) {
        let id = self.next_id;
        self.next_id += 1;
        self.peers.push(Peer::new(id, Role::Full));
    }

    fn add_full_peer_with_states(&mut self, config: &ProtocolConfig, _states: Option<u32>) {
        self.add_full_peer(config);
    }

    fn add_light_peer(&mut self, _config: &ProtocolConfig) {
        let id = self.next_id;
        self.next_id += 1;
        self.peers.push(Peer::new(id, Role::Light));
    }

    fn peer(&mut self, i: usize) -> &mut Peer {
        &mut self.peers[i]
    }

    fn peers(&self) -> &Vec<Peer> {
        &self.peers
    }

    fn index_of(&self, id: u64) -> Option<usize> {
        self.peers.iter().position(|p| p.id == id)
    }

    fn linked(&self, a: u64, b: u64) -> bool {
        let key = if a < b { (a, b) } else { (b, a) };
        self.links.iter().any(|&l| l == key)
    }

    /// One cooperative round: reconcile connections with the current peer
    /// set, drain every node's outbox, give every node one tick, and route
    /// a bounded number of queued messages.  Returns whether anything
    /// happened.
    fn poll(&mut self) -> bool {
        let mut progress = false;
        // Disconnects: links whose endpoint left the net.
        let ids: Vec<u64> = self.peers.iter().map(|p| p.id).collect();
        let old_links = std::mem::replace(&mut self.links, Vec::new());
        for (a, b) in old_links {
            if ids.contains(&a) && ids.contains(&b) {
                self.links.push((a, b));
            } else {
                progress = true;
                for survivor in [a, b] {
                    let gone = if survivor == a { b } else { a };
                    if let Some(i) = self.index_of(survivor) {
                        let _ = self.peers[i].engine.peer_disconnected(gone);
                    }
                }
            }
        }
        // Connects: handshake every unlinked pair.
        for i in 0..self.peers.len() {
            for j in (i + 1)..self.peers.len() {
                let (ia, ja) = (self.peers[i].id, self.peers[j].id);
                if !self.linked(ia, ja) {
                    progress = true;
                    self.links.push(if ia < ja { (ia, ja) } else { (ja, ia) });
                    let a_role = role_of(&self.peers[i]);
                    let b_role = role_of(&self.peers[j]);
                    let a_best = (self.peers[i].engine.chain.best_hash(), self.peers[i].engine.chain.best_number());
                    let b_best = (self.peers[j].engine.chain.best_hash(), self.peers[j].engine.chain.best_number());
                    if let Ok(acts) = self.peers[i].engine.new_peer(ja, b_role, b_best.0, b_best.1)
                    {
                        for a in acts {
                            self.queue.push((ia, a));
                        }
                    }
                    if let Ok(acts) = self.peers[j].engine.new_peer(ia, a_role, a_best.0, a_best.1)
                    {
                        for a in acts {
                            self.queue.push((ja, a));
                        }
                    }
                }
            }
        }
        // Outboxes (announcements from imports, explicit announces).
        for i in 0..self.peers.len() {
            let id = self.peers[i].id;
            let acts = std::mem::replace(&mut self.peers[i].outbox, Vec::new());
            for a in acts {
                progress = true;
                self.queue.push((id, a));
            }
        }
        // Ticks: at most one new request per peer.
        for i in 0..self.peers.len() {
            let id = self.peers[i].id;
            let acts = self.peers[i].engine.tick();
            for a in acts {
                progress = true;
                self.queue.push((id, a));
            }
        }
        // Route some messages.
        let mut processed = 0;
        while processed < MSGS_PER_POLL && !self.queue.is_empty() {
            let (rid, action) = self.queue.remove(0);
            processed += 1;
            progress = true;
            let tid = action.peer;
            if !self.linked(rid, tid) {
                continue;
            }
            let (ri, ti) = match (self.index_of(rid), self.index_of(tid)) {
                (Some(ri), Some(ti)) => (ri, ti),
                _ => continue,
            };
            let replies: Vec<Action> = match action.request {
                Request::Probe { number } => {
                    let resp = self.peers[ti].engine.chain.header(BlockId::Number(number));
                    self.peers[ri].engine.on_probe_response(tid, resp)
                }
                Request::Ascending { start, count, headers_only } => {
                    let blocks = self.peers[ti].engine.chain.read_ascending(
                        start,
                        count,
                        headers_only,
                    );
                    self.peers[ri].engine.on_range_response(tid, blocks)
                }
                Request::Descending { hash: _, from, count, headers_only } => {
                    let blocks = self.peers[ti].engine.chain.read_descending(
                        from,
                        count,
                        headers_only,
                    );
                    self.peers[ri].engine.on_range_response(tid, blocks)
                }
                Request::Justification { hash, number: _ } => {
                    let j = self.peers[ti].engine.chain.justification(BlockId::Hash(hash));
                    self.peers[ri].engine.on_justification_response(tid, hash, j);
                    Vec::new()
                }
                Request::Announce { header, is_best } => {
                    self.peers[ti].engine.on_block_announce(rid, header, is_best);
                    Vec::new()
                }
            };
            for a in replies {
                self.queue.push((rid, a));
            }
        }
        progress
    }

    fn block_until_sync(&mut self) {
        let mut idle = 0;
        for _ in 0..MAX_POLLS {
            if self.poll() {
                idle = 0;
            } else {
                idle += 1;
                if idle >= 3 {
                    return;
                }
            }
        }
        panic!("network did not quiesce");
    }
}

fn role_of(p: &Peer) -> Role {
    // The engine records its own role; reading it back keeps the harness
    // honest about what was configured.
    if p.engine.role == Role::Light {
        Role::Light
    } else {
        Role::Full
    }
}

fn poll_until(net: &mut TestNet, mut cond: impl FnMut(&mut TestNet) -> bool) {
    for _ in 0..MAX_POLLS {
        net.poll();
        if cond(net) {
            return;
        }
    }
    panic!("condition not reached");
}

fn poll_times(net: &mut TestNet, times: usize) {
    for _ in 0..times {
        net.poll();
    }
}

fn test_ancestor_search_when_common_is(n: usize) {
    let mut net = TestNet::new(3);

    net.peer(0).push_blocks(n, false);
    net.peer(1).push_blocks(n, false);
    net.peer(2).push_blocks(n, false);

    net.peer(0).push_blocks(10, true);
    net.peer(1).push_blocks(100, false);
    net.peer(2).push_blocks(100, false);

    net.block_until_sync();
    let peer1 = &net.peers()[1];
    assert!(net.peers()[0].blockchain_canon_equals(peer1));
}

#[test]
fn sync_peers_works() {
    let mut net = TestNet::new(3);
    poll_until(&mut net, |net| {
        for peer in 0..3 {
            if net.peer(peer).num_peers() != 2 {
                return false;
            }
        }
        true
    });
}

#[test]
fn sync_cycle_from_offline_to_syncing_to_offline() {
    let mut net = TestNet::new(3);
    for peer in 0..3 {
        // Offline, and not major syncing.
        assert!(net.peer(peer).is_offline());
        assert!(!net.peer(peer).is_major_syncing());
    }

    // Generate blocks.
    net.peer(2).push_blocks(100, false);

    // Block until all nodes are online and nodes 0 and 1 are major syncing.
    poll_until(&mut net, |net| {
        for peer in 0..3 {
            if net.peer(peer).is_offline() {
                return false;
            }
            if peer < 2 && !net.peer(peer).is_major_syncing() {
                return false;
            }
        }
        true
    });

    // Block until all nodes are done syncing.
    poll_until(&mut net, |net| {
        for peer in 0..3 {
            if net.peer(peer).is_major_syncing() {
                return false;
            }
        }
        true
    });

    // Now drop nodes 1 and 2, and check that node 0 is offline.
    net.peers.remove(2);
    net.peers.remove(1);
    poll_until(&mut net, |net| net.peer(0).is_offline());
}

#[test]
fn syncing_node_not_major_syncing_when_disconnected() {
    let mut net = TestNet::new(3);

    // Generate blocks.
    net.peer(2).push_blocks(100, false);

    // Check that we're not major syncing when disconnected.
    assert!(!net.peer(1).is_major_syncing());

    // Check that we switch to major syncing.
    poll_until(&mut net, |net| net.peer(1).is_major_syncing());

    // Destroy two nodes, and check that we switch to non-major syncing.
    net.peers.remove(2);
    net.peers.remove(0);
    poll_until(&mut net, |net| !net.peer(0).is_major_syncing());
}

#[test]
fn sync_from_two_peers_works() {
    let mut net = TestNet::new(3);
    net.peer(1).push_blocks(100, false);
    net.peer(2).push_blocks(100, false);
    net.block_until_sync();
    let peer1 = &net.peers()[1];
    assert!(net.peers()[0].blockchain_canon_equals(peer1));
    assert!(!net.peer(0).is_major_syncing());
}

#[test]
fn sync_from_two_peers_with_ancestry_search_works() {
    let mut net = TestNet::new(3);
    net.peer(0).push_blocks(10, true);
    net.peer(1).push_blocks(100, false);
    net.peer(2).push_blocks(100, false);
    net.block_until_sync();
    let peer1 = &net.peers()[1];
    assert!(net.peers()[0].blockchain_canon_equals(peer1));
}

#[test]
fn ancestry_search_works_when_backoff_is_one() {
    let mut net = TestNet::new(3);

    net.peer(0).push_blocks(1, false);
    net.peer(1).push_blocks(2, false);
    net.peer(2).push_blocks(2, false);

    net.block_until_sync();
    let peer1 = &net.peers()[1];
    assert!(net.peers()[0].blockchain_canon_equals(peer1));
}

#[test]
fn ancestry_search_works_when_ancestor_is_genesis() {
    let mut net = TestNet::new(3);

    net.peer(0).push_blocks(13, true);
    net.peer(1).push_blocks(100, false);
    net.peer(2).push_blocks(100, false);

    net.block_until_sync();
    let peer1 = &net.peers()[1];
    assert!(net.peers()[0].blockchain_canon_equals(peer1));
}

#[test]
fn ancestry_search_works_when_common_is_one() {
    test_ancestor_search_when_common_is(1);
}

#[test]
fn ancestry_search_works_when_common_is_two() {
    test_ancestor_search_when_common_is(2);
}

#[test]
fn ancestry_search_works_when_common_is_hundred() {
    test_ancestor_search_when_common_is(100);
}

#[test]
fn sync_long_chain_works() {
    let mut net = TestNet::new(2);
    net.peer(1).push_blocks(500, false);
    net.block_until_sync();
    let peer1 = &net.peers()[1];
    assert!(net.peers()[0].blockchain_canon_equals(peer1));
}

#[test]
fn sync_no_common_longer_chain_fails() {
    let mut net = TestNet::new(3);
    net.peer(0).push_blocks(20, true);
    net.peer(1).push_blocks(20, false);
    poll_until(&mut net, |net| !net.peer(0).is_major_syncing());
    let peer1 = &net.peers()[1];
    assert!(!net.peers()[0].blockchain_canon_equals(peer1));
}

#[test]
fn sync_justifications() {
    let mut net = JustificationTestNet::new(3);
    net.peer(0).push_blocks(20, false);
    net.block_until_sync();

    // there's currently no justification for block #10
    assert_eq!(net.peer(0).client().justification(&BlockId::Number(10)).unwrap(), None);
    assert_eq!(net.peer(1).client().justification(&BlockId::Number(10)).unwrap(), None);

    // we finalize block #10, #15 and #20 for peer 0 with a justification
    net.peer(0).client().finalize_block(BlockId::Number(10), Some(Vec::new()), true).unwrap();
    net.peer(0).client().finalize_block(BlockId::Number(15), Some(Vec::new()), true).unwrap();
    net.peer(0).client().finalize_block(BlockId::Number(20), Some(Vec::new()), true).unwrap();

    let h1 = net.peer(1).client().header(&BlockId::Number(10)).unwrap().unwrap();
    let h2 = net.peer(1).client().header(&BlockId::Number(15)).unwrap().unwrap();
    let h3 = net.peer(1).client().header(&BlockId::Number(20)).unwrap().unwrap();

    // peer 1 should get the justifications from the network
    net.peer(1).request_justification(&h1.hash, 10);
    net.peer(1).request_justification(&h2.hash, 15);
    net.peer(1).request_justification(&h3.hash, 20);

    poll_until(&mut net, |net| {
        for height in (10..21).step_by(5) {
            if net.peer(0).client().justification(&BlockId::Number(height)).unwrap()
                != Some(Vec::new())
            {
                return false;
            }
            if net.peer(1).client().justification(&BlockId::Number(height)).unwrap()
                != Some(Vec::new())
            {
                return false;
            }
        }
        true
    });
}

#[test]
fn sync_justifications_across_forks() {
    let mut net = JustificationTestNet::new(3);
    // we push 5 blocks
    net.peer(0).push_blocks(5, false);
    // and then two forks 5 and 6 blocks long
    let f1_best = net.peer(0).push_blocks_at(BlockId::Number(5), 5, false);
    let f2_best = net.peer(0).push_blocks_at(BlockId::Number(5), 6, false);

    // peer 1 will only see the longer fork. but we'll request justifications
    // for both and finalize the small fork instead.
    net.block_until_sync();

    net.peer(0).client().finalize_block(BlockId::Hash(f1_best), Some(Vec::new()), true).unwrap();

    net.peer(1).request_justification(&f1_best, 10);
    net.peer(1).request_justification(&f2_best, 11);

    poll_until(&mut net, |net| {
        net.peer(0).client().justification(&BlockId::Number(10)).unwrap() == Some(Vec::new())
            && net.peer(1).client().justification(&BlockId::Number(10)).unwrap()
                == Some(Vec::new())
    });
}

#[test]
fn sync_after_fork_works() {
    let mut net = TestNet::new(3);
    net.peer(0).push_blocks(30, false);
    net.peer(1).push_blocks(30, false);
    net.peer(2).push_blocks(30, false);

    net.peer(0).push_blocks(10, true);
    net.peer(1).push_blocks(20, false);
    net.peer(2).push_blocks(20, false);

    net.peer(1).push_blocks(10, true);
    net.peer(2).push_blocks(1, false);

    // peer 1 has the best chain
    net.block_until_sync();
    let peer1 = &net.peers()[1];
    assert!(net.peers()[0].blockchain_canon_equals(peer1));
    (net.peers()[1].blockchain_canon_equals(peer1));
    (net.peers()[2].blockchain_canon_equals(peer1));
}

#[test]
fn syncs_all_forks() {
    let mut net = TestNet::new(4);
    net.peer(0).push_blocks(2, false);
    net.peer(1).push_blocks(2, false);

    net.peer(0).push_blocks(2, true);
    net.peer(1).push_blocks(4, false);

    net.block_until_sync();
    // Check that all peers have all of the blocks.
    assert_eq!(9, net.peer(0).blocks_count());
    assert_eq!(9, net.peer(1).blocks_count());
}

#[test]
fn own_blocks_are_announced() {
    let mut net = TestNet::new(3);
    net.block_until_sync(); // connect'em
    net.peer(0).generate_blocks(1, BlockOrigin::Own);

    net.block_until_sync();

    assert_eq!(net.peer(0).client().info().chain.best_number, 1);
    assert_eq!(net.peer(1).client().info().chain.best_number, 1);
    let peer0 = &net.peers()[0];
    assert!(net.peers()[1].blockchain_canon_equals(peer0));
    (net.peers()[2].blockchain_canon_equals(peer0));
}

#[test]
fn blocks_are_not_announced_by_light_nodes() {
    let mut net = TestNet::new(0);

    // full peer0 is connected to light peer
    // light peer1 is connected to full peer2
    let mut light_config = ProtocolConfig::default();
    light_config.roles = Roles::LIGHT;
    net.add_full_peer(&ProtocolConfig::default());
    net.add_light_peer(&light_config);

    // Sync between 0 and 1.
    net.peer(0).push_blocks(1, false);
    assert_eq!(net.peer(0).client().info().chain.best_number, 1);
    net.block_until_sync();
    assert_eq!(net.peer(1).client().info().chain.best_number, 1);

    // Add another node and remove node 0.
    net.add_full_peer(&ProtocolConfig::default());
    net.peers.remove(0);

    // Poll for a while and make sure 1 and 2 (now 0 and 1) don't sync together.
    poll_times(&mut net, 100);
    assert_eq!(net.peer(1).client().info().chain.best_number, 0);
}

#[test]
fn can_not_sync_from_light_peer() {
    // given the network with 1 full nodes (#0) and 1 light node (#1)
    let mut net = TestNet::new(1);
    net.add_light_peer(&Default::default());

    // generate some blocks on #0
    net.peer(0).push_blocks(1, false);

    // and let the light client sync from this node
    net.block_until_sync();

    // ensure #0 && #1 have the same best block
    let full0_best_number = net.peer(0).client().info().chain.best_number;
    let full0_best_hash = net.peer(0).client().info().chain.best_hash;
    let light_best_number = net.peer(1).client().info().chain.best_number;
    let light_best_hash = net.peer(1).client().info().chain.best_hash;
    assert_eq!(full0_best_number, 1);
    assert_eq!(light_best_number, 1);
    assert_eq!(light_best_hash, full0_best_hash);

    // add new full client (#2) && remove #0
    net.add_full_peer(&Default::default());
    net.peers.remove(0);

    // ensure that the #2 (now #1) fails to sync block #1 even after a while
    poll_times(&mut net, 100);
}

fn import_with_announce(net: &mut TestNet, hash: u64) {
    net.peer(0).announce_block(hash, Vec::new());

    poll_until(net, |net| {
        net.peer(1).client().header(&BlockId::Hash(hash)).unwrap().is_some()
    });
}

#[test]
fn light_peer_imports_header_from_announce() {
    // given the network with 1 full nodes (#0) and 1 light node (#1)
    let mut net = TestNet::new(1);
    net.add_light_peer(&Default::default());

    // let them connect to each other
    net.block_until_sync();

    // check that NEW block is imported from announce message
    let new_hash = net.peer(0).push_blocks(1, false);
    import_with_announce(&mut net, new_hash);

    // check that KNOWN STALE block is imported from announce message
    let known_stale_hash = net.peer(0).push_blocks_at(BlockId::Number(0), 1, true);
    import_with_announce(&mut net, known_stale_hash);
}

#[test]
fn can_sync_small_non_best_forks() {
    let mut net = TestNet::new(2);
    net.peer(0).push_blocks(30, false);
    net.peer(1).push_blocks(30, false);

    // small fork + reorg on peer 1.
    net.peer(0).push_blocks_at(BlockId::Number(30), 2, true);
    let small_hash = net.peer(0).client().info().chain.best_hash;
    net.peer(0).push_blocks_at(BlockId::Number(30), 10, false);
    assert_eq!(net.peer(0).client().info().chain.best_number, 40);

    // peer 1 only ever had the long fork.
    net.peer(1).push_blocks(10, false);
    assert_eq!(net.peer(1).client().info().chain.best_number, 40);

    assert!(net.peer(0).client().header(&BlockId::Hash(small_hash)).unwrap().is_some());
    assert!(net.peer(1).client().header(&BlockId::Hash(small_hash)).unwrap().is_none());

    // poll until the two nodes connect, otherwise announcing the block will not work
    poll_until(&mut net, |net| net.peer(0).num_peers() != 0);

    // synchronization: 0 synced to longer chain and 1 didn't sync to small chain.

    assert_eq!(net.peer(0).client().info().chain.best_number, 40);

    assert!(net.peer(0).client().header(&BlockId::Hash(small_hash)).unwrap().is_some());
    assert!(!net.peer(1).client().header(&BlockId::Hash(small_hash)).unwrap().is_some());

    net.peer(0).announce_block(small_hash, Vec::new());

    // after announcing, peer 1 downloads the block.

    poll_until(&mut net, |net| {
        assert!(net.peer(0).client().header(&BlockId::Hash(small_hash)).unwrap().is_some());
        net.peer(1).client().header(&BlockId::Hash(small_hash)).unwrap().is_some()
    });
    net.block_until_sync();

    let another_fork = net.peer(0).push_blocks_at(BlockId::Number(35), 2, true);
    net.peer(0).announce_block(another_fork, Vec::new());
    poll_until(&mut net, |net| {
        net.peer(1).client().header(&BlockId::Hash(another_fork)).unwrap().is_some()
    });
}

#[test]
fn can_sync_explicit_forks() {
    let mut net = TestNet::new(2);
    net.peer(0).push_blocks(30, false);
    net.peer(1).push_blocks(30, false);

    // small fork + reorg on peer 1.
    net.peer(0).push_blocks_at(BlockId::Number(30), 2, true);
    let small_hash = net.peer(0).client().info().chain.best_hash;
    let small_number = net.peer(0).client().info().chain.best_number;
    net.peer(0).push_blocks_at(BlockId::Number(30), 10, false);
    assert_eq!(net.peer(0).client().info().chain.best_number, 40);

    // peer 1 only ever had the long fork.
    net.peer(1).push_blocks(10, false);
    assert_eq!(net.peer(1).client().info().chain.best_number, 40);

    assert!(net.peer(0).client().header(&BlockId::Hash(small_hash)).unwrap().is_some());
    assert!(net.peer(1).client().header(&BlockId::Hash(small_hash)).unwrap().is_none());

    // poll until the two nodes connect, otherwise announcing the block will not work
    poll_until(&mut net, |net| net.peer(0).num_peers() != 0 && net.peer(1).num_peers() != 0);

    // synchronization: 0 synced to longer chain and 1 didn't sync to small chain.

    assert_eq!(net.peer(0).client().info().chain.best_number, 40);

    assert!(net.peer(0).client().header(&BlockId::Hash(small_hash)).unwrap().is_some());
    assert!(!net.peer(1).client().header(&BlockId::Hash(small_hash)).unwrap().is_some());

    // request explicit sync
    let first_peer_id = net.peer(0).id();
    net.peer(1).set_sync_fork_request(vec![first_peer_id], small_hash, small_number);

    // peer 1 downloads the block.
    poll_until(&mut net, |net| {
        assert!(net.peer(0).client().header(&BlockId::Hash(small_hash)).unwrap().is_some());
        net.peer(1).client().header(&BlockId::Hash(small_hash)).unwrap().is_some()
    });
}

#[test]
fn syncs_header_only_forks() {
    let mut net = TestNet::new(0);
    let config = ProtocolConfig::default();
    net.add_full_peer_with_states(&config, None);
    net.add_full_peer_with_states(&config, Some(3));
    net.peer(0).push_blocks(2, false);
    net.peer(1).push_blocks(2, false);

    net.peer(0).push_blocks(2, true);
    let small_hash = net.peer(0).client().info().chain.best_hash;
    let small_number = net.peer(0).client().info().chain.best_number;
    net.peer(1).push_blocks(4, false);

    net.block_until_sync();
    // Peer 1 will sync the small fork even though common block state is missing
    assert_eq!(9, net.peer(0).blocks_count());
    assert_eq!(9, net.peer(1).blocks_count());

    // Request explicit header-only sync request for the ancient fork.
    let first_peer_id = net.peer(0).id();
    net.peer(1).set_sync_fork_request(vec![first_peer_id], small_hash, small_number);
    poll_until(&mut net, |net| {
        net.peer(1).client().header(&BlockId::Hash(small_hash)).unwrap().is_some()
    });
}

#[test]
fn removing_peer_mid_download_keeps_common_bounds() {
    let mut net = TestNet::new(3);
    net.peer(1).push_blocks(100, false);
    net.peer(2).push_blocks(100, false);

    // Poll a little: node 0 is mid-download from both sources.
    poll_times(&mut net, 2);
    assert!(net.peer(0).is_major_syncing());

    // Drop one source mid-download.
    let gone = net.peer(2).id();
    net.peers.remove(2);
    poll_times(&mut net, 1);

    // Every remaining peer entry still satisfies
    // common <= min(local best, peer best).
    let ids: Vec<u64> = net.peers.iter().map(|p| p.id).collect();
    for i in 0..net.peers.len() {
        let local_best = net.peers[i].engine.chain.best_number();
        for &other in &ids {
            if other == net.peers[i].id {
                continue;
            }
            assert_eq!(net.peers[i].engine.peer_common_number(gone), None);
            let common = net.peers[i].engine.peer_common_number(other).unwrap();
            let best = net.peers[i].engine.peer_best_number(other).unwrap();
            assert!(common <= local_best);
            assert!(common <= best);
        }
    }

    // And the download still completes from the remaining source.
    net.block_until_sync();
    let peer1 = &net.peers()[1];
    assert!(net.peers()[0].blockchain_canon_equals(peer1));
}

#[test]
fn removing_all_full_peers_stalls_sync() {
    let mut net = TestNet::new(0);
    net.add_full_peer(&ProtocolConfig::default());
    net.add_light_peer(&ProtocolConfig { roles: Roles::LIGHT });
    net.peer(0).push_blocks(30, false);
    net.block_until_sync();
    assert_eq!(net.peer(1).client().info().chain.best_number, 30);

    // A fresh full node joins, the only full source leaves: the mixed set
    // that remains has only the light peer to offer.
    net.add_full_peer(&ProtocolConfig::default());
    net.peers.remove(0);

    // Sync stalls: best numbers stop moving, and nothing errors.
    poll_times(&mut net, 200);
    assert_eq!(net.peer(0).client().info().chain.best_number, 30);
    assert_eq!(net.peer(1).client().info().chain.best_number, 0);
}

#[test]
fn divergent_tails_share_only_their_prefix() {
    let mut net = TestNet::new(3);
    for i in 0..3 {
        net.peer(i).push_blocks(20, false);
    }
    net.peer(0).push_blocks(100, false);
    net.peer(1).push_blocks(80, false);
    net.peer(2).push_blocks(80, false);
    net.peer(1).push_blocks(20, true);
    net.peer(2).push_blocks(20, true);

    net.block_until_sync();

    // The two divergent peers' canonical chains compare unequal...
    let peer2 = &net.peers()[2];
    assert!(!net.peers()[1].blockchain_canon_equals(peer2));
    // ...while the shared prefix is identical on all three.
    let at100 = net.peers[0].engine.chain.canon_hash_at(100);
    assert!(at100.is_some());
    assert_eq!(net.peers[1].engine.chain.canon_hash_at(100), at100);
    assert_eq!(net.peers[2].engine.chain.canon_hash_at(100), at100);
    // Everyone holds every branch: genesis, 120 shared-and-long blocks and
    // the two 20-block tails.
    for i in 0..3 {
        assert_eq!(161, net.peer(i).blocks_count());
    }
}

#[test]
fn does_not_sync_announced_old_best_block() {
    let mut net = TestNet::new(3);

    let old_hash = net.peer(0).push_blocks(1, false);
    let old_hash_with_parent = net.peer(0).push_blocks(1, false);
    net.peer(0).push_blocks(18, true);
    net.peer(1).push_blocks(20, true);

    net.peer(0).announce_block(old_hash, Vec::new());
    // poll once to import announcement
    net.poll();
    assert!(!net.peer(1).is_major_syncing());

    net.peer(0).announce_block(old_hash_with_parent, Vec::new());
    // poll once to import announcement
    net.poll();
    assert!(!net.peer(1).is_major_syncing());
}
