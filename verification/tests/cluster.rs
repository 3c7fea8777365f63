//! Nodes that talk to each other.

use raft::consensus::node::{NodeConfig, RaftNode};
use raft::consensus::state::{PersistentState, Role};
use raft::consensus::tick::TickConfig;
use raft::mvcc::store::MvccStore;
use raft::server::apply::{ApplyLoop, KvCommand};
use raft::storage::bloom::BloomSize;
use raft::storage::lsm::{LsmConfig, LsmTree};

fn make_node(id: u64, peers: Vec<u64>) -> RaftNode {
    let config = NodeConfig {
        id,
        peers,
        data_dir: format!("node-{}", id),
        tick_config: TickConfig::default(),
    };
    RaftNode::new(config, PersistentState::default(), vec![]).unwrap()
}

fn three() -> Vec<RaftNode> {
    vec![make_node(1, vec![2, 3]), make_node(2, vec![1, 3]), make_node(3, vec![1, 2])]
}

fn place(nodes: &[RaftNode], id: u64) -> usize {
    nodes.iter().position(|n| n.id() == id).unwrap()
}

/// Has the first node win an election.
fn elect_leader(nodes: &mut Vec<RaftNode>) {
    let pre_vote_reqs = nodes[0].start_pre_vote();
    for (peer_id, req) in pre_vote_reqs {
        let p = place(nodes, peer_id);
        let resp = nodes[p].handle_vote_request(req);
        nodes[0].handle_vote_response(peer_id, resp, true);
    }
    assert!(nodes[0].pre_vote_has_quorum());
    let vote_reqs = nodes[0].start_election();
    for (peer_id, req) in vote_reqs {
        let p = place(nodes, peer_id);
        let resp = nodes[p].handle_vote_request(req);
        if nodes[0].handle_vote_response(peer_id, resp, false) {
            break;
        }
    }
    assert_eq!(nodes[0].role(), Role::Leader);
}

/// Has the first node replicate to some of the others.
fn replicate(nodes: &mut Vec<RaftNode>, to: &[u64]) {
    let requests = nodes[0].create_append_requests();
    for (peer_id, req) in requests {
        if to.contains(&peer_id) {
            let p = place(nodes, peer_id);
            let resp = nodes[p].handle_append_entries(req);
            nodes[0].handle_append_response(peer_id, resp);
        }
    }
}

#[test]
fn three_node_election_and_replication() {
    let mut nodes = three();
    elect_leader(&mut nodes);
    let index = nodes[0].propose(b"hello world".to_vec()).unwrap();
    assert_eq!(index, 2);
    replicate(&mut nodes, &[2, 3]);
    assert!(nodes[0].commit_index() >= 2);
    let entries = nodes[0].take_committed_entries();
    assert!(!entries.is_empty());
}

#[test]
fn leader_step_down_on_higher_term() {
    let mut nodes = three();
    elect_leader(&mut nodes);
    assert_eq!(nodes[0].role(), Role::Leader);
    nodes[2].start_election();
    let vote_reqs_from_n3 = nodes[2].start_election();
    for (peer_id, req) in vote_reqs_from_n3 {
        if peer_id == 1 {
            nodes[0].handle_vote_request(req);
        }
    }
    assert_eq!(nodes[0].role(), Role::Follower);
}

#[test]
fn follower_catches_up_after_missed_entries() {
    let mut nodes = three();
    elect_leader(&mut nodes);
    for i in 0..5 {
        nodes[0].propose(format!("entry-{}", i).into_bytes()).unwrap();
    }
    replicate(&mut nodes, &[2]);
    let requests = nodes[0].create_append_requests();
    for (peer_id, req) in requests {
        if peer_id == 3 {
            let resp = nodes[2].handle_append_entries(req);
            assert!(resp.success, "n3 should catch up");
            nodes[0].handle_append_response(peer_id, resp);
        }
    }
}

#[test]
fn write_survives_one_node_down() {
    let mut n1 = make_node(1, vec![2, 3]);
    let mut n2 = make_node(2, vec![1, 3]);
    for (peer_id, req) in n1.start_pre_vote() {
        if peer_id == 2 {
            let resp = n2.handle_vote_request(req);
            n1.handle_vote_response(peer_id, resp, true);
        }
    }
    for (peer_id, req) in n1.start_election() {
        if peer_id == 2 {
            let resp = n2.handle_vote_request(req);
            n1.handle_vote_response(peer_id, resp, false);
        }
    }
    assert_eq!(n1.role(), Role::Leader);
    n1.propose(b"data".to_vec()).unwrap();
    for (peer_id, req) in n1.create_append_requests() {
        if peer_id == 2 {
            let resp = n2.handle_append_entries(req);
            n1.handle_append_response(peer_id, resp);
        }
    }
    assert!(n1.commit_index() >= 2);
}

#[test]
fn apply_loop_integration() {
    let config =
        LsmConfig { memtable_size_limit: 64 * 1024, block_size: 256, ..Default::default() };
    let sizing = |n: usize| BloomSize { num_bits: n * 10 + 8, num_hashes: 7 };
    let engine =
        LsmTree::open(config, None, "wal.log".to_string(), vec![], vec![], sizing).unwrap();
    let mut store = MvccStore::new(engine);
    let apply = ApplyLoop::new();
    let mut nodes = three();
    elect_leader(&mut nodes);
    nodes[0].propose(b"name=raft".to_vec()).unwrap();
    replicate(&mut nodes, &[2, 3]);
    let entries = nodes[0].take_committed_entries();
    let decode = |data: &Vec<u8>| {
        let at = data.iter().position(|b| *b == b'=')?;
        Some(KvCommand::Put {
            key: data[..at].to_vec(),
            value: data[at + 1..].to_vec(),
            lease_id: 0,
            ttl_seconds: 0,
        })
    };
    let applied = apply.apply(&mut store, &entries, decode).unwrap();
    assert!(applied >= 1);
    let kv = store.get(b"name").unwrap().unwrap();
    assert_eq!(kv.value, b"raft");
}

/// Numbers that look random.
struct Dice(u64);

impl Dice {
    fn roll(&mut self, sides: u64) -> u64 {
        self.0 = self.0.wrapping_mul(6364136223846793005).wrapping_add(1442695040888963407);
        (self.0 >> 33) % sides
    }
}

#[test]
fn committed_entries_never_differ() {
    let mut total = 0;
    for seed in 0..20u64 {
        let mut dice = Dice(seed.wrapping_mul(0x9E37_79B9_7F4A_7C15));
        let mut nodes = three();
        let mut applied: Vec<Option<(u64, Vec<u8>)>> = vec![None; 400];
        let mut leaders: Vec<Option<u64>> = vec![None; 400];
        for step in 0..300u64 {
            let i = dice.roll(3) as usize;
            match dice.roll(15) {
                0 if nodes[i].role() != Role::Leader => {
                    let requests = nodes[i].start_election();
                    let term = nodes[i].term();
                    for (peer, request) in requests {
                        if dice.roll(3) == 0 || nodes[i].term() != term {
                            continue;
                        }
                        let p = place(&nodes, peer);
                        let reply = nodes[p].handle_vote_request(request);
                        nodes[i].handle_vote_response(peer, reply, false);
                    }
                    if nodes[i].role() == Role::Leader {
                        assert_eq!(leaders[term as usize], None);
                        leaders[term as usize] = Some(nodes[i].id());
                    }
                }
                1..=4 => {
                    let _ = nodes[i].propose(step.to_le_bytes().to_vec());
                }
                _ => {
                    for (peer, request) in nodes[i].create_append_requests() {
                        if dice.roll(3) == 0 {
                            continue;
                        }
                        let p = place(&nodes, peer);
                        let reply = nodes[p].handle_append_entries(request);
                        if dice.roll(4) != 0 {
                            nodes[i].handle_append_response(peer, reply);
                        }
                    }
                }
            }
            for node in nodes.iter_mut() {
                for entry in node.take_committed_entries() {
                    let seen = &mut applied[entry.index as usize];
                    let now = (entry.term, entry.data);
                    match seen {
                        Some(before) => assert_eq!(*before, now),
                        None => *seen = Some(now),
                    }
                }
            }
        }
        total += applied.iter().flatten().count();
    }
    assert!(total > 100, "{}", total);
}
