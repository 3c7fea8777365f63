//! What holds across calls, on concrete values.

use raft::chaos::clock::ClockSim;
use raft::chaos::network::NetworkSim;
use raft::client::KvClient;
use raft::consensus::election::is_log_up_to_date;
use raft::consensus::membership::{ClusterConfig, ConfigChange, MemberInfo, MembershipState};
use raft::consensus::message::{AppendRequest, EntryType, LogEntry, VoteRequest};
use raft::consensus::node::{NodeConfig, RaftNode};
use raft::consensus::read_index::ReadIndexState;
use raft::consensus::snapshot::SnapshotManager;
use raft::consensus::state::{ElectionState, PersistentState, Role};
use raft::consensus::tick::TickConfig;
use raft::mvcc::gc::GarbageCollector;
use raft::mvcc::store::MvccStore;
use raft::mvcc::ttl::TtlManager;
use raft::server::apply::{ApplyLoop, KvCommand};
use raft::server::kv_service::KvRpcService;
use raft::server::server::{ElectionTimer, TimerAction};
use raft::storage::bloom::BloomSize;
use raft::storage::engine::StorageEngine;
use raft::storage::lsm::{LsmConfig, LsmTree};
use raft::text::{decimal_text, hex32_text, padded_decimal, parse_u64};
use std::collections::HashSet;

type Sizing = fn(usize) -> BloomSize;

fn filter_size(items: usize) -> BloomSize {
    BloomSize { num_bits: (items.max(1) * 10).max(8), num_hashes: 7 }
}

fn new_tree(limit: usize) -> LsmTree<Sizing> {
    let config = LsmConfig { memtable_size_limit: limit, block_size: 128, ..Default::default() };
    LsmTree::open(config, None, "wal.log".to_string(), vec![], vec![], filter_size as Sizing)
        .unwrap()
}

fn new_store() -> MvccStore<LsmTree<Sizing>> {
    MvccStore::new(new_tree(1024))
}

fn make_node(id: u64, peers: Vec<u64>) -> RaftNode {
    let config = NodeConfig {
        id,
        peers,
        data_dir: format!("node-{}", id),
        tick_config: TickConfig::default(),
    };
    RaftNode::new(config, PersistentState::default(), vec![]).unwrap()
}

fn vote_request(term: u64, candidate_id: u64, is_pre_vote: bool) -> VoteRequest {
    VoteRequest { term, candidate_id, last_log_index: 0, last_log_term: 0, is_pre_vote }
}

fn put(key: &str, value: &str) -> KvCommand {
    KvCommand::Put {
        key: key.as_bytes().to_vec(),
        value: value.as_bytes().to_vec(),
        lease_id: 0,
        ttl_seconds: 0,
    }
}

#[test]
fn one_vote_in_a_term() {
    let mut node = make_node(1, vec![2, 3]);
    assert!(node.handle_vote_request(vote_request(1, 2, false)).vote_granted);
    assert!(!node.handle_vote_request(vote_request(1, 3, false)).vote_granted);
    assert!(node.handle_vote_request(vote_request(1, 2, false)).vote_granted);
    assert!(node.handle_vote_request(vote_request(2, 3, false)).vote_granted);
}

#[test]
fn pre_votes_change_nothing() {
    let mut node = make_node(1, vec![2, 3]);
    let answer = node.handle_vote_request(vote_request(7, 2, true));
    assert!(answer.vote_granted);
    assert_eq!(answer.term, 0);
    assert_eq!(node.term(), 0);
    assert_eq!(node.take_unsaved(), None);
    assert!(node.handle_vote_request(vote_request(1, 3, false)).vote_granted);
}

#[test]
fn two_majorities_share_a_node() {
    let mut a = ElectionState::new(5);
    let mut b = ElectionState::new(5);
    for id in [1, 2, 3] {
        a.record_vote(id);
    }
    for id in [3, 4, 5] {
        b.record_vote(id);
    }
    assert!(a.has_quorum() && b.has_quorum());
    let mut c = ElectionState::new(5);
    for id in [4, 5] {
        c.record_vote(id);
    }
    assert!(!c.has_quorum());
}

#[test]
fn one_of_two_logs_is_as_recent() {
    for (a, b) in [((1, 5), (2, 1)), ((2, 2), (2, 3)), ((3, 3), (3, 3))] {
        assert!(is_log_up_to_date(a.0, a.1, b.0, b.1) || is_log_up_to_date(b.0, b.1, a.0, a.1));
    }
}

#[test]
fn joint_quorums_meet_the_old_ones() {
    let member = |id: u64| MemberInfo { id, address: format!("n{}", id) };
    let mut state = MembershipState::from_config(ClusterConfig::new(vec![member(1), member(2)]));
    let old: HashSet<u64> = [1, 2].into_iter().collect();
    assert!(state.has_quorum(&old));
    let change = ConfigChange::AddNode { id: 3, address: "n3".to_string() };
    state.begin_change(&change).unwrap();
    let without_old: HashSet<u64> = [2, 3].into_iter().collect();
    assert!(!state.has_quorum(&without_old));
    assert!(state.has_quorum(&[1, 2].into_iter().collect()));
}

#[test]
fn a_follower_takes_over_the_leaders_entries() {
    let entry = |index: u64, term: u64, data: &[u8]| LogEntry {
        index,
        term,
        data: data.to_vec(),
        entry_type: EntryType::Normal,
    };
    let mut node = make_node(1, vec![2, 3]);
    node.handle_append_entries(AppendRequest {
        term: 1,
        leader_id: 2,
        prev_log_index: 0,
        prev_log_term: 0,
        entries: vec![entry(1, 1, b"a"), entry(2, 1, b"lost"), entry(3, 1, b"lost")],
        leader_commit: 1,
    });
    assert_eq!(node.commit_index(), 1);
    let answer = node.handle_append_entries(AppendRequest {
        term: 2,
        leader_id: 3,
        prev_log_index: 1,
        prev_log_term: 1,
        entries: vec![entry(2, 2, b"kept")],
        leader_commit: 9,
    });
    assert!(answer.success);
    assert_eq!(answer.match_index, 2);
    assert_eq!(node.commit_index(), 2);
    let taken: Vec<Vec<u8>> = node.take_committed_entries().into_iter().map(|e| e.data).collect();
    assert_eq!(taken, vec![b"a".to_vec(), b"kept".to_vec()]);
    assert!(!node.should_snapshot(2));
    assert!(node.should_snapshot(1));
}

#[test]
fn a_later_term_ends_leadership() {
    let mut node = make_node(1, vec![2, 3]);
    node.start_election();
    node.become_leader();
    node.transfer_leadership(2).unwrap();
    let (id, _) = node.request_read_index().unwrap();
    node.handle_vote_request(vote_request(9, 2, false));
    assert_eq!(node.role(), Role::Follower);
    assert!(!node.is_transfer_in_progress());
    assert_eq!(node.take_read_index(id), None);
}

#[test]
fn reads_keep_their_index() {
    let mut reads = ReadIndexState::new();
    let id = reads.register(7, 1, 3);
    assert_eq!(reads.get_read_index(id), Some(7));
    assert_eq!(reads.get_read_index(id + 1), None);
    assert_eq!(reads.next_id(), id + 1);
}

#[test]
fn a_described_snapshot_is_intact() {
    let meta = SnapshotManager::create_snapshot(3, 2, b"data");
    assert!(SnapshotManager::load_latest(Some((meta, b"data".to_vec()))).is_ok());
    assert!(SnapshotManager::receive_snapshot(&meta, b"data").is_ok());
    assert!(SnapshotManager::load_latest(Some((meta, b"date".to_vec()))).is_err());
    assert!(SnapshotManager::load_latest(None).unwrap().is_none());
}

#[test]
fn batches_join() {
    let commands = [put("a", "1"), put("b", "2"), put("a", "3")];
    let apply = ApplyLoop::new();
    let mut whole = new_store();
    let mut parts = new_store();
    for command in &commands {
        apply.apply_command(&mut whole, command).unwrap();
    }
    let entries: Vec<LogEntry> = (0..3)
        .map(|i| LogEntry { index: i + 1, term: 1, data: vec![i as u8], entry_type: EntryType::Normal })
        .collect();
    let read = |data: &Vec<u8>| match data[0] {
        0 => Some(put("a", "1")),
        1 => Some(put("b", "2")),
        _ => Some(put("a", "3")),
    };
    let mut entries = entries.into_iter();
    let first = vec![entries.next().unwrap()];
    let rest: Vec<LogEntry> = entries.collect();
    apply.apply(&mut parts, &first, read).unwrap();
    apply.apply(&mut parts, &rest, read).unwrap();
    assert_eq!(whole.scan(b"", b"z").unwrap(), parts.scan(b"", b"z").unwrap());
    let a = parts.get(b"a").unwrap().unwrap();
    assert_eq!((a.value, a.create_revision, a.mod_revision), (b"3".to_vec(), 1, 3));
}

#[test]
fn collection_keeps_what_is_read_now() {
    let mut store = new_store();
    for i in 0..20 {
        store.put(format!("k{}", i % 4).as_bytes(), format!("v{}", i).as_bytes()).unwrap();
    }
    store.delete(b"k1").unwrap();
    let before = store.scan(b"", b"z").unwrap();
    assert_eq!(GarbageCollector::new().collect(&mut store, 1000).unwrap(), 17);
    assert_eq!(store.scan(b"", b"z").unwrap(), before);
    assert_eq!(TtlManager::new().sweep_expired(&mut store, i64::MAX).unwrap(), 0);
}

#[test]
fn compaction_keeps_contents() {
    let mut tree = new_tree(64);
    for i in 0..400u32 {
        let key = format!("key-{:02}", i % 40);
        if i % 9 == 0 {
            tree.delete(key.as_bytes()).unwrap();
        } else {
            tree.put(key.as_bytes(), format!("{}", i).as_bytes()).unwrap();
        }
    }
    let before = tree.scan(b"", b"z").unwrap();
    tree.flush().unwrap();
    tree.maybe_compact().unwrap();
    assert_eq!(tree.scan(b"", b"z").unwrap(), before);
}

#[test]
fn refusals_lead_to_the_leader() {
    let mut node = make_node(1, vec![2, 3]);
    node.handle_append_entries(AppendRequest {
        term: 1,
        leader_id: 3,
        prev_log_index: 0,
        prev_log_term: 0,
        entries: vec![],
        leader_commit: 0,
    });
    let refused = KvRpcService::new().check_leader(&node).unwrap_err();
    assert_eq!(KvClient::parse_leader_hint(&refused.message), Some(3));
    assert_eq!(KvClient::parse_leader_hint("Some(x)"), None);
    assert_eq!(KvClient::parse_leader_hint("Some(1"), None);
    assert_eq!(KvClient::parse_leader_hint("Some(18446744073709551616)"), None);
}

#[test]
fn numbers_round_trip() {
    for n in [0, 1, 9, 10, 12345, u64::MAX] {
        assert_eq!(decimal_text(n), n.to_string());
        assert_eq!(parse_u64(&decimal_text(n)), Some(n));
    }
    assert_eq!(parse_u64("+7"), Some(7));
    assert_eq!(parse_u64(""), None);
    assert_eq!(parse_u64("-1"), None);
    assert_eq!(padded_decimal(42, 5), "00042");
    assert_eq!(hex32_text(0xBEEF), "0x0000beef");
}

#[test]
fn isolated_nodes_hear_nothing() {
    let mut net = NetworkSim::new();
    net.partition(1, 3);
    net.isolate(2, &[1, 2, 3]);
    for draw in [0, 1, 1 << 40] {
        assert!(!net.delivers(2, 1, draw) && !net.delivers(3, 2, draw));
        assert!(!net.delivers(1, 3, draw) && net.delivers(3, 1, draw));
    }
}

#[test]
fn stopped_clocks_stand() {
    let mut clock = ClockSim::new();
    clock.set_offset(1);
    clock.freeze(5);
    assert_eq!(clock.now(5), 1_000_005);
    assert_eq!(clock.now(u128::MAX / 2), 1_000_005);
}

#[test]
fn heartbeats_prevent_elections() {
    let tick = TickConfig::default();
    let mut timer = ElectionTimer::new(0, 150);
    for now in (100..10_000).step_by(100) {
        assert_eq!(timer.fire(&tick, Role::Follower, now, 50, 150), TimerAction::Wait);
    }
}
