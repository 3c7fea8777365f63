//! Votes, the log, membership, reads, transfers and snapshots.

use raft::consensus::election::{is_log_up_to_date, should_grant_vote};
use raft::consensus::leadership_transfer::TransferState;
use raft::consensus::log::RaftLog;
use raft::consensus::membership::{
    ClusterConfig, ConfigChange, JointConfigData, MemberInfo, MembershipError, MembershipState,
};
use raft::consensus::message::{EntryType, LogEntry, VoteRequest};
use raft::consensus::read_index::ReadIndexState;
use raft::consensus::snapshot::{SnapshotManager, SnapshotMetadata};
use raft::consensus::state::{PersistentState, RaftState, Role};
use raft::consensus::tick::TickConfig;
use raft::error::Error;
use serde_json::Value;
use std::collections::{BTreeMap, HashSet};
use std::time::{Duration, Instant};

fn make_state(term: u64, voted_for: Option<u64>) -> RaftState {
    RaftState {
        id: 1,
        role: Role::Follower,
        persistent: PersistentState { current_term: term, voted_for },
        leader_id: None,
        commit_index: 0,
        last_applied: 0,
    }
}

/// Lets some time go by.
fn pause(length: Duration) {
    let start = Instant::now();
    while start.elapsed() < length {}
}

#[test]
fn grant_vote_to_up_to_date_candidate() {
    let state = make_state(1, None);
    let req = VoteRequest {
        term: 2,
        candidate_id: 2,
        last_log_index: 5,
        last_log_term: 1,
        is_pre_vote: false,
    };
    assert!(should_grant_vote(&state, &req, 5, 1));
}

#[test]
fn reject_stale_term() {
    let state = make_state(3, None);
    let req = VoteRequest {
        term: 2,
        candidate_id: 2,
        last_log_index: 10,
        last_log_term: 2,
        is_pre_vote: false,
    };
    assert!(!should_grant_vote(&state, &req, 5, 1));
}

#[test]
fn reject_already_voted() {
    let state = make_state(2, Some(3));
    let req = VoteRequest {
        term: 2,
        candidate_id: 2,
        last_log_index: 10,
        last_log_term: 2,
        is_pre_vote: false,
    };
    assert!(!should_grant_vote(&state, &req, 5, 1));
}

#[test]
fn grant_same_candidate() {
    let state = make_state(2, Some(2));
    let req = VoteRequest {
        term: 2,
        candidate_id: 2,
        last_log_index: 10,
        last_log_term: 2,
        is_pre_vote: false,
    };
    assert!(should_grant_vote(&state, &req, 5, 1));
}

#[test]
fn reject_outdated_log() {
    let state = make_state(1, None);
    let req = VoteRequest {
        term: 2,
        candidate_id: 2,
        last_log_index: 3,
        last_log_term: 1,
        is_pre_vote: false,
    };
    assert!(!should_grant_vote(&state, &req, 5, 2));
}

#[test]
fn log_up_to_date_checks() {
    assert!(is_log_up_to_date(3, 1, 2, 100));
    assert!(!is_log_up_to_date(1, 100, 2, 1));
    assert!(is_log_up_to_date(2, 10, 2, 5));
    assert!(!is_log_up_to_date(2, 3, 2, 5));
    assert!(is_log_up_to_date(2, 5, 2, 5));
}

#[test]
fn transfer_state_creation() {
    let state = TransferState::new(2);
    assert_eq!(state.target, 2);
    assert!(!state.timeout_now_sent);
}

#[test]
fn transfer_not_expired_immediately() {
    let state = TransferState::new(2);
    assert!(!state.is_expired(1000));
}

#[test]
fn transfer_expires() {
    let state = TransferState::new(2);
    pause(Duration::from_millis(2));
    assert!(state.is_expired(0));
    let later = state.started_at + 5_999_999;
    assert!(!state.is_expired_at(later, 5));
    assert!(state.is_expired_at(later + 1, 5));
    assert!(!state.is_expired_at(0, 0));
}

#[test]
fn election_timeouts_stay_in_their_range() {
    let config = TickConfig::default();
    let mut seen = HashSet::new();
    for _ in 0..1000 {
        let timeout = config.random_election_timeout();
        assert!((150..=300).contains(&timeout));
        seen.insert(timeout);
    }
    assert!(seen.len() > 10);
    assert_eq!(config.election_timeout_max_ms(), 300);
    assert_eq!(config.heartbeat_interval, 50);
}

fn make_entry(index: u64, term: u64) -> LogEntry {
    LogEntry {
        index,
        term,
        data: format!("entry-{}", index).into_bytes(),
        entry_type: EntryType::Normal,
    }
}

fn new_log() -> RaftLog {
    RaftLog::open("raft.wal".to_string(), vec![]).unwrap()
}

#[test]
fn basic_append_and_get() {
    let mut log = new_log();
    log.append(vec![make_entry(1, 1), make_entry(2, 1), make_entry(3, 2)]).unwrap();
    assert_eq!(log.last_index(), 3);
    assert_eq!(log.last_term(), 2);
    assert_eq!(log.get(1).unwrap().term, 1);
    assert_eq!(log.get(3).unwrap().term, 2);
    assert!(log.get(0).is_none());
    assert!(log.get(4).is_none());
}

#[test]
fn term_at() {
    let mut log = new_log();
    log.append(vec![make_entry(1, 1), make_entry(2, 3)]).unwrap();
    assert_eq!(log.term_at(0), Some(0));
    assert_eq!(log.term_at(1), Some(1));
    assert_eq!(log.term_at(2), Some(3));
    assert_eq!(log.term_at(3), None);
}

#[test]
fn match_term_check() {
    let mut log = new_log();
    log.append(vec![make_entry(1, 1), make_entry(2, 2)]).unwrap();
    assert!(log.match_term(0, 0));
    assert!(log.match_term(1, 1));
    assert!(!log.match_term(1, 2));
    assert!(log.match_term(2, 2));
}

#[test]
fn entries_from() {
    let mut log = new_log();
    log.append(vec![make_entry(1, 1), make_entry(2, 1), make_entry(3, 2), make_entry(4, 2)])
        .unwrap();
    let from_3 = log.entries_from(3);
    assert_eq!(from_3.len(), 2);
    assert_eq!(from_3[0].index, 3);
    assert_eq!(from_3[1].index, 4);
}

#[test]
fn truncate_after() {
    let mut log = new_log();
    log.append(vec![make_entry(1, 1), make_entry(2, 1), make_entry(3, 2)]).unwrap();
    log.truncate_after(1);
    assert_eq!(log.last_index(), 1);
    assert_eq!(log.len(), 1);
}

#[test]
fn crash_recovery() {
    let bytes = {
        let mut log = new_log();
        log.append(vec![make_entry(1, 1), make_entry(2, 2)]).unwrap();
        log.sync()
    };
    {
        let log = RaftLog::open("raft.wal".to_string(), bytes).unwrap();
        assert_eq!(log.last_index(), 2);
        assert_eq!(log.get(1).unwrap().term, 1);
        assert_eq!(log.get(2).unwrap().term, 2);
        assert_eq!(log.get(2).unwrap().data, b"entry-2");
    }
}

#[test]
fn compact_snapshot() {
    let mut log = new_log();
    log.append(vec![make_entry(1, 1), make_entry(2, 1), make_entry(3, 2), make_entry(4, 2)])
        .unwrap();
    log.compact(2, 1);
    assert_eq!(log.snapshot_index(), 2);
    assert_eq!(log.snapshot_term(), 1);
    assert_eq!(log.len(), 2);
    assert!(log.get(1).is_none());
    assert!(log.get(2).is_none());
    assert_eq!(log.get(3).unwrap().term, 2);
    assert_eq!(log.last_index(), 4);
}

#[test]
fn empty_log() {
    let log = new_log();
    assert_eq!(log.last_index(), 0);
    assert_eq!(log.last_term(), 0);
    assert!(log.is_empty());
}

#[test]
fn log_entries_have_the_expected_bytes() {
    let entry = LogEntry {
        index: 7,
        term: 3,
        data: b"ab".to_vec(),
        entry_type: EntryType::Noop,
    };
    let mut expected = 7u64.to_le_bytes().to_vec();
    expected.extend_from_slice(&3u64.to_le_bytes());
    expected.push(2);
    expected.extend_from_slice(&2u32.to_le_bytes());
    expected.extend_from_slice(b"ab");
    assert_eq!(RaftLog::encode_entry(&entry), expected);
    assert_eq!(RaftLog::decode_entry(&expected).unwrap(), entry);
    expected[16] = 9;
    let why = RaftLog::decode_entry(&expected).unwrap_err().message();
    assert_eq!(why, "corruption: unknown entry type: 9");
    let why = RaftLog::decode_entry(&expected[..20]).unwrap_err().message();
    assert_eq!(why, "corruption: log entry too short");
}

fn make_config(ids: &[u64]) -> ClusterConfig {
    ClusterConfig::new(
        ids.iter()
            .map(|&id| MemberInfo { id, address: format!("127.0.0.1:{}", 5000 + id) })
            .collect(),
    )
}

fn add(id: u64) -> ConfigChange {
    ConfigChange::AddNode { id, address: format!("127.0.0.1:{}", 5000 + id) }
}

#[test]
fn initial_membership() {
    let state = MembershipState::new(1, &[2, 3]);
    assert_eq!(state.current.len(), 3);
    assert!(!state.in_joint_consensus());
    assert!(state.current.contains(1));
    assert!(state.current.contains(2));
    assert!(state.current.contains(3));
}

#[test]
fn quorum_three_nodes() {
    let state = MembershipState::from_config(make_config(&[1, 2, 3]));
    let mut voters = HashSet::new();
    voters.insert(1);
    assert!(!state.has_quorum(&voters));
    voters.insert(2);
    assert!(state.has_quorum(&voters));
    voters.insert(3);
    assert!(state.has_quorum(&voters));
}

#[test]
fn add_node_joint_consensus() {
    let mut state = MembershipState::from_config(make_config(&[1, 2, 3]));
    let result = state.begin_change(&ConfigChange::AddNode {
        id: 4,
        address: "127.0.0.1:5004".to_string(),
    });
    assert!(result.is_ok());
    assert!(state.in_joint_consensus());
    let joint = result.unwrap();
    assert_eq!(joint.old.len(), 3);
    assert_eq!(joint.new.len(), 4);
    let mut voters = HashSet::new();
    voters.insert(1);
    voters.insert(2);
    assert!(!state.has_quorum(&voters));
    voters.insert(4);
    assert!(state.has_quorum(&voters));
}

#[test]
fn remove_node_joint_consensus() {
    let mut state = MembershipState::from_config(make_config(&[1, 2, 3]));
    let result = state.begin_change(&ConfigChange::RemoveNode { id: 3 });
    assert!(result.is_ok());
    assert!(state.in_joint_consensus());
    let joint = result.unwrap();
    assert_eq!(joint.old.len(), 3);
    assert_eq!(joint.new.len(), 2);
    let mut voters = HashSet::new();
    voters.insert(1);
    voters.insert(2);
    assert!(state.has_quorum(&voters));
}

#[test]
fn finalize_joint_consensus() {
    let mut state = MembershipState::from_config(make_config(&[1, 2, 3]));
    state.begin_change(&add(4)).unwrap();
    let new_config = state.finalize_joint().unwrap();
    assert_eq!(new_config.len(), 4);
    assert!(!state.in_joint_consensus());
    assert!(!state.change_in_progress);
    assert_eq!(state.current.len(), 4);
}

#[test]
fn reject_concurrent_changes() {
    let mut state = MembershipState::from_config(make_config(&[1, 2, 3]));
    state.begin_change(&add(4)).unwrap();
    let result = state.begin_change(&add(5));
    assert_eq!(result, Err(MembershipError::ChangeInProgress));
}

#[test]
fn reject_add_duplicate_node() {
    let mut state = MembershipState::from_config(make_config(&[1, 2, 3]));
    let result = state.begin_change(&add(2));
    assert_eq!(result, Err(MembershipError::NodeAlreadyExists(2)));
}

#[test]
fn reject_remove_nonexistent_node() {
    let mut state = MembershipState::from_config(make_config(&[1, 2, 3]));
    let result = state.begin_change(&ConfigChange::RemoveNode { id: 99 });
    assert_eq!(result, Err(MembershipError::NodeNotFound(99)));
}

#[test]
fn reject_remove_last_node() {
    let mut state = MembershipState::from_config(make_config(&[1]));
    let result = state.begin_change(&ConfigChange::RemoveNode { id: 1 });
    assert_eq!(result, Err(MembershipError::CannotRemoveLastNode));
}

#[test]
fn abort_change() {
    let mut state = MembershipState::from_config(make_config(&[1, 2, 3]));
    state.begin_change(&add(4)).unwrap();
    assert!(state.in_joint_consensus());
    state.abort_change();
    assert!(!state.in_joint_consensus());
    assert!(!state.change_in_progress);
    assert_eq!(state.current.len(), 3);
}

/// A configuration as the JSON text of a log entry.
fn config_json(config: &ClusterConfig) -> Value {
    let mut members = Vec::new();
    for m in &config.members {
        let mut fields = serde_json::Map::new();
        fields.insert("id".to_string(), Value::from(m.id));
        fields.insert("address".to_string(), Value::from(m.address.clone()));
        members.push(Value::Object(fields));
    }
    let mut fields = serde_json::Map::new();
    fields.insert("members".to_string(), Value::Array(members));
    Value::Object(fields)
}

fn config_from(json: &Value) -> ClusterConfig {
    let members = json["members"].as_array().unwrap();
    ClusterConfig::new(
        members
            .iter()
            .map(|m| MemberInfo {
                id: m["id"].as_u64().unwrap(),
                address: m["address"].as_str().unwrap().to_string(),
            })
            .collect(),
    )
}

#[test]
fn joint_config_data_roundtrip() {
    let data = JointConfigData { old: make_config(&[1, 2, 3]), new: make_config(&[1, 2, 3, 4]) };
    let mut fields = serde_json::Map::new();
    fields.insert("old".to_string(), config_json(&data.old));
    fields.insert("new".to_string(), config_json(&data.new));
    let encoded = serde_json::to_vec(&Value::Object(fields)).unwrap();
    let json: Value = serde_json::from_slice(&encoded).unwrap();
    let decoded = JointConfigData { old: config_from(&json["old"]), new: config_from(&json["new"]) };
    assert_eq!(decoded.old, data.old);
    assert_eq!(decoded.new, data.new);
}

#[test]
fn all_voters_during_joint() {
    let mut state = MembershipState::from_config(make_config(&[1, 2, 3]));
    state.begin_change(&add(4)).unwrap();
    let voters = state.all_voters();
    assert_eq!(voters.len(), 4);
    assert!(voters.contains(&4));
}

#[test]
fn five_node_quorum() {
    let state = MembershipState::from_config(make_config(&[1, 2, 3, 4, 5]));
    let mut voters = HashSet::new();
    voters.insert(1);
    voters.insert(2);
    assert!(!state.has_quorum(&voters));
    voters.insert(3);
    assert!(state.has_quorum(&voters));
}

#[test]
fn single_node_read_index() {
    let mut state = ReadIndexState::new();
    let id = state.register(10, 1, 1);
    assert!(state.is_confirmed(id));
    assert_eq!(state.take_confirmed(id), Some(10));
}

#[test]
fn three_node_read_index() {
    let mut state = ReadIndexState::new();
    let id = state.register(5, 1, 3);
    assert!(!state.is_confirmed(id));
    let confirmed = state.record_ack(2);
    assert_eq!(confirmed, vec![id]);
    assert!(state.is_confirmed(id));
    assert_eq!(state.take_confirmed(id), Some(5));
}

#[test]
fn five_node_read_index() {
    let mut state = ReadIndexState::new();
    let id = state.register(7, 1, 5);
    assert!(!state.is_confirmed(id));
    state.record_ack(2);
    assert!(!state.is_confirmed(id));
    let confirmed = state.record_ack(3);
    assert_eq!(confirmed, vec![id]);
    assert!(state.is_confirmed(id));
}

#[test]
fn multiple_pending_reads() {
    let mut state = ReadIndexState::new();
    let id1 = state.register(5, 1, 3);
    let id2 = state.register(8, 1, 3);
    assert_eq!(state.pending_count(), 2);
    let confirmed = state.record_ack(2);
    assert_eq!(confirmed.len(), 2);
    assert!(confirmed.contains(&id1));
    assert!(confirmed.contains(&id2));
}

#[test]
fn clear_on_step_down() {
    let mut state = ReadIndexState::new();
    state.register(5, 1, 3);
    state.register(8, 1, 3);
    assert_eq!(state.pending_count(), 2);
    state.clear();
    assert_eq!(state.pending_count(), 0);
}

#[test]
fn duplicate_acks_ignored() {
    let mut state = ReadIndexState::new();
    let id = state.register(5, 1, 3);
    state.record_ack(2);
    assert!(state.is_confirmed(id));
    state.record_ack(2);
    assert!(state.is_confirmed(id));
}

#[test]
fn take_removes_request() {
    let mut state = ReadIndexState::new();
    let id = state.register(5, 1, 1);
    assert!(state.is_confirmed(id));
    assert_eq!(state.take_confirmed(id), Some(5));
    assert_eq!(state.take_confirmed(id), None);
    assert_eq!(state.pending_count(), 0);
}

/// A snapshot directory in memory.
struct Snapshots {
    data: BTreeMap<String, Vec<u8>>,
    meta: BTreeMap<String, SnapshotMetadata>,
}

impl Snapshots {
    fn new() -> Self {
        Snapshots { data: BTreeMap::new(), meta: BTreeMap::new() }
    }

    fn names(&self) -> Vec<String> {
        self.data.keys().chain(self.meta.keys()).cloned().collect()
    }

    fn store(&mut self, meta: &SnapshotMetadata, data: &[u8]) {
        let index = meta.last_included_index;
        self.data.insert(SnapshotManager::snapshot_data_path(index), data.to_vec());
        self.meta.insert(SnapshotManager::snapshot_meta_path(index), *meta);
        for name in SnapshotManager::cleanup_old_snapshots(&self.names(), index) {
            self.data.remove(&name);
            self.meta.remove(&name);
        }
    }

    fn create(&mut self, index: u64, term: u64, data: &[u8]) -> SnapshotMetadata {
        let meta = SnapshotManager::create_snapshot(index, term, data);
        self.store(&meta, data);
        meta
    }

    fn load_latest(&self) -> Result<Option<(SnapshotMetadata, Vec<u8>)>, Error> {
        let stored = SnapshotManager::find_latest_snapshot(&self.names()).map(|index| {
            let meta = self.meta[&SnapshotManager::snapshot_meta_path(index)];
            let data = self.data[&SnapshotManager::snapshot_data_path(index)].clone();
            (meta, data)
        });
        SnapshotManager::load_latest(stored)
    }
}

#[test]
fn create_and_load_snapshot() {
    let mut mgr = Snapshots::new();
    let data = b"state machine data at index 100";
    let meta = mgr.create(100, 5, data);
    assert_eq!(meta.last_included_index, 100);
    assert_eq!(meta.last_included_term, 5);
    assert_eq!(meta.size, data.len() as u64);
    let (loaded_meta, loaded_data) = mgr.load_latest().unwrap().unwrap();
    assert_eq!(loaded_meta.last_included_index, 100);
    assert_eq!(loaded_data, data);
}

#[test]
fn latest_snapshot_wins() {
    let mut mgr = Snapshots::new();
    mgr.create(50, 3, b"old");
    mgr.create(100, 5, b"new");
    let (meta, data) = mgr.load_latest().unwrap().unwrap();
    assert_eq!(meta.last_included_index, 100);
    assert_eq!(data, b"new");
}

#[test]
fn corrupt_snapshot_detected() {
    let mut mgr = Snapshots::new();
    mgr.create(100, 5, b"valid data");
    mgr.data.insert("snapshot-00000000000000000100.data".to_string(), b"corrupted!".to_vec());
    let result = mgr.load_latest();
    assert!(result.is_err());
}

#[test]
fn receive_snapshot() {
    let mut mgr = Snapshots::new();
    let data = b"received state";
    let checksum = {
        let mut h = crc32fast::Hasher::new();
        h.update(data);
        h.finalize()
    };
    let meta = SnapshotMetadata {
        last_included_index: 200,
        last_included_term: 10,
        checksum,
        size: data.len() as u64,
    };
    SnapshotManager::receive_snapshot(&meta, data).unwrap();
    mgr.store(&meta, data);
    let (loaded_meta, loaded_data) = mgr.load_latest().unwrap().unwrap();
    assert_eq!(loaded_meta.last_included_index, 200);
    assert_eq!(loaded_data, data);
}

#[test]
fn receive_bad_checksum_rejected() {
    let meta = SnapshotMetadata {
        last_included_index: 200,
        last_included_term: 10,
        checksum: 0xDEADBEEF,
        size: 5,
    };
    let result = SnapshotManager::receive_snapshot(&meta, b"data!");
    let computed = crc32fast::hash(b"data!");
    assert_eq!(
        result.unwrap_err().message(),
        format!(
            "corruption: received snapshot checksum mismatch: expected={:#010x}, computed={:#010x}",
            0xDEADBEEFu32, computed
        )
    );
}

#[test]
fn no_snapshot_returns_none() {
    let mgr = Snapshots::new();
    assert!(mgr.load_latest().unwrap().is_none());
}

#[test]
fn old_snapshots_cleaned_up() {
    let mut mgr = Snapshots::new();
    mgr.create(50, 3, b"old");
    let old_data = "snapshot-00000000000000000050.data";
    assert!(mgr.data.contains_key(old_data));
    mgr.create(100, 5, b"new");
    assert!(!mgr.data.contains_key(old_data));
}
