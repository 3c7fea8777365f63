//! A node: elections, replication, reads, transfers, membership.

use raft::consensus::leadership_transfer::TransferError;
use raft::consensus::membership::{ClusterConfig, ConfigChange, JointConfigData, MembershipError};
use raft::consensus::message::{VoteResponse, 
    AppendRequest, EntryType, LogEntry, ProposalResult, TimeoutNow, VoteRequest,
};
use raft::consensus::node::{DecodedConfig, NodeConfig, RaftNode};
use raft::consensus::rpc::{PeerClient, RaftRpcServer};
use raft::server::server::take_snapshot_reply;
use raft::consensus::state::{PersistentState, Role};
use raft::consensus::tick::TickConfig;
use std::time::{Duration, Instant};

fn config(id: u64, peers: Vec<u64>) -> NodeConfig {
    NodeConfig { id, peers, data_dir: format!("node-{}", id), tick_config: TickConfig::default() }
}

fn make_node(id: u64, peers: Vec<u64>) -> RaftNode {
    RaftNode::new(config(id, peers), PersistentState::default(), vec![]).unwrap()
}

fn make_leader() -> RaftNode {
    let mut node = make_node(1, vec![2, 3]);
    node.start_election();
    node.become_leader();
    assert_eq!(node.role(), Role::Leader);
    node
}

fn encode_joint(_: &JointConfigData) -> Vec<u8> {
    b"joint".to_vec()
}

fn add(id: u64) -> ConfigChange {
    ConfigChange::AddNode { id, address: format!("127.0.0.1:{}", 5000 + id) }
}

fn heartbeat(term: u64, leader_id: u64) -> AppendRequest {
    AppendRequest {
        term,
        leader_id,
        prev_log_index: 0,
        prev_log_term: 0,
        entries: vec![],
        leader_commit: 0,
    }
}

#[test]
fn initial_state() {
    let node = make_node(1, vec![2, 3]);
    assert_eq!(node.role(), Role::Follower);
    assert_eq!(node.term(), 0);
    assert_eq!(node.leader_id(), None);
    assert_eq!(node.cluster_size(), 3);
}

#[test]
fn single_node_election() {
    let mut node = make_node(1, vec![]);
    let requests = node.start_pre_vote();
    assert!(requests.is_empty());
    assert!(node.pre_vote_has_quorum());
    let requests = node.start_election();
    assert!(requests.is_empty());
    assert_eq!(node.role(), Role::Candidate);
    if node.pre_vote_has_quorum() {
        node.become_leader();
    }
    assert_eq!(node.role(), Role::Leader);
    assert_eq!(node.leader_id(), Some(1));
}

#[test]
fn three_node_election() {
    let mut node1 = make_node(1, vec![2, 3]);
    let mut node2 = make_node(2, vec![1, 3]);
    let mut node3 = make_node(3, vec![1, 2]);
    let pre_vote_requests = node1.start_pre_vote();
    assert_eq!(pre_vote_requests.len(), 2);
    let resp2 = node2.handle_vote_request(pre_vote_requests[0].1);
    let resp3 = node3.handle_vote_request(pre_vote_requests[1].1);
    assert!(resp2.vote_granted);
    assert!(resp3.vote_granted);
    node1.handle_vote_response(2, resp2, true);
    assert!(node1.pre_vote_has_quorum());
    let vote_requests = node1.start_election();
    assert_eq!(vote_requests.len(), 2);
    assert_eq!(node1.term(), 1);
    let resp2 = node2.handle_vote_request(vote_requests[0].1);
    assert!(resp2.vote_granted);
    let became_leader = node1.handle_vote_response(2, resp2, false);
    assert!(became_leader);
    assert_eq!(node1.role(), Role::Leader);
    assert_eq!(node1.term(), 1);
}

#[test]
fn reject_vote_stale_term() {
    let saved = PersistentState { current_term: 5, voted_for: None };
    let mut node = RaftNode::new(config(1, vec![2]), saved, vec![]).unwrap();
    let req = VoteRequest {
        term: 3,
        candidate_id: 2,
        last_log_index: 0,
        last_log_term: 0,
        is_pre_vote: false,
    };
    let resp = node.handle_vote_request(req);
    assert!(!resp.vote_granted);
    assert_eq!(resp.term, 5);
}

#[test]
fn step_down_on_higher_term() {
    let mut node = make_leader();
    node.handle_append_entries(heartbeat(5, 2));
    assert_eq!(node.role(), Role::Follower);
    assert_eq!(node.term(), 5);
    assert_eq!(node.leader_id(), Some(2));
}

#[test]
fn log_replication() {
    let mut leader = make_leader();
    let mut follower = make_node(2, vec![1, 3]);
    let index = leader.propose(b"hello".to_vec()).unwrap();
    assert!(index > 0);
    let requests = leader.create_append_requests();
    assert_eq!(requests.len(), 2);
    let (_, req) = requests.into_iter().find(|(id, _)| *id == 2).unwrap();
    let resp = follower.handle_append_entries(req);
    assert!(resp.success);
    leader.handle_append_response(2, resp);
    assert!(leader.commit_index() > 0);
    let committed = leader.take_committed_entries();
    assert_eq!(committed.last().unwrap().data, b"hello");
    assert!(leader.take_committed_entries().is_empty());
}

#[test]
fn append_entries_consistency_check() {
    let mut follower = make_node(1, vec![2]);
    let req = AppendRequest {
        term: 1,
        leader_id: 2,
        prev_log_index: 5,
        prev_log_term: 1,
        entries: vec![],
        leader_commit: 0,
    };
    let resp = follower.handle_append_entries(req);
    assert!(!resp.success);
    let req = AppendRequest {
        term: 1,
        leader_id: 2,
        prev_log_index: 0,
        prev_log_term: 0,
        entries: vec![LogEntry {
            index: 1,
            term: 1,
            data: b"first".to_vec(),
            entry_type: EntryType::Normal,
        }],
        leader_commit: 0,
    };
    let resp = follower.handle_append_entries(req);
    assert!(resp.success);
    assert_eq!(resp.match_index, 1);
}

#[test]
fn read_index_single_node() {
    let mut node = make_node(1, vec![]);
    node.start_election();
    node.become_leader();
    let (id, _read_idx) = node.request_read_index().unwrap();
    assert!(node.is_read_index_confirmed(id));
}

#[test]
fn read_index_three_node_quorum() {
    let mut leader = make_leader();
    let (id, _read_idx) = leader.request_read_index().unwrap();
    assert!(!leader.is_read_index_confirmed(id));
    leader.read_index_ack(2);
    assert!(leader.is_read_index_confirmed(id));
}

#[test]
fn read_index_rejected_on_follower() {
    let mut node = make_node(1, vec![2, 3]);
    assert!(node.request_read_index().is_err());
}

#[test]
fn read_index_cleared_on_step_down() {
    let mut leader = make_leader();
    let (id, _) = leader.request_read_index().unwrap();
    assert!(!leader.is_read_index_confirmed(id));
    leader.handle_append_entries(heartbeat(10, 2));
    assert_eq!(leader.role(), Role::Follower);
    assert!(!leader.is_read_index_confirmed(id));
    assert_eq!(leader.take_read_index(id), None);
}

#[test]
fn transfer_leadership_basic() {
    let mut leader = make_leader();
    assert!(leader.transfer_leadership(2).is_ok());
    assert!(leader.is_transfer_in_progress());
}

#[test]
fn transfer_rejects_proposals() {
    let mut leader = make_leader();
    leader.transfer_leadership(2).unwrap();
    let result = leader.propose(b"data".to_vec());
    assert_eq!(result, Err(ProposalResult::TransferInProgress));
}

#[test]
fn transfer_rejects_non_leader() {
    let mut node = make_node(1, vec![2, 3]);
    assert_eq!(node.transfer_leadership(2), Err(TransferError::NotLeader));
}

#[test]
fn transfer_rejects_self() {
    let mut leader = make_leader();
    assert_eq!(leader.transfer_leadership(1), Err(TransferError::AlreadyLeader));
}

#[test]
fn transfer_rejects_unknown_target() {
    let mut leader = make_leader();
    assert_eq!(leader.transfer_leadership(99), Err(TransferError::TargetNotInCluster));
}

#[test]
fn transfer_rejects_duplicate() {
    let mut leader = make_leader();
    leader.transfer_leadership(2).unwrap();
    assert_eq!(leader.transfer_leadership(3), Err(TransferError::AlreadyInProgress));
}

fn catch_up(leader: &mut RaftNode, follower: &mut RaftNode, id: u64) {
    let requests = leader.create_append_requests();
    let (_, req) = requests.into_iter().find(|(peer, _)| *peer == id).unwrap();
    let resp = follower.handle_append_entries(req);
    leader.handle_append_response(id, resp);
}

#[test]
fn transfer_timeout_now_sent_when_caught_up() {
    let mut leader = make_leader();
    let mut follower = make_node(2, vec![1, 3]);
    catch_up(&mut leader, &mut follower, 2);
    leader.transfer_leadership(2).unwrap();
    let target = leader.check_transfer_progress();
    assert_eq!(target, Some(2));
    assert_eq!(leader.check_transfer_progress(), None);
}

#[test]
fn transfer_timeout_now_not_sent_when_behind() {
    let mut leader = make_leader();
    leader.propose(b"data1".to_vec()).unwrap();
    leader.propose(b"data2".to_vec()).unwrap();
    leader.transfer_leadership(2).unwrap();
    assert_eq!(leader.check_transfer_progress(), None);
}

#[test]
fn handle_timeout_now_starts_election() {
    let mut follower = make_node(2, vec![1, 3]);
    let msg = TimeoutNow { term: 1, leader_id: 1 };
    let vote_requests = follower.handle_timeout_now(msg);
    assert_eq!(follower.role(), Role::Candidate);
    assert_eq!(follower.term(), 1);
    assert_eq!(vote_requests.len(), 2);
    for (_, req) in &vote_requests {
        assert!(!req.is_pre_vote);
    }
}

#[test]
fn transfer_cleared_on_step_down() {
    let mut leader = make_leader();
    leader.transfer_leadership(2).unwrap();
    assert!(leader.is_transfer_in_progress());
    leader.handle_append_entries(heartbeat(10, 2));
    assert!(!leader.is_transfer_in_progress());
}

#[test]
fn transfer_timeout_aborts() {
    let mut leader = make_leader();
    leader.transfer_leadership(2).unwrap();
    assert!(leader.is_transfer_in_progress());
    let start = Instant::now();
    while start.elapsed() < Duration::from_millis(2) {}
    let aborted = leader.check_transfer_timeout(0);
    assert!(aborted);
    assert!(!leader.is_transfer_in_progress());
}

#[test]
fn propose_add_node() {
    let mut leader = make_leader();
    let index = leader
        .propose_config_change(
            ConfigChange::AddNode { id: 4, address: "127.0.0.1:5004".to_string() },
            encode_joint,
        )
        .unwrap();
    assert!(index > 0);
    let membership = leader.membership();
    assert!(membership.in_joint_consensus());
}

#[test]
fn propose_remove_node() {
    let mut leader = make_leader();
    let index =
        leader.propose_config_change(ConfigChange::RemoveNode { id: 3 }, encode_joint).unwrap();
    assert!(index > 0);
    let membership = leader.membership();
    assert!(membership.in_joint_consensus());
}

#[test]
fn config_change_rejected_on_follower() {
    let mut node = make_node(1, vec![2, 3]);
    let result = node.propose_config_change(add(4), encode_joint);
    assert_eq!(result, Err(MembershipError::NotLeader));
}

#[test]
fn config_change_rejected_concurrent() {
    let mut leader = make_leader();
    leader.propose_config_change(add(4), encode_joint).unwrap();
    let result = leader.propose_config_change(add(5), encode_joint);
    assert_eq!(result, Err(MembershipError::ChangeInProgress));
}

#[test]
fn joint_quorum_during_add() {
    let mut leader = make_leader();
    let mut follower2 = make_node(2, vec![1, 3]);
    let mut follower3 = make_node(3, vec![1, 2]);
    leader.propose_config_change(add(4), encode_joint).unwrap();
    catch_up(&mut leader, &mut follower2, 2);
    assert_eq!(leader.commit_index(), 0);
    catch_up(&mut leader, &mut follower3, 3);
    assert!(leader.commit_index() > 0);
}

#[test]
fn membership_abort_on_step_down() {
    let mut leader = make_leader();
    leader.propose_config_change(add(4), encode_joint).unwrap();
    assert!(leader.membership().in_joint_consensus());
    leader.handle_append_entries(heartbeat(10, 2));
    let membership = leader.membership();
    assert!(!membership.in_joint_consensus());
    assert!(!membership.change_in_progress);
}

#[test]
fn committed_joint_phase_is_ended() {
    let mut leader = make_leader();
    leader.propose_config_change(add(4), encode_joint).unwrap();
    let joint = JointConfigData {
        old: leader.membership().current.copied(),
        new: leader.membership().pending.unwrap(),
    };
    let applied = leader
        .apply_config_change(DecodedConfig::Joint(joint), |_: &ClusterConfig| b"final".to_vec())
        .unwrap();
    assert_eq!(applied.len(), 4);
    assert!(!leader.membership().in_joint_consensus());
    assert!(leader.membership().is_voter(4));
}

#[test]
fn full_leadership_transfer_flow() {
    let mut leader = make_leader();
    let mut target = make_node(2, vec![1, 3]);
    let mut node3 = make_node(3, vec![1, 2]);
    catch_up(&mut leader, &mut target, 2);
    leader.transfer_leadership(2).unwrap();
    let transfer_target = leader.check_transfer_progress();
    assert_eq!(transfer_target, Some(2));
    let msg = TimeoutNow { term: leader.term(), leader_id: 1 };
    let vote_requests = target.handle_timeout_now(msg);
    assert_eq!(target.role(), Role::Candidate);
    let (_, vote_req) = vote_requests.iter().find(|(id, _)| *id == 3).unwrap();
    let resp = node3.handle_vote_request(*vote_req);
    assert!(resp.vote_granted);
    let became_leader = target.handle_vote_response(3, resp, false);
    assert!(became_leader);
    assert_eq!(target.role(), Role::Leader);
    let new_term = target.term();
    leader.handle_append_entries(heartbeat(new_term, 2));
    assert_eq!(leader.role(), Role::Follower);
    assert_eq!(leader.leader_id(), Some(2));
}

#[test]
fn term_and_vote_are_handed_out_to_be_saved() {
    let mut node = make_node(1, vec![2, 3]);
    assert_eq!(node.take_unsaved(), None);
    node.start_election();
    let saved = node.take_unsaved().unwrap();
    assert_eq!(saved, PersistentState { current_term: 1, voted_for: Some(1) });
    assert_eq!(node.take_unsaved(), None);
    let mut again = RaftNode::new(config(1, vec![2, 3]), saved, vec![]).unwrap();
    let other = VoteRequest {
        term: 1,
        candidate_id: 2,
        last_log_index: 9,
        last_log_term: 9,
        is_pre_vote: false,
    };
    assert!(!again.handle_vote_request(other).vote_granted);
}

#[test]
fn log_survives_a_restart() {
    let mut leader = make_leader();
    leader.propose(b"kept".to_vec()).unwrap();
    let wal = leader.take_wal();
    assert!(leader.take_wal().is_empty());
    let saved = leader.take_unsaved().unwrap();
    let mut again = RaftNode::new(config(1, vec![2, 3]), saved, wal).unwrap();
    let requests = again.start_pre_vote();
    assert_eq!(requests[0].1.last_log_index, 2);
    assert_eq!(requests[0].1.last_log_term, 1);
}

#[test]
fn snapshots_bring_a_node_up_to_date() {
    let mut leader = make_leader();
    let mut follower = make_node(2, vec![1, 3]);
    assert!(leader.trigger_snapshot(b"state").is_none());
    leader.propose(b"x".to_vec()).unwrap();
    catch_up(&mut leader, &mut follower, 2);
    let meta = leader.trigger_snapshot(b"state").unwrap();
    assert_eq!(meta.last_included_index, 2);
    assert_eq!(meta.checksum, crc32fast::hash(b"state"));
    leader.snapshot_stored(&meta);
    assert_eq!(leader.snapshot_index(), 2);
    let mut late = make_node(3, vec![1, 2]);
    assert!(late.wants_snapshot(1, &meta));
    assert_eq!(late.handle_install_snapshot(1, 1, &meta, true), 1);
    assert_eq!(late.commit_index(), 2);
    assert_eq!(late.last_applied(), 2);
    assert!(!late.wants_snapshot(1, &meta));
}

#[test]
fn peers_behind_the_snapshot_get_it() {
    let mut leader = make_leader();
    let mut follower = make_node(2, vec![1, 3]);
    leader.propose(b"x".to_vec()).unwrap();
    catch_up(&mut leader, &mut follower, 2);
    let meta = leader.trigger_snapshot(b"state").unwrap();
    leader.snapshot_stored(&meta);
    assert_eq!(leader.peers_behind(), vec![3]);
    let to: Vec<u64> = leader.create_append_requests().into_iter().map(|(p, _)| p).collect();
    assert_eq!(to, vec![2]);
    let mut late = make_node(3, vec![1, 2]);
    let server = RaftRpcServer::new();
    let answer = server.install_snapshot(&mut late, 1, 1, &meta, true);
    take_snapshot_reply(&mut leader, 3, meta.last_included_index, Some(answer));
    assert!(leader.peers_behind().is_empty());
    leader.propose(b"y".to_vec()).unwrap();
    catch_up(&mut leader, &mut late, 3);
    assert_eq!(late.last_log_index(), 3);
    take_snapshot_reply(&mut leader, 3, 2, Some(9));
    assert_eq!(leader.term(), 9);
    assert_eq!(leader.role(), Role::Follower);
}

#[test]
fn entries_arrive_as_they_were_sent() {
    let mut leader = make_leader();
    leader.propose(b"hello".to_vec()).unwrap();
    leader.propose_config_change(add(4), encode_joint).unwrap();
    let (id, request) = leader.create_append_requests().into_iter().next().unwrap();
    assert_eq!(id, 2);
    let wire = PeerClient::new(2, "http://node-2".to_string()).append_entries(&request);
    let types: Vec<i32> = wire.entries.iter().map(|e| e.entry_type).collect();
    assert_eq!(types, vec![2, 0, 1]);
    let server = RaftRpcServer::new();
    let mut follower = make_node(2, vec![1, 3]);
    let resp = server.append_entries(&mut follower, &wire);
    assert!(resp.success);
    assert_eq!(resp.match_index, 3);
    let refused = server.transfer_leadership(&mut follower, 1).unwrap_err();
    assert_eq!(refused.message, "NotLeader");
    assert_eq!(server.timeout_now(&mut follower, TimeoutNow { term: 1, leader_id: 1 }), 2);
}

#[test]
fn elections_during_a_change_need_both_majorities() {
    let mut node = make_leader();
    node.propose_config_change(add(4), encode_joint).unwrap();
    assert!(node.start_election().len() == 2);
    let yes = VoteResponse { term: node.term(), vote_granted: true };
    assert!(!node.handle_vote_response(2, yes, false));
    assert_eq!(node.role(), Role::Candidate);
    assert!(node.handle_vote_response(3, yes, false));
    assert_eq!(node.role(), Role::Leader);
}
