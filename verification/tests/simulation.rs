//! Simulated clocks, disks and networks, clusters, histories; the client.

use raft::chaos::clock::ClockSim;
use raft::chaos::disk::{DiskError, DiskSim};
use raft::chaos::harness::ChaosCluster;
use raft::chaos::history::{OpResult, OpType, Operation, OperationHistory};
use raft::chaos::network::{NetworkSim, FULL_LOSS};
use raft::client::{CallState, KvClient};
use raft::config::{RaftConfig, StorageConfig};
use raft::consensus::state::Role;
use raft::server::status::{Status, StatusCode};
use std::collections::HashMap;
use std::time::{Duration, Instant};

const MS: u128 = 1_000_000;

#[test]
fn no_skew() {
    let clock = ClockSim::new();
    let start = Instant::now();
    let before = start.elapsed().as_nanos();
    let sim_now = clock.now(start.elapsed().as_nanos());
    let after = start.elapsed().as_nanos();
    assert!(sim_now >= before);
    assert!(sim_now <= after + MS);
}

#[test]
fn positive_offset() {
    let mut clock = ClockSim::new();
    clock.set_offset(1000);
    let start = Instant::now();
    let real_now = start.elapsed().as_nanos();
    let sim_now = clock.now(start.elapsed().as_nanos());
    let diff = sim_now - real_now;
    assert!(diff >= 900 * MS);
    assert!(diff <= 1100 * MS);
}

#[test]
fn jump_forward() {
    let mut clock = ClockSim::new();
    clock.jump_forward(500);
    assert_eq!(clock.offset(), 500);
    clock.jump_forward(300);
    assert_eq!(clock.offset(), 800);
}

#[test]
fn jump_backward() {
    let mut clock = ClockSim::new();
    clock.set_offset(1000);
    clock.jump_backward(500);
    assert_eq!(clock.offset(), 500);
}

#[test]
fn freeze_and_unfreeze() {
    let mut clock = ClockSim::new();
    clock.freeze(1000);
    assert!(clock.is_frozen());
    let t1 = clock.now(2000);
    let t2 = clock.now(50 * MS);
    assert_eq!(t1, t2);
    clock.unfreeze();
    assert!(!clock.is_frozen());
    let t3 = clock.now(60 * MS);
    assert!(t3 > t2);
}

#[test]
fn reset() {
    let mut clock = ClockSim::new();
    clock.set_offset(5000);
    clock.freeze(7);
    clock.reset();
    assert_eq!(clock.offset(), 0);
    assert!(!clock.is_frozen());
}

#[test]
fn clocks_run_behind_and_wrap() {
    let mut clock = ClockSim::new();
    clock.set_offset(-3);
    assert_eq!(clock.now(10 * MS), 7 * MS);
    assert_eq!(clock.now(2 * MS), 2 * MS);
    assert_eq!(clock.elapsed_since(5 * MS, 10 * MS), 2 * MS);
    assert_eq!(clock.elapsed_since(9 * MS, 10 * MS), 0);
    clock.set_offset(i64::MAX);
    clock.jump_forward(1);
    assert_eq!(clock.offset(), i64::MIN);
    clock.jump_backward(1);
    assert_eq!(clock.offset(), i64::MAX);
    clock.set_offset(5);
    clock.jump_forward(u64::MAX);
    assert_eq!(clock.offset(), 4);
}

#[test]
fn normal_operations() {
    let mut disk = DiskSim::new();
    assert!(disk.check_write(100).is_ok());
    assert!(disk.check_read().is_ok());
}

#[test]
fn write_failure() {
    let mut disk = DiskSim::new();
    disk.fail_writes();
    assert_eq!(disk.check_write(1), Err(DiskError::WriteFailed));
    disk.restore_writes();
    assert!(disk.check_write(1).is_ok());
}

#[test]
fn read_failure() {
    let mut disk = DiskSim::new();
    disk.fail_reads();
    assert_eq!(disk.check_read(), Err(DiskError::ReadFailed));
    disk.restore_reads();
    assert!(disk.check_read().is_ok());
}

#[test]
fn disk_full() {
    let mut disk = DiskSim::new();
    disk.set_capacity(100);
    assert!(disk.check_write(50).is_ok());
    assert!(disk.check_write(50).is_ok());
    assert_eq!(
        disk.check_write(1),
        Err(DiskError::DiskFull { capacity: 100, used: 100, requested: 1 })
    );
}

#[test]
fn corruption_detection() {
    let mut disk = DiskSim::new();
    disk.inject_corruption(100, 50);
    assert!(disk.is_corrupted(100, 10));
    assert!(disk.is_corrupted(120, 50));
    assert!(disk.is_corrupted(90, 20));
    assert!(!disk.is_corrupted(0, 50));
    assert!(!disk.is_corrupted(200, 50));
}

#[test]
fn io_latency() {
    let mut disk = DiskSim::new();
    assert_eq!(Duration::from_micros(disk.io_latency()), Duration::ZERO);
    disk.set_io_latency_us(5000);
    assert_eq!(Duration::from_micros(disk.io_latency()), Duration::from_millis(5));
}

#[test]
fn reset_clears_everything() {
    let mut disk = DiskSim::new();
    disk.fail_writes();
    disk.fail_reads();
    disk.set_capacity(100);
    disk.inject_corruption(0, 50);
    disk.reset();
    assert!(disk.check_write(1).is_ok());
    assert!(disk.check_read().is_ok());
    assert!(!disk.is_corrupted(0, 50));
}

#[test]
fn bytes_written_tracking() {
    let mut disk = DiskSim::new();
    disk.check_write(100).unwrap();
    disk.check_write(200).unwrap();
    assert_eq!(disk.total_bytes_written(), 300);
}

#[test]
fn no_partition_delivers() {
    let net = NetworkSim::new();
    assert!(net.should_deliver(1, 2));
    assert!(net.should_deliver(2, 1));
}

#[test]
fn one_way_partition() {
    let mut net = NetworkSim::new();
    net.partition(1, 2);
    assert!(!net.should_deliver(1, 2));
    assert!(net.should_deliver(2, 1));
    assert!(net.is_partitioned(1, 2));
    assert!(!net.is_partitioned(2, 1));
}

#[test]
fn bidirectional_partition() {
    let mut net = NetworkSim::new();
    net.partition_bidirectional(1, 2);
    assert!(!net.should_deliver(1, 2));
    assert!(!net.should_deliver(2, 1));
    assert!(net.should_deliver(1, 3));
}

#[test]
fn isolate_node() {
    let mut net = NetworkSim::new();
    net.isolate(2, &[1, 2, 3]);
    assert!(!net.should_deliver(2, 1));
    assert!(!net.should_deliver(2, 3));
    assert!(!net.should_deliver(1, 2));
    assert!(!net.should_deliver(3, 2));
    assert!(net.should_deliver(1, 3));
}

#[test]
fn heal_partition() {
    let mut net = NetworkSim::new();
    net.partition_bidirectional(1, 2);
    assert!(!net.should_deliver(1, 2));
    net.heal(1, 2);
    assert!(net.should_deliver(1, 2));
    assert!(net.should_deliver(2, 1));
}

#[test]
fn heal_all() {
    let mut net = NetworkSim::new();
    net.isolate(1, &[1, 2, 3]);
    assert!(net.partition_count() > 0);
    assert_eq!(net.partition_count(), 4);
    net.heal_all();
    assert_eq!(net.partition_count(), 0);
    assert!(net.should_deliver(1, 2));
}

#[test]
fn full_loss_drops_all() {
    let mut net = NetworkSim::new();
    net.set_loss_rate(FULL_LOSS);
    let mut delivered = 0;
    for _ in 0..100 {
        if net.should_deliver(1, 2) {
            delivered += 1;
        }
    }
    assert_eq!(delivered, 0);
}

#[test]
fn zero_loss_delivers_all() {
    let mut net = NetworkSim::new();
    net.set_loss_rate(0);
    for _ in 0..100 {
        assert!(net.should_deliver(1, 2));
    }
}

#[test]
fn partial_loss() {
    let mut net = NetworkSim::new();
    net.set_loss_rate(FULL_LOSS / 2);
    let mut delivered = 0;
    for _ in 0..1000 {
        if net.should_deliver(1, 2) {
            delivered += 1;
        }
    }
    assert!(delivered > 300 && delivered < 700);
}

#[test]
fn latency_returns_duration() {
    let mut net = NetworkSim::new();
    assert_eq!(net.delivery_delay(), 0);
    net.set_latency(100);
    let mut least = u64::MAX;
    let mut most = 0;
    for _ in 0..1000 {
        let delay = net.delivery_delay();
        assert!(delay >= 80 && delay <= 120);
        least = least.min(delay);
        most = most.max(delay);
    }
    assert!(least < 100 && most > 100);
    assert_eq!(net.delay_with(0), 80);
    assert_eq!(net.delay_with(40), 120);
}

#[test]
fn draws_decide_what_is_lost() {
    let mut net = NetworkSim::new();
    net.set_loss_rate(10);
    assert!(!net.delivers(1, 2, 9));
    assert!(net.delivers(1, 2, 10));
    net.set_loss_rate(u64::MAX);
    assert!(!net.delivers(1, 2, FULL_LOSS - 1));
}

#[test]
fn create_cluster() {
    let cluster = ChaosCluster::new(3, "data");
    assert_eq!(cluster.alive_count(), 3);
    assert_eq!(cluster.node_ids().len(), 3);
    assert!(cluster.find_leader().is_none());
}

#[test]
fn elect_and_propose() {
    let mut cluster = ChaosCluster::new(3, "data");
    let leader = cluster.elect_leader(1);
    assert_eq!(leader, 1);
    assert_eq!(cluster.find_leader(), Some(1));
    let index = cluster.propose(1, b"hello".to_vec());
    assert!(index.is_some());
    let commit = cluster.replicate_and_commit(1);
    assert!(commit > 0);
}

#[test]
fn propose_and_replicate_multiple() {
    let mut cluster = ChaosCluster::new(3, "data");
    cluster.elect_leader(1);
    for i in 0..10 {
        cluster.propose(1, format!("entry-{}", i).into_bytes());
    }
    cluster.replicate(1);
    let commit = cluster.node(1).unwrap().commit_index();
    assert!(commit >= 10);
}

#[test]
fn election_fails_with_partition() {
    let mut cluster = ChaosCluster::new(3, "data");
    cluster.network.isolate(1, &[1, 2, 3]);
    let leader = cluster.elect_leader(1);
    assert_eq!(leader, 0);
}

#[test]
fn replication_survives_one_node_down() {
    let mut cluster = ChaosCluster::new(3, "data");
    cluster.elect_leader(1);
    cluster.propose(1, b"data".to_vec());
    let (killed_id, _killed_node) = cluster.kill_node(3).unwrap();
    assert_eq!(killed_id, 3);
    assert_eq!(cluster.alive_count(), 2);
    let replicated = cluster.replicate(1);
    assert!(replicated >= 1);
    let commit = cluster.node(1).unwrap().commit_index();
    assert!(commit > 0);
}

#[test]
fn kill_leader_and_reelect() {
    let mut cluster = ChaosCluster::new(3, "data");
    cluster.elect_leader(1);
    assert_eq!(cluster.find_leader(), Some(1));
    let (_id, _node) = cluster.kill_node(1).unwrap();
    assert!(cluster.find_leader().is_none());
    cluster.network.heal_all();
    let new_leader = cluster.elect_leader(2);
    assert_eq!(new_leader, 2);
}

#[test]
fn nodes_stop_and_start() {
    let mut cluster = ChaosCluster::new(3, "data");
    let (id, node) = cluster.kill_random().unwrap();
    assert!(cluster.node(id).is_none());
    assert!(cluster.kill_node(id).is_none());
    assert_eq!(cluster.network.partition_count(), 4);
    cluster.restart_node(id, node);
    assert_eq!(cluster.alive_count(), 3);
    assert_eq!(cluster.network.partition_count(), 0);
    cluster.elect_leader(1);
    assert_eq!(cluster.create_fresh_node(1).role(), Role::Follower);
    assert_eq!(cluster.node(1).unwrap().term(), 0);
    assert!(cluster.find_leader().is_none());
}

fn operation(op_type: OpType, key: &[u8], value: &[u8], time: u128) -> Operation {
    Operation {
        op_type,
        key: key.to_vec(),
        value: value.to_vec(),
        start_time: time,
        end_time: time,
        result: OpResult::Success,
    }
}

#[test]
fn operation_history_consistency() {
    let mut history = OperationHistory::new();
    let now = 1000;
    history.record(operation(OpType::Write, b"a", b"1", now));
    history.record(operation(OpType::Read, b"a", b"1", now));
    assert!(history.check_consistency().is_ok());
}

#[test]
fn operation_history_detects_stale_read() {
    let mut history = OperationHistory::new();
    let now = 1000;
    let later = now + MS;
    history.record(operation(OpType::Write, b"a", b"2", now));
    history.record(operation(OpType::Read, b"a", b"1", later));
    assert!(history.check_consistency().is_err());
    assert_eq!(
        history.check_consistency().unwrap_err(),
        "Stale read: key=\"a\" expected=\"2\" got=\"1\""
    );
}

#[test]
fn histories_are_checked_in_order_of_ending() {
    let mut history = OperationHistory::new();
    history.record(operation(OpType::Read, b"a", b"new", 30));
    history.record(operation(OpType::Write, b"a", b"new", 20));
    history.record(operation(OpType::Write, b"a", b"old", 10));
    history.record(operation(OpType::Read, b"b", b"anything", 5));
    let mut failed = operation(OpType::Write, b"a", b"lost", 25);
    failed.result = OpResult::Error("timeout".to_string());
    history.record(failed);
    assert!(history.check_consistency().is_ok());
    assert_eq!(history.successful_ops(), 4);
    assert_eq!(history.failed_ops(), 1);
    history.record(operation(OpType::Read, b"a", b"\xff\n", 40));
    assert_eq!(
        history.check_consistency().unwrap_err(),
        "Stale read: key=\"a\" expected=\"new\" got=\"\u{fffd}\\n\""
    );
}

#[test]
fn network_partition_blocks_replication() {
    let mut cluster = ChaosCluster::new(3, "data");
    cluster.elect_leader(1);
    cluster.propose(1, b"before-partition".to_vec());
    cluster.network.isolate(1, &[1, 2, 3]);
    let replicated = cluster.replicate(1);
    assert_eq!(replicated, 0);
}

#[test]
fn heal_partition_resumes_replication() {
    let mut cluster = ChaosCluster::new(3, "data");
    cluster.elect_leader(1);
    cluster.propose(1, b"data".to_vec());
    cluster.network.isolate(1, &[1, 2, 3]);
    assert_eq!(cluster.replicate(1), 0);
    cluster.network.heal_all();
    let replicated = cluster.replicate(1);
    assert!(replicated > 0);
}

#[test]
fn parse_leader_hint_from_error() {
    let status = tonic::Status::failed_precondition("not leader, leader is Some(2)");
    assert_eq!(KvClient::parse_leader_hint(status.message()), Some(2));
}

#[test]
fn parse_leader_hint_none() {
    let status = tonic::Status::failed_precondition("not leader, leader is None");
    assert_eq!(KvClient::parse_leader_hint(status.message()), None);
}

#[test]
fn calls_are_tried_again() {
    let mut nodes = HashMap::new();
    for id in 1..=3u64 {
        nodes.insert(id, format!("http://node-{}", id));
    }
    let mut client = KvClient::new(nodes);
    assert_eq!(client.address_of(2).unwrap(), "http://node-2");
    let unknown = client.address_of(9).unwrap_err();
    assert_eq!((unknown.code, unknown.message.as_str()), (StatusCode::NotFound, "unknown node 9"));
    let first = client.begin_call();
    let down = Status::new(StatusCode::Unavailable, "down");
    let mut state = first;
    let mut delays = Vec::new();
    let mut asked = Vec::new();
    while KvClient::try_again(&state).is_ok() {
        asked.push(state.node_id);
        let step = client.call_failed(&state, &down);
        assert!(step.drop_connection);
        delays.push(step.delay_ms);
        state = step.next;
    }
    assert_eq!(delays, vec![100, 200, 400, 800, 1600]);
    assert_eq!(asked[0], asked[3]);
    assert_ne!(asked[0], asked[1]);
    assert_ne!(asked[1], asked[2]);
    let out = KvClient::try_again(&state).unwrap_err();
    assert_eq!((out.code, out.message.as_str()), (StatusCode::Unavailable, "all retries exhausted"));
    let hint = Status::new(StatusCode::FailedPrecondition, "not leader, leader is Some(3)");
    let step = client.call_failed(&first, &hint);
    assert_eq!(step.next, CallState { node_id: 3, attempt: 1 });
    assert_eq!(step.delay_ms, 0);
    assert_eq!(client.pick_node(), 3);
    client.call_succeeded(&CallState { node_id: 2, attempt: 0 }, false);
    assert_eq!(client.pick_node(), 3);
    client.call_succeeded(&CallState { node_id: 2, attempt: 0 }, true);
    assert_eq!(client.pick_node(), 2);
}

#[test]
fn default_settings() {
    let storage = StorageConfig::default();
    assert_eq!(storage.data_dir, "data");
    assert_eq!(storage.memtable_size_limit, 4 * 1024 * 1024);
    let consensus = RaftConfig::default();
    assert_eq!(consensus.snapshot_threshold, 10_000);
    assert!(consensus.peers.is_empty());
}
