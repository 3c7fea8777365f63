//! The apply loop, backups, reads and writes, administration, pages, the loop
//! of the server and its command line.

use raft::admin::{
    delete_line, get_line, parse_command, put_line, server_address, status_text, transfer_line,
    AdminCommand, CommandError,
};
use raft::consensus::membership::JointConfigData;
use raft::consensus::message::{AppendResponse, EntryType, LogEntry, TimeoutNow, VoteResponse};
use raft::consensus::node::{NodeConfig, RaftNode};
use raft::consensus::state::{PersistentState, Role};
use raft::consensus::tick::TickConfig;
use raft::metrics::{Metrics, Timings};
use raft::mvcc::store::MvccStore;
use raft::server::admin_service::AdminRpcService;
use raft::server::apply::{ApplyLoop, KvCommand};
use raft::server::args::{get_arg, parse_peers, server_config, ArgError};
use raft::server::backup::{
    chunks_of, create_backup, parse_backup, BackupMetadata, CHUNK_SIZE,
};
use raft::server::http::{path_of_text, request_path, update_raft_gauges, HttpServer};
use raft::server::kv_service::{KvRpcService, PutRequest, ReadStep};
use raft::server::lease::LeaseManager;
use raft::server::server::{
    after_pre_vote, check_transfer, check_transfer_at, expiry_commands, take_append_reply,
    take_vote_reply, ElectionTimer, ServerConfig, TimerAction, VoteRound,
};
use raft::server::status::{Status, StatusCode};
use raft::server::watch::WatchEventType;
use raft::storage::bloom::BloomSize;
use raft::storage::lsm::{LsmConfig, LsmTree};
use raft::words::{is_white, nth_word, trim};
use serde_json::Value;

type Sizing = fn(usize) -> BloomSize;

fn filter_size(items: usize) -> BloomSize {
    BloomSize { num_bits: (items.max(1) * 10).max(8), num_hashes: 7 }
}

fn test_store() -> MvccStore<LsmTree<Sizing>> {
    let config =
        LsmConfig { memtable_size_limit: 64 * 1024, block_size: 256, ..Default::default() };
    let engine = LsmTree::open(
        config,
        None,
        "wal.log".to_string(),
        vec![],
        vec![],
        filter_size as Sizing,
    )
    .unwrap();
    MvccStore::new(engine)
}

fn make_node(id: u64, peers: Vec<u64>) -> RaftNode {
    let config = NodeConfig {
        id,
        peers,
        data_dir: format!("node-{}", id),
        tick_config: TickConfig::default(),
    };
    RaftNode::new(config, PersistentState::default(), vec![]).unwrap()
}

fn make_leader() -> RaftNode {
    let mut node = make_node(1, vec![2, 3]);
    node.start_election();
    node.become_leader();
    node
}

fn bytes_json(bytes: &[u8]) -> Value {
    Value::Array(bytes.iter().map(|b| Value::from(*b)).collect())
}

fn bytes_from(json: &Value) -> Option<Vec<u8>> {
    json.as_array()?.iter().map(|b| b.as_u64().map(|b| b as u8)).collect()
}

/// A command as the JSON text of a log entry.
fn encode(command: &KvCommand) -> Vec<u8> {
    let mut fields = serde_json::Map::new();
    let name = match command {
        KvCommand::Put { key, value, lease_id, ttl_seconds } => {
            fields.insert("key".to_string(), bytes_json(key));
            fields.insert("value".to_string(), bytes_json(value));
            fields.insert("lease_id".to_string(), Value::from(*lease_id));
            fields.insert("ttl_seconds".to_string(), Value::from(*ttl_seconds));
            "Put"
        }
        KvCommand::Delete { key } => {
            fields.insert("key".to_string(), bytes_json(key));
            "Delete"
        }
    };
    let mut outer = serde_json::Map::new();
    outer.insert(name.to_string(), Value::Object(fields));
    serde_json::to_vec(&Value::Object(outer)).unwrap()
}

fn decode(data: &Vec<u8>) -> Option<KvCommand> {
    let json: Value = serde_json::from_slice(data).ok()?;
    if let Some(put) = json.get("Put") {
        Some(KvCommand::Put {
            key: bytes_from(put.get("key")?)?,
            value: bytes_from(put.get("value")?)?,
            lease_id: put.get("lease_id")?.as_i64()?,
            ttl_seconds: put.get("ttl_seconds")?.as_i64()?,
        })
    } else {
        Some(KvCommand::Delete { key: bytes_from(json.get("Delete")?.get("key")?)? })
    }
}

fn put_command(key: &[u8], value: &[u8], lease_id: i64) -> KvCommand {
    KvCommand::Put { key: key.to_vec(), value: value.to_vec(), lease_id, ttl_seconds: 0 }
}

fn entry(index: u64, data: Vec<u8>, entry_type: EntryType) -> LogEntry {
    LogEntry { index, term: 1, data, entry_type }
}

#[test]
fn apply_put_command() {
    let mut store = test_store();
    let apply = ApplyLoop::new();
    let entries = vec![entry(1, encode(&put_command(b"hello", b"world", 0)), EntryType::Normal)];
    let applied = apply.apply(&mut store, &entries, decode).unwrap();
    assert_eq!(applied, 1);
    let kv = store.get(b"hello").unwrap().unwrap();
    assert_eq!(kv.value, b"world");
}

#[test]
fn apply_delete_command() {
    let mut store = test_store();
    let apply = ApplyLoop::new();
    let entries = vec![
        entry(1, encode(&put_command(b"key", b"val", 0)), EntryType::Normal),
        entry(2, encode(&KvCommand::Delete { key: b"key".to_vec() }), EntryType::Normal),
    ];
    apply.apply(&mut store, &entries, decode).unwrap();
    assert!(store.get(b"key").unwrap().is_none());
}

#[test]
fn skip_noop_entries() {
    let mut store = test_store();
    let apply = ApplyLoop::new();
    let entries = vec![entry(1, vec![], EntryType::Noop)];
    let applied = apply.apply(&mut store, &entries, decode).unwrap();
    assert_eq!(applied, 0);
}

#[test]
fn entries_without_a_command_are_passed_over() {
    let mut store = test_store();
    let apply = ApplyLoop::new();
    let good = encode(&put_command(b"k", b"v", 0));
    let entries = vec![
        entry(1, vec![], EntryType::Normal),
        entry(2, b"not json".to_vec(), EntryType::Normal),
        entry(3, good.clone(), EntryType::ConfigChange),
        entry(4, good, EntryType::Normal),
    ];
    assert_eq!(apply.apply(&mut store, &entries, decode).unwrap(), 1);
    assert_eq!(store.revision(), 1);
}

#[test]
fn kv_command_roundtrip() {
    let cmd = KvCommand::Put {
        key: b"test".to_vec(),
        value: b"data".to_vec(),
        lease_id: 42,
        ttl_seconds: 300,
    };
    let encoded = encode(&cmd);
    let decoded = decode(&encoded).unwrap();
    match decoded {
        KvCommand::Put { key, value, lease_id, ttl_seconds } => {
            assert_eq!(key, b"test");
            assert_eq!(value, b"data");
            assert_eq!(lease_id, 42);
            assert_eq!(ttl_seconds, 300);
        }
        _ => panic!("expected Put"),
    }
}

#[test]
fn changes_reach_leases_and_watches() {
    let mut store = test_store();
    let mut leases = LeaseManager::new();
    leases.grant(5, 60).unwrap();
    let apply = ApplyLoop::new();
    let entries = vec![
        entry(1, encode(&put_command(b"k", b"v1", 5)), EntryType::Normal),
        entry(2, encode(&put_command(b"k", b"v2", 9)), EntryType::Normal),
        entry(3, encode(&KvCommand::Delete { key: b"k".to_vec() }), EntryType::Normal),
    ];
    let events = apply.full(&mut store, &mut leases, &entries, decode).unwrap();
    assert_eq!(events.len(), 3);
    assert_eq!(events[0].prev_value, None);
    assert_eq!(events[1].prev_value, Some(b"v1".to_vec()));
    assert_eq!((events[1].mod_revision, events[1].create_revision), (2, 1));
    assert_eq!(events[2].event_type, WatchEventType::Delete);
    assert_eq!(events[2].prev_value, Some(b"v2".to_vec()));
    assert_eq!(events[2].mod_revision, 3);
    assert_eq!(leases.get(5).unwrap().keys, vec![b"k".to_vec()]);
}

fn metadata_json(m: &BackupMetadata) -> Vec<u8> {
    let mut fields = serde_json::Map::new();
    fields.insert("node_id".to_string(), Value::from(m.node_id));
    fields.insert("term".to_string(), Value::from(m.term));
    fields.insert("commit_index".to_string(), Value::from(m.commit_index));
    fields.insert("applied_index".to_string(), Value::from(m.applied_index));
    fields.insert("revision".to_string(), Value::from(m.revision));
    fields.insert("timestamp".to_string(), Value::from(m.timestamp));
    serde_json::to_vec(&Value::Object(fields)).unwrap()
}

fn metadata_from(data: &Vec<u8>) -> Option<BackupMetadata> {
    let json: Value = serde_json::from_slice(data).ok()?;
    Some(BackupMetadata {
        node_id: json.get("node_id")?.as_u64()?,
        term: json.get("term")?.as_u64()?,
        commit_index: json.get("commit_index")?.as_u64()?,
        applied_index: json.get("applied_index")?.as_u64()?,
        revision: json.get("revision")?.as_u64()?,
        timestamp: json.get("timestamp")?.as_u64()?,
    })
}

#[test]
fn backup_metadata_roundtrip() {
    let meta = BackupMetadata {
        node_id: 1,
        term: 5,
        commit_index: 100,
        applied_index: 99,
        revision: 50,
        timestamp: 1700000000,
    };
    let json = metadata_json(&meta);
    let decoded = metadata_from(&json).unwrap();
    assert_eq!(decoded.node_id, 1);
    assert_eq!(decoded.term, 5);
    assert_eq!(decoded.commit_index, 100);
    assert_eq!(decoded.revision, 50);
}

#[test]
fn parse_backup_blob() {
    let meta = BackupMetadata {
        node_id: 1,
        term: 3,
        commit_index: 50,
        applied_index: 50,
        revision: 25,
        timestamp: 1700000000,
    };
    let meta_json = metadata_json(&meta);
    let meta_len = meta_json.len() as u32;
    let snapshot_data = b"fake-snapshot-data";
    let mut blob = Vec::new();
    blob.extend_from_slice(&meta_len.to_le_bytes());
    blob.extend_from_slice(&meta_json);
    blob.extend_from_slice(snapshot_data);
    let (parsed_meta, parsed_snap) = parse_backup(&blob, metadata_from).unwrap();
    assert_eq!(parsed_meta.node_id, 1);
    assert_eq!(parsed_meta.term, 3);
    assert_eq!(parsed_snap, snapshot_data);
}

#[test]
fn parse_backup_too_short() {
    assert!(parse_backup(&[0, 0], metadata_from).is_none());
    assert!(parse_backup(&[100, 0, 0, 0], metadata_from).is_none());
}

#[test]
fn backup_and_restore() {
    let mut leader = make_leader();
    let mut store = test_store();
    store.put(b"k", b"v").unwrap();
    let encode = |m: &BackupMetadata| Some(metadata_json(m));
    assert!(create_backup(&leader, &store, None, 7, encode).is_none());
    let snapshot = vec![7u8; CHUNK_SIZE + 10];
    let (meta, blob) = create_backup(&leader, &store, Some(snapshot.clone()), 7, encode).unwrap();
    assert_eq!((meta.node_id, meta.term, meta.revision, meta.timestamp), (1, 1, 1, 7));
    let chunks = chunks_of(&blob);
    assert_eq!(chunks.len(), 2);
    assert_eq!(chunks[0].len(), CHUNK_SIZE);
    assert_eq!(chunks.concat(), blob);
    let admin = AdminRpcService::new();
    let plan = admin.restore(&chunks, metadata_from).unwrap();
    assert_eq!(plan.data, snapshot);
    assert_eq!(plan.snapshot.checksum, crc32fast::hash(&snapshot));
    assert_eq!(plan.snapshot.size, snapshot.len() as u64);
    admin.install(&mut leader, &plan, false);
    assert_eq!(leader.role(), Role::Follower);
    let empty = admin.restore(&vec![], metadata_from).unwrap_err();
    assert_eq!(empty.message, "empty restore data");
    let broken = admin.restore(&vec![vec![1, 2, 3]], metadata_from).unwrap_err();
    assert_eq!(broken.code, StatusCode::InvalidArgument);
    assert_eq!(broken.message, "invalid backup format");
}

#[test]
fn admin_service_creation() {
    let admin = AdminRpcService::new();
    let node = make_node(1, vec![2, 3]);
    let status = admin.status(&node);
    assert_eq!(status.node_id, 1);
    assert_eq!(status.role, "Follower");
    assert_eq!((status.term, status.leader_id, status.cluster_size), (0, 0, 3));
}

#[test]
fn administration() {
    let admin = AdminRpcService::new();
    let encode = |_: &JointConfigData| b"joint".to_vec();
    let mut follower = make_node(1, vec![2, 3]);
    let refused = admin.add_node(&mut follower, 4, "a".to_string(), encode).unwrap_err();
    assert_eq!((refused.code, refused.message.as_str()), (StatusCode::FailedPrecondition, "NotLeader"));
    assert!(admin.drain_node(&mut follower).is_ok());
    assert!(!follower.is_transfer_in_progress());
    assert_eq!(
        admin.trigger_compaction(&follower).unwrap_err().message,
        "nothing to compact (commit_index is 0)"
    );
    let mut leader = make_leader();
    let dup = admin.add_node(&mut leader, 2, "a".to_string(), encode).unwrap_err();
    assert_eq!(dup.message, "NodeAlreadyExists(2)");
    let gone = admin.remove_node(&mut leader, 9, encode).unwrap_err();
    assert_eq!(gone.message, "NodeNotFound(9)");
    assert!(admin.add_node(&mut leader, 4, "a".to_string(), encode).is_ok());
    let busy = admin.remove_node(&mut leader, 3, encode).unwrap_err();
    assert_eq!(busy.message, "ChangeInProgress");
    assert!(admin.drain_node(&mut leader).is_ok());
    assert!(leader.is_transfer_in_progress());
    let again = admin.transfer_leadership(&mut leader, 3).unwrap_err();
    assert_eq!(again.message, "AlreadyInProgress");
    let mut committed = make_leader();
    committed.handle_append_response(2, AppendResponse { term: 1, success: true, match_index: 1 });
    let (meta, data) = admin.trigger_compaction(&committed).unwrap();
    assert_eq!(data, b"compaction-triggered");
    assert_eq!(meta.last_included_index, 1);
    assert_eq!(meta.checksum, crc32fast::hash(b"compaction-triggered"));
}

fn put_request(key: &[u8], value: &[u8]) -> PutRequest {
    PutRequest { key: key.to_vec(), value: value.to_vec(), lease_id: 0, ttl_seconds: 0 }
}

#[test]
fn reads_and_writes() {
    let service = KvRpcService::new();
    let mut store = test_store();
    let mut follower = make_node(1, vec![2, 3]);
    let refused = service.put(&mut follower, put_request(b"k", b"v"), encode).unwrap_err();
    assert_eq!(refused.code, StatusCode::FailedPrecondition);
    assert_eq!(refused.message, "not leader, leader is None");
    let mut leader = make_leader();
    assert_eq!(service.put(&mut leader, put_request(b"k", b"v"), encode).unwrap().revision, 2);
    let deleted = service.delete(&mut leader, b"k".to_vec(), encode).unwrap();
    assert_eq!((deleted.revision, deleted.deleted), (3, true));
    leader.transfer_leadership(2).unwrap();
    let busy = service.put(&mut leader, put_request(b"k", b"v"), encode).unwrap_err();
    assert_eq!((busy.code, busy.message.as_str()), (StatusCode::Internal, "TransferInProgress"));
    assert_eq!(service.txn().unwrap_err().code, StatusCode::Unimplemented);
    for k in [b"a", b"b", b"c"] {
        store.put(k, b"v").unwrap();
    }
    let missing = service.get(&store, b"z").unwrap();
    assert_eq!((missing.value, missing.revision), (vec![], 0));
    let found = service.get(&store, b"b").unwrap();
    assert_eq!((found.value, found.revision), (b"v".to_vec(), 2));
    assert_eq!(service.range(&store, b"a", b"z", 0).unwrap().count, 3);
    let some = service.range(&store, b"a", b"z", 2).unwrap();
    assert_eq!(some.count, 2);
    assert_eq!(some.kvs[1].key, b"b");
}

#[test]
fn linearizable_reads_wait() {
    let service = KvRpcService::new();
    let mut leader = make_leader();
    let step = service.begin_read(&mut leader).unwrap();
    let wait = match step {
        ReadStep::Pause { milliseconds, wait } => {
            assert_eq!(milliseconds, 20);
            wait
        }
        ReadStep::Ready => panic!("nothing is confirmed yet"),
    };
    leader.read_index_ack(2);
    assert_eq!(service.wait_for_linearizable_read(&mut leader, wait).unwrap(), ReadStep::Ready);
    assert_eq!(
        KvRpcService::with_serializable_reads().begin_read(&mut make_node(1, vec![])).unwrap(),
        ReadStep::Ready
    );
    let mut next = service.begin_get(&mut leader, true).unwrap();
    let mut pauses = 0;
    let failure = loop {
        match next {
            ReadStep::Ready => panic!("no quorum"),
            ReadStep::Pause { wait, .. } => {
                pauses += 1;
                match service.wait_for_linearizable_read(&mut leader, wait) {
                    Ok(step) => next = step,
                    Err(e) => break e,
                }
            }
        }
    };
    assert_eq!(pauses, 200);
    assert_eq!(failure.code, StatusCode::DeadlineExceeded);
    assert_eq!(failure.message, "read index confirmation timed out");
    assert_eq!(
        service.wait_for_applied(&leader, 9, 100).unwrap_err().message,
        "timed out waiting for state machine to catch up"
    );
    assert!(service.begin_get(&mut make_node(1, vec![2]), false).is_err());
}

#[test]
fn update_gauges_from_node() {
    let node = make_node(1, vec![2, 3]);
    let mut metrics = Metrics::new();

    update_raft_gauges(&node, &mut metrics);

    assert_eq!(metrics.raft_role.get(), 0);
    assert_eq!(metrics.raft_term.get(), 0);
    assert_eq!(metrics.raft_cluster_size.get(), 3);

    update_raft_gauges(&make_leader(), &mut metrics);
    assert_eq!(metrics.raft_role.get(), 2);
    assert_eq!(metrics.raft_term.get(), 1);
    assert_eq!(metrics.raft_leader_id.get(), 1);
}

#[test]
fn pages() {
    let http = HttpServer::new();
    let node = make_node(1, vec![2, 3]);
    let mut metrics = Metrics::new();
    let timings = Timings {
        kv_op_latency: "m\u{e9}".to_string(),
        raft_heartbeat_latency: String::new(),
        raft_replication_latency: String::new(),
        storage_compaction_duration: String::new(),
    };
    let mut page = |path: &str| http.respond(path, &node, &mut metrics, &timings);
    assert_eq!(
        page("/health"),
        "HTTP/1.1 200 OK\r\nContent-Type: application/json\r\nContent-Length: 15\r\n\r\n{\"status\":\"ok\"}"
    );
    assert_eq!(
        page("/ready"),
        "HTTP/1.1 503 Service Unavailable\r\nContent-Type: application/json\r\nContent-Length: 43\r\n\r\n{\"status\":\"not_ready\",\"reason\":\"no_leader\"}"
    );
    assert_eq!(page("/x"), "HTTP/1.1 404 Not Found\r\nContent-Length: 9\r\n\r\nNot Found");
    let shown = page("/metrics");
    let text = metrics.encode(&timings);
    assert!(text.starts_with("m\u{e9}# HELP lease_active"));
    assert_eq!(
        shown,
        format!(
            "HTTP/1.1 200 OK\r\nContent-Type: text/plain; version=0.0.4; charset=utf-8\r\nContent-Length: {}\r\n\r\n{}",
            text.len(),
            text
        )
    );
    assert_eq!(metrics.raft_cluster_size.get(), 3);
    let leader = make_leader();
    let body = "{\"status\":\"ready\",\"role\":\"Leader\",\"leader\":1}";
    assert_eq!(
        http.answer(b"GET /ready HTTP/1.1\r\nHost: x\r\n\r\n", &leader, &mut metrics, &timings),
        format!(
            "HTTP/1.1 200 OK\r\nContent-Type: application/json\r\nContent-Length: {}\r\n\r\n{}",
            body.len(),
            body
        )
    );
}

#[test]
fn request_paths() {
    assert_eq!(request_path(b"GET /metrics HTTP/1.1\r\n"), "/metrics");
    assert_eq!(request_path(b"GET"), "/");
    assert_eq!(request_path(b""), "/");
    assert_eq!(request_path(b"GET\r\n/metrics"), "/");
    assert_eq!(request_path(b"GET /a\xff HTTP/1.1"), "/a\u{fffd}");
    assert_eq!(path_of_text("  POST \t /b"), "/b");
}

#[test]
fn white_space_is_that_of_unicode() {
    for n in 0..=0x10FFFFu32 {
        if let Some(c) = char::from_u32(n) {
            assert_eq!(is_white(c), c.is_whitespace(), "{:x}", n);
        }
    }
    assert_eq!(trim(" \u{2003}a b\n"), "a b");
    assert_eq!(trim("  "), "");
    assert_eq!(nth_word(" a  b ", 1), Some("b".to_string()));
    assert_eq!(nth_word(" a  b ", 2), None);
}

#[test]
fn election_timer() {
    let tick = TickConfig::new(150, 300, 50);
    let mut timer = ElectionTimer::new(1000, 200);
    assert_eq!(timer.sleep_ms(&tick, Role::Leader, 1000), 50);
    assert_eq!(timer.sleep_ms(&tick, Role::Follower, 1050), 150);
    assert_eq!(timer.sleep_ms(&tick, Role::Follower, 1300), 0);
    assert_eq!(timer.fire(&tick, Role::Leader, 1200, 500, 200), TimerAction::SendAppends);
    assert_eq!(timer.fire(&tick, Role::Follower, 1200, 149, 200), TimerAction::Wait);
    assert_eq!(timer.deadline, 1400);
    assert_eq!(timer.fire(&tick, Role::Follower, 1399, 500, 200), TimerAction::Wait);
    assert_eq!(timer.fire(&tick, Role::PreCandidate, 1400, 500, 200), TimerAction::StartPreVote);
    assert_eq!(timer.fire(&tick, Role::Candidate, 1400, 0, 200), TimerAction::StartElection);
    timer.rearm(1500, 300);
    assert_eq!(timer.fire(&tick, Role::Candidate, 1799, 0, 200), TimerAction::Wait);
}

#[test]
fn replies_are_taken_up() {
    let mut node = make_node(1, vec![2, 3]);
    node.start_pre_vote();
    let none = VoteRound { any_success: false, won: false };
    let lost = take_vote_reply(&mut node, none, 2, None, true);
    assert_eq!(lost, none);
    let yes = VoteResponse { term: 0, vote_granted: true };
    let round = take_vote_reply(&mut node, lost, 3, Some(yes), true);
    assert_eq!(round, VoteRound { any_success: true, won: false });
    let requests = after_pre_vote(&mut node, round.any_success).unwrap();
    assert_eq!(requests.len(), 2);
    let yes = VoteResponse { term: 1, vote_granted: true };
    assert!(take_vote_reply(&mut node, none, 2, Some(yes), false).won);
    assert_eq!(node.role(), Role::Leader);
    let (id, _) = node.request_read_index().unwrap();
    assert!(take_append_reply(&mut node, 2, None));
    assert!(!node.is_read_index_confirmed(id));
    let accepted = AppendResponse { term: 1, success: true, match_index: 1 };
    assert!(!take_append_reply(&mut node, 2, Some(accepted)));
    assert!(node.is_read_index_confirmed(id));
    assert_eq!(node.commit_index(), 1);
    node.transfer_leadership(2).unwrap();
    let (target, message) = check_transfer(&mut node, 300).unwrap();
    assert_eq!(target, 2);
    assert_eq!(message, TimeoutNow { term: 1, leader_id: 1 });
    assert_eq!(check_transfer_at(&mut node, 300_000_000, 300), None);
    assert!(node.is_transfer_in_progress());
    assert_eq!(check_transfer_at(&mut node, u64::MAX as u128, 300), None);
    assert!(!node.is_transfer_in_progress());
}

#[test]
fn expired_leases_become_deletions() {
    let commands =
        expiry_commands(vec![(1, vec![b"a".to_vec(), b"b".to_vec()]), (2, vec![]), (3, vec![
            b"c".to_vec(),
        ])]);
    let keys: Vec<Vec<u8>> = commands
        .into_iter()
        .map(|c| match c {
            KvCommand::Delete { key } => key,
            KvCommand::Put { .. } => panic!("expected a deletion"),
        })
        .collect();
    assert_eq!(keys, vec![b"a".to_vec(), b"b".to_vec(), b"c".to_vec()]);
}

fn args(texts: &[&str]) -> Vec<String> {
    texts.iter().map(|t| t.to_string()).collect()
}

#[test]
fn server_command_line() {
    let given = args(&[
        "raft-server",
        "--id",
        "2",
        "--peers",
        "1=http://127.0.0.1:5001, 2 = http://127.0.0.1:5002 ,x=y,3",
    ]);
    let config: ServerConfig = server_config(&given).unwrap();
    assert_eq!(config.node_id, 2);
    assert_eq!(config.cluster.len(), 2);
    assert_eq!(config.cluster[&1], "http://127.0.0.1:5001");
    assert_eq!(config.listen_addr, "127.0.0.1:5002");
    assert_eq!(config.data_dir, "data/node-2");
    assert_eq!(config.http_addr.as_deref(), Some("127.0.0.1:9092"));
    assert_eq!(config.election_timeout_max_ms, 15000);
    assert_eq!(config.peer_ids(), vec![1]);
    assert_eq!(config.node_config().peers, vec![1]);
    let clients = config.peer_clients(&config.peer_ids());
    assert_eq!(clients[0].address, "http://127.0.0.1:5001");
    assert_eq!(server_config(&args(&["x"])).unwrap_err(), ArgError::NoId);
    assert_eq!(server_config(&args(&["x", "--id", "a"])).unwrap_err(), ArgError::NoId);
    assert_eq!(server_config(&args(&["x", "--id", "1"])).unwrap_err(), ArgError::NoPeers);
    assert_eq!(
        server_config(&args(&["x", "--id", "1", "--peers", "?"])).unwrap_err(),
        ArgError::EmptyPeers
    );
    assert_eq!(
        server_config(&args(&["x", "--id", "1", "--peers", "2=b"])).unwrap_err(),
        ArgError::NotInPeers(1)
    );
    assert_eq!(get_arg(&args(&["--a", "b"]), "--a"), Some("b".to_string()));
    assert_eq!(get_arg(&args(&["b", "--a"]), "--a"), None);
    assert!(parse_peers("").is_empty());
    assert_eq!(parse_peers("1=a,1=b")[&1], "b");
}

#[test]
fn admin_command_line() {
    let parse = |texts: &[&str]| parse_command(&args(texts));
    assert_eq!(parse(&["raft-admin"]), Err(CommandError::Usage));
    assert_eq!(parse(&["raft-admin", "what"]), Err(CommandError::Usage));
    assert_eq!(
        parse(&["raft-admin", "put", "k", "v"]),
        Ok(AdminCommand::Put { key: "k".to_string(), value: "v".to_string() })
    );
    assert_eq!(
        parse(&["raft-admin", "put", "k"]),
        Err(CommandError::Missing("Usage: raft-admin put <key> <value>".to_string()))
    );
    assert_eq!(parse(&["raft-admin", "get", "k"]), Ok(AdminCommand::Get { key: "k".to_string() }));
    assert_eq!(
        parse(&["raft-admin", "delete"]),
        Err(CommandError::Missing("Usage: raft-admin delete <key>".to_string()))
    );
    assert_eq!(parse(&["raft-admin", "status"]), Ok(AdminCommand::Status));
    assert_eq!(parse(&["raft-admin", "transfer", "3"]), Ok(AdminCommand::Transfer { target: 3 }));
    assert_eq!(parse(&["raft-admin", "transfer", "x"]), Err(CommandError::NotANumber));
    assert_eq!(server_address(&args(&["raft-admin", "status"])), "http://127.0.0.1:5001");
    assert_eq!(server_address(&args(&["raft-admin", "status", "--addr", "a"])), "a");
    assert_eq!(put_line(7), "OK (revision: 7)");
    assert_eq!(get_line(b"", 0), "(not found)");
    assert_eq!(get_line(b"v\xff", 3), "v\u{fffd} (revision: 3)");
    assert_eq!(delete_line(true, 4), "Deleted (revision: 4)");
    assert_eq!(delete_line(false, 4), "Key not found");
    assert_eq!(transfer_line(true, 2), "Leadership transfer initiated to node 2");
    let status = AdminRpcService::new().status(&make_node(1, vec![2]));
    assert_eq!(
        status_text(&status),
        "Node ID:      1\nRole:         Follower\nTerm:         0\nLeader:       none\nCommit Index: 0\nApplied:      0\nCluster Size: 2"
    );
}

#[test]
fn statuses_carry_their_message() {
    let status = Status::new(StatusCode::Unavailable, "later");
    assert_eq!((status.code, status.message.as_str()), (StatusCode::Unavailable, "later"));
    let internal = Status::internal(&raft::error::Error::KeyNotFound);
    assert_eq!((internal.code, internal.message.as_str()), (StatusCode::Internal, "key not found"));
    let not_leader = raft::error::Error::NotLeader { leader_id: Some(2) };
    assert_eq!(not_leader.message(), "not leader: leader is node Some(2)");
    let storage = raft::error::Error::Storage("x".to_string());
    assert_eq!(storage.message(), "storage error: x");
    let consensus = raft::error::Error::Raft("y".to_string());
    assert_eq!(consensus.message(), "raft error: y");
    assert_eq!(raft::error::Error::TransactionConflict.message(), "transaction conflict");
}
