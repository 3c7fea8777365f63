//! The metrics and their page.

use prometheus::{Histogram, HistogramOpts, IntCounter, IntGauge, Registry, TextEncoder};
use raft::metrics::{Metrics, Timings};

fn no_timings() -> Timings {
    Timings {
        kv_op_latency: String::new(),
        raft_heartbeat_latency: String::new(),
        raft_replication_latency: String::new(),
        storage_compaction_duration: String::new(),
    }
}

#[test]
fn metrics_creation() {
    let mut m = Metrics::new();
    assert_eq!(m.raft_term.get(), 0);
    m.raft_term.set(5);
    assert_eq!(m.raft_term.get(), 5);
}

#[test]
fn metrics_encode() {
    let mut m = Metrics::new();
    m.raft_term.set(3);
    m.raft_proposals_total.inc();
    m.kv_ops_total.inc("put");

    let output = m.encode(&no_timings());
    assert!(output.contains("raft_term 3"));
    assert!(output.contains("raft_proposals_total 1"));
    assert!(output.contains("kv_ops_total{op=\"put\"} 1"));
}

#[test]
fn histogram_records() {
    let m = Metrics::new();
    let latency = Histogram::with_opts(
        HistogramOpts::new("raft_replication_latency_seconds", "Log replication latency")
            .buckets(vec![0.001, 0.005, 0.01, 0.025, 0.05, 0.1, 0.25, 0.5, 1.0]),
    )
    .unwrap();
    latency.observe(0.005);
    latency.observe(0.015);
    let registry = Registry::new();
    registry.register(Box::new(latency)).unwrap();
    let mut timings = no_timings();
    timings.raft_replication_latency =
        TextEncoder::new().encode_to_string(&registry.gather()).unwrap();

    let output = m.encode(&timings);
    assert!(output.contains("raft_replication_latency_seconds"));
    assert!(output.contains("raft_replication_latency_seconds_count 2"));
}

#[test]
fn kv_op_labels() {
    let mut m = Metrics::new();
    m.kv_ops_total.inc_by("get", 10);
    m.kv_ops_total.inc_by("put", 5);
    m.kv_ops_total.inc_by("delete", 2);

    let output = m.encode(&no_timings());
    assert!(output.contains("kv_ops_total{op=\"get\"} 10"));
    assert!(output.contains("kv_ops_total{op=\"put\"} 5"));
    assert!(output.contains("kv_ops_total{op=\"delete\"} 2"));
}

#[test]
fn metrics_encode_contains_all_families() {
    let mut metrics = Metrics::new();
    metrics.kv_ops_total.inc("get");

    let output = metrics.encode(&no_timings());
    assert!(output.contains("raft_term"));
    assert!(output.contains("raft_commit_index"));
    assert!(output.contains("kv_ops_total"));
    assert!(output.contains("lease_active"));
    assert!(output.contains("watch_active"));
}

#[test]
fn operations_count_apart() {
    let mut m = Metrics::default();
    assert_eq!(m.kv_ops_total.get("get"), 0);
    m.kv_ops_total.inc("get");
    m.kv_ops_total.inc_by("put", 4);
    m.kv_ops_total.inc("get");
    assert_eq!(m.kv_ops_total.get("get"), 2);
    assert_eq!(m.kv_ops_total.get("put"), 4);
    m.lease_grants_total.inc_by(u64::MAX);
    m.lease_grants_total.inc_by(3);
    assert_eq!(m.lease_grants_total.get(), 2);
}

#[test]
fn the_page_is_that_of_one_registry() {
    let mut m = Metrics::new();
    m.raft_role.set(2);
    m.raft_leader_id.set(-7);
    m.raft_elections_won.inc_by(9);
    m.kv_ops_total.inc("put");
    m.kv_ops_total.inc_by("ge\"t", 2);
    let page = m.encode(&no_timings());

    let mut names: Vec<&str> = Vec::new();
    for line in page.lines() {
        if let Some(rest) = line.strip_prefix("# TYPE ") {
            names.push(rest.split(' ').next().unwrap());
        }
    }
    assert_eq!(names.len(), 23);
    let mut sorted = names.clone();
    sorted.sort();
    assert_eq!(names, sorted);

    let registry = Registry::new();
    let role =
        IntGauge::new("raft_role", "Current Raft role (0=Follower, 1=Candidate, 2=Leader)").unwrap();
    role.set(2);
    registry.register(Box::new(role)).unwrap();
    let won = IntCounter::new("raft_elections_won", "Total elections won").unwrap();
    won.inc_by(9);
    registry.register(Box::new(won)).unwrap();
    let both = TextEncoder::new().encode_to_string(&registry.gather()).unwrap();
    let (first, second) = both.split_at(both.find("# HELP raft_role").unwrap());
    assert!(page.contains(first));
    assert!(page.contains(second));
    assert!(page.contains(
        "# HELP raft_leader_id Current leader node ID (0 if unknown)\n# TYPE raft_leader_id gauge\nraft_leader_id -7\n"
    ));
    assert!(page.contains("kv_ops_total{op=\"ge\\\"t\"} 2\nkv_ops_total{op=\"put\"} 1\n"));
    m.raft_term.set(9_007_199_254_740_992);
    m.raft_leader_id.set(-9_007_199_254_740_992);
    m.lease_grants_total.inc_by(9_007_199_254_740_992);
    let page = m.encode(&no_timings());
    assert!(page.contains("\nraft_term 9007199254740992\n"));
    assert!(page.contains("\nraft_leader_id -9007199254740992\n"));
    assert!(page.contains("\nlease_grants_total 9007199254740992\n"));
    assert!(!Metrics::new().encode(&no_timings()).contains("kv_ops_total"));
}
