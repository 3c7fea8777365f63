//! Leases, watches and their services.

use raft::server::apply::KvCommand;
use raft::server::lease::{Lease, LeaseError, LeaseManager};
use raft::server::lease_service::LeaseRpcService;
use raft::server::status::StatusCode;
use raft::server::watch::{WatchEvent, WatchEventType, WatchHub};
use raft::server::watch_service::{WatchInput, WatchRpcService};
use std::sync::Arc;
use std::time::{Duration, Instant};
use tokio::sync::broadcast;

/// Lets some time go by.
fn pause(length: Duration) {
    let start = Instant::now();
    while start.elapsed() < length {}
}

#[test]
fn grant_and_get() {
    let mut mgr = LeaseManager::new();
    let (id, ttl) = mgr.grant(0, 60).unwrap();
    assert!(id > 0);
    assert_eq!(ttl, 60);
    let info = mgr.get(id).unwrap();
    assert_eq!(info.granted_ttl, 60);
    assert!(info.ttl > 0);
    assert!(info.keys.is_empty());
}

#[test]
fn grant_with_specific_id() {
    let mut mgr = LeaseManager::new();
    let (id, _) = mgr.grant(42, 60).unwrap();
    assert_eq!(id, 42);
    assert!(mgr.is_alive(42));
    assert_eq!(mgr.grant(0, 60).unwrap().0, 43);
}

#[test]
fn reject_duplicate_id() {
    let mut mgr = LeaseManager::new();
    mgr.grant(42, 60).unwrap();
    let result = mgr.grant(42, 30);
    assert_eq!(result, Err(LeaseError::AlreadyExists(42)));
}

#[test]
fn reject_invalid_ttl() {
    let mut mgr = LeaseManager::new();
    assert_eq!(mgr.grant(0, 0), Err(LeaseError::InvalidTtl));
    assert_eq!(mgr.grant(0, -5), Err(LeaseError::InvalidTtl));
}

#[test]
fn keepalive_renews() {
    let mut mgr = LeaseManager::new();
    let (id, _) = mgr.grant(0, 60).unwrap();
    let ttl = mgr.keepalive(id).unwrap();
    assert_eq!(ttl, 60);
    assert!(mgr.is_alive(id));
}

#[test]
fn keepalive_not_found() {
    let mut mgr = LeaseManager::new();
    assert_eq!(mgr.keepalive(99), Err(LeaseError::NotFound(99)));
}

#[test]
fn revoke_returns_keys() {
    let mut mgr = LeaseManager::new();
    let (id, _) = mgr.grant(0, 60).unwrap();
    mgr.attach_key(id, b"key1".to_vec()).unwrap();
    mgr.attach_key(id, b"key2".to_vec()).unwrap();
    let keys = mgr.revoke(id).unwrap();
    assert_eq!(keys.len(), 2);
    assert!(!mgr.is_alive(id));
}

#[test]
fn revoke_not_found() {
    let mut mgr = LeaseManager::new();
    assert_eq!(mgr.revoke(99), Err(LeaseError::NotFound(99)));
}

#[test]
fn attach_and_detach_keys() {
    let mut mgr = LeaseManager::new();
    let (id, _) = mgr.grant(0, 60).unwrap();
    mgr.attach_key(id, b"key1".to_vec()).unwrap();
    mgr.attach_key(id, b"key2".to_vec()).unwrap();
    mgr.attach_key(id, b"key2".to_vec()).unwrap();
    let info = mgr.get(id).unwrap();
    assert_eq!(info.keys.len(), 2);
    mgr.detach_key(id, b"key1");
    let info = mgr.get(id).unwrap();
    assert_eq!(info.keys.len(), 1);
    assert_eq!(mgr.attach_key(77, b"k".to_vec()), Err(LeaseError::NotFound(77)));
}

#[test]
fn lease_expiry() {
    let mut mgr = LeaseManager::new();
    let (id, _) = mgr.grant(0, 1).unwrap();
    assert!(mgr.is_alive(id));
    pause(Duration::from_millis(1100));
    assert!(!mgr.is_alive(id));
    let expired = mgr.collect_expired();
    assert_eq!(expired.len(), 1);
    assert_eq!(expired[0].0, id);
    assert_eq!(mgr.lease_count(), 0);
}

#[test]
fn keepalive_prevents_expiry() {
    let mut mgr = LeaseManager::new();
    let (id, _) = mgr.grant(0, 2).unwrap();
    pause(Duration::from_millis(1000));
    assert!(mgr.is_alive(id));
    mgr.keepalive(id).unwrap();
    pause(Duration::from_millis(1000));
    assert!(mgr.is_alive(id));
}

#[test]
fn expired_lease_keys_collected() {
    let mut mgr = LeaseManager::new();
    let (id, _) = mgr.grant(0, 1).unwrap();
    mgr.attach_key(id, b"locked-resource".to_vec()).unwrap();
    pause(Duration::from_millis(1100));
    let expired = mgr.collect_expired();
    assert_eq!(expired.len(), 1);
    assert_eq!(expired[0].1, vec![b"locked-resource".to_vec()]);
}

#[test]
fn multiple_leases() {
    let mut mgr = LeaseManager::new();
    let (id1, _) = mgr.grant(0, 60).unwrap();
    let (id2, _) = mgr.grant(0, 60).unwrap();
    assert_ne!(id1, id2);
    assert_eq!(mgr.lease_count(), 2);
    mgr.revoke(id1).unwrap();
    assert_eq!(mgr.lease_count(), 1);
    assert!(!mgr.is_alive(id1));
    assert!(mgr.is_alive(id2));
}

#[test]
fn keepalive_expired_lease_fails() {
    let mut mgr = LeaseManager::new();
    let (id, _) = mgr.grant(0, 1).unwrap();
    pause(Duration::from_millis(1100));
    let result = mgr.keepalive(id);
    assert_eq!(result, Err(LeaseError::Expired(id)));
}

#[test]
fn leases_by_age() {
    const SECOND: u128 = 1_000_000_000;
    let mut lease = Lease::new(9, 60, 5 * SECOND);
    assert_eq!(lease.remaining_ttl(30 * SECOND), 35);
    assert_eq!(lease.remaining_ttl(0), 60);
    assert!(lease.is_expired(65 * SECOND));
    assert!(lease.is_expired(u128::MAX));
    lease.renew(64 * SECOND);
    assert_eq!(lease.last_renewed, 64 * SECOND);
    assert!(!lease.is_expired(124 * SECOND - 1));
    assert!(lease.is_expired(124 * SECOND));
    let mut mgr = LeaseManager::new();
    mgr.grant_at(1, 10, 0).unwrap();
    mgr.grant_at(2, 20, 0).unwrap();
    mgr.grant_at(3, 30, 0).unwrap();
    mgr.attach_key(2, b"k".to_vec()).unwrap();
    assert_eq!(mgr.get_at(2, 5 * SECOND).unwrap().ttl, 15);
    assert_eq!(mgr.keepalive_at(1, 10 * SECOND), Err(LeaseError::Expired(1)));
    assert_eq!(mgr.keepalive_at(1, 9 * SECOND), Ok(10));
    assert!(mgr.is_alive_at(1, 19 * SECOND - 1));
    assert!(!mgr.is_alive_at(1, 19 * SECOND));
    let service = LeaseRpcService::new();
    assert_eq!(service.lease_keep_alive_at(&mut mgr, 1, 15 * SECOND).ttl, 10);
    let expired = mgr.collect_expired_at(20 * SECOND);
    assert_eq!(expired, vec![(2, vec![b"k".to_vec()])]);
    assert!(mgr.is_alive_at(1, 24 * SECOND));
    assert_eq!(mgr.lease_count(), 2);
}

#[test]
fn lease_service_answers() {
    let service = LeaseRpcService::new();
    let mut mgr = LeaseManager::new();
    let granted = service.lease_grant(&mut mgr, 7, 60).unwrap();
    assert_eq!((granted.id, granted.ttl), (7, 60));
    let refused = service.lease_grant(&mut mgr, 7, 60).unwrap_err();
    assert_eq!(refused.code, StatusCode::FailedPrecondition);
    assert_eq!(refused.message, "AlreadyExists(7)");
    mgr.attach_key(7, b"k".to_vec()).unwrap();
    assert_eq!(service.lease_keep_alive(&mut mgr, 7).ttl, 60);
    assert_eq!(service.lease_keep_alive(&mut mgr, 8).ttl, 0);
    assert_eq!(service.lease_time_to_live(&mgr, 7, true).unwrap().keys, vec![b"k".to_vec()]);
    assert!(service.lease_time_to_live(&mgr, 7, false).unwrap().keys.is_empty());
    let missing = service.lease_time_to_live(&mgr, -8, false).unwrap_err();
    assert_eq!(missing.code, StatusCode::NotFound);
    assert_eq!(missing.message, "NotFound(-8)");
    let deletions = service.lease_revoke(&mut mgr, 7).unwrap();
    assert_eq!(deletions, vec![KvCommand::Delete { key: b"k".to_vec() }]);
    assert_eq!(service.lease_revoke(&mut mgr, 7).unwrap_err().message, "NotFound(7)");
}

fn event(
    event_type: WatchEventType,
    key: &[u8],
    value: &[u8],
    mod_revision: u64,
    create_revision: u64,
    prev_value: Option<&[u8]>,
) -> WatchEvent {
    WatchEvent {
        event_type,
        key: key.to_vec(),
        value: value.to_vec(),
        mod_revision,
        create_revision,
        prev_value: prev_value.map(|v| v.to_vec()),
    }
}

fn put(key: &[u8], value: &[u8], mod_revision: u64, create_revision: u64) -> WatchEvent {
    event(WatchEventType::Put, key, value, mod_revision, create_revision, None)
}

#[test]
fn publish_and_receive() {
    let (tx, mut rx) = broadcast::channel(16);
    let mut hub = WatchHub::new();
    let id = hub.create_watcher(b"key1".to_vec(), vec![], 0);
    tx.send(Arc::new(put(b"key1", b"val1", 1, 1))).unwrap();
    let event = rx.try_recv().unwrap();
    assert!(hub.watcher_matches(id, &event));
    assert_eq!(event.key, b"key1");
    assert_eq!(event.value, b"val1");
}

#[test]
fn exact_key_filter() {
    let mut hub = WatchHub::new();
    let id = hub.create_watcher(b"key1".to_vec(), vec![], 0);
    assert!(!hub.watcher_matches(id, &put(b"key2", b"val", 1, 1)));
}

#[test]
fn range_watch() {
    let mut hub = WatchHub::new();
    let id = hub.create_watcher(b"a".to_vec(), b"d".to_vec(), 0);
    assert!(hub.watcher_matches(id, &put(b"b", b"val", 1, 1)));
    assert!(!hub.watcher_matches(id, &put(b"d", b"val", 2, 2)));
}

#[test]
fn start_revision_filter() {
    let mut hub = WatchHub::new();
    let id = hub.create_watcher(b"key".to_vec(), vec![], 5);
    assert!(!hub.watcher_matches(id, &put(b"key", b"old", 3, 1)));
    assert!(hub.watcher_matches(id, &put(b"key", b"new", 5, 1)));
}

#[test]
fn cancel_watcher() {
    let mut hub = WatchHub::new();
    let id = hub.create_watcher(b"key".to_vec(), vec![], 0);
    assert_eq!(hub.watcher_count(), 1);
    assert!(hub.cancel_watcher(id));
    assert_eq!(hub.watcher_count(), 0);
    assert!(!hub.cancel_watcher(id));
}

#[test]
fn multiple_watchers() {
    let mut hub = WatchHub::new();
    let id1 = hub.create_watcher(b"key1".to_vec(), vec![], 0);
    let id2 = hub.create_watcher(b"key2".to_vec(), vec![], 0);
    assert_eq!(hub.watcher_count(), 2);
    let event = put(b"key1", b"val", 1, 1);
    assert!(hub.watcher_matches(id1, &event));
    assert!(!hub.watcher_matches(id2, &event));
}

#[test]
fn delete_event() {
    let mut hub = WatchHub::new();
    let id = hub.create_watcher(b"key".to_vec(), vec![], 0);
    let event = event(WatchEventType::Delete, b"key", b"", 2, 1, Some(b"old_val"));
    assert!(hub.watcher_matches(id, &event));
    assert_eq!(event.event_type, WatchEventType::Delete);
    assert_eq!(event.prev_value, Some(b"old_val".to_vec()));
}

#[test]
fn watch_conversation() {
    let mut hub = WatchHub::new();
    let mut session = WatchRpcService::new();
    let mut other = WatchRpcService::new();
    let step = session.watch(
        &mut hub,
        WatchInput::Create { key: b"a".to_vec(), range_end: b"c".to_vec(), start_revision: 0 },
    );
    assert!(step.open);
    let created = step.response.unwrap();
    assert_eq!((created.watch_id, created.created, created.canceled), (1, true, false));
    other.watch(
        &mut hub,
        WatchInput::Create { key: b"z".to_vec(), range_end: vec![], start_revision: 0 },
    );
    session.watch(
        &mut hub,
        WatchInput::Create { key: b"k".to_vec(), range_end: vec![], start_revision: 0 },
    );
    assert_eq!(session.active(), &vec![1, 3]);
    let change = event(WatchEventType::Delete, b"b", b"", 9, 4, Some(b"old"));
    let told = session.deliver(&hub, 1, &change).unwrap();
    assert_eq!(told.watch_id, 1);
    assert!(!told.created && !told.canceled);
    assert_eq!(told.events[0].event_type, 1);
    let kv = told.events[0].kv.as_ref().unwrap();
    assert_eq!((kv.mod_revision, kv.create_revision, kv.lease_id), (9, 4, 0));
    let prev = told.events[0].prev_kv.as_ref().unwrap();
    assert_eq!(prev.value, b"old");
    assert_eq!((prev.mod_revision, prev.create_revision), (0, 0));
    assert!(session.deliver(&hub, 3, &change).is_none());
    assert!(session.watch(&mut hub, WatchInput::Empty).open);
    let canceled = session.watch(&mut hub, WatchInput::Cancel { watch_id: 3 }).response.unwrap();
    assert!(canceled.canceled);
    let again = session.watch(&mut hub, WatchInput::Cancel { watch_id: 3 }).response.unwrap();
    assert!(!again.canceled);
    assert_eq!(session.active(), &vec![1]);
    assert!(!session.watch(&mut hub, WatchInput::Failed).open);
    assert!(!session.watch(&mut hub, WatchInput::Closed).open);
    session.close(&mut hub);
    assert_eq!(hub.watcher_count(), 1);
    assert!(session.active().is_empty());
}
