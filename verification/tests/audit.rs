use kcm::audit::{AuditEvent, AuditEventType, AuditLog};
use kcm::types::KcmError;

#[test]
fn test_audit_log_basic() {
    let mut log = AuditLog::new();
    log.log_query("user1", "SELECT * FROM facts").unwrap();
    assert_eq!(log.event_count(), 1);
    assert!(log.verify_integrity().unwrap());
}

#[test]
fn test_audit_log_integrity() {
    let mut log = AuditLog::new();
    log.log_query("user1", "query1").unwrap();
    log.log_insert("user1", 1).unwrap();
    log.log_delete("user1", 2).unwrap();
    assert_eq!(log.event_count(), 3);
    assert!(log.verify_integrity().unwrap());
}

#[test]
fn test_audit_log_capacity() {
    let mut log = AuditLog::with_capacity(5);
    for i in 0..10 {
        log.log_query("user1", &format!("query_{}", i)).unwrap();
    }
    assert_eq!(log.event_count(), 5);
}

#[test]
fn test_audit_log_filtering() {
    let mut log = AuditLog::new();
    log.log_query("user1", "query1").unwrap();
    log.log_insert("user1", 1).unwrap();
    log.log_delete("user2", 2).unwrap();
    let query_events = log.get_events_by_type(AuditEventType::QueryExecuted);
    assert_eq!(query_events.len(), 1);
    let user1_events = log.get_events_by_user("user1");
    assert_eq!(user1_events.len(), 2);
}

#[test]
fn test_audit_log_clear() {
    let mut log = AuditLog::new();
    log.log_query("user1", "query1").unwrap();
    assert!(!log.is_empty());
    log.clear();
    assert!(log.is_empty());
}

#[test]
fn test_audit_event_validation() {
    assert!(AuditEvent::new(AuditEventType::QueryExecuted, "", "ctx", "det").is_err());
    assert!(AuditEvent::new(AuditEventType::QueryExecuted, "user", &"c".repeat(4097), "det").is_err());
    assert!(AuditEvent::new(AuditEventType::QueryExecuted, "user", "ctx", &"d".repeat(8193)).is_err());
}

#[test]
fn test_audit_event_types() {
    assert_eq!(AuditEventType::QueryExecuted.name(), "query_executed");
    assert_eq!(AuditEventType::FactInserted.name(), "fact_inserted");
    assert_eq!(AuditEventType::PermissionDenied.name(), "permission_denied");
}

#[test]
fn test_audit_log() {
    let mut log = AuditLog::new();
    let _ = log.log_query("alice", "SELECT * FROM facts");
    let _ = log.log_insert("alice", 42);
    let _ = log.log_delete("alice", 42);
    let _ = log.log_permission_denied("bob", "facts/42");
    assert_eq!(log.event_count(), 4);
    let events = log.get_events();
    assert_eq!(events[0].user_id, "alice");
    assert_eq!(events[3].details, "Permission denied");
}

#[test]
fn test_audit_log_eviction() {
    let mut log = AuditLog::new();
    for i in 0..100_100 {
        let _ = log.log_query(&format!("user_{}", i % 10), "query");
    }
    assert!(log.event_count() <= 100_000);
}

#[test]
fn test_audit_log_capacity_overflow() {
    let mut log = AuditLog::new();
    for i in 0..150_000 {
        log.log_query("stress_user", &format!("query_{}", i)).unwrap();
    }
    assert!(log.event_count() <= 100_000);
    let events = log.get_events();
    let last_event = events.last().unwrap();
    assert!(last_event.timestamp > 0);
}

#[test]
fn test_audit_verify_integrity_empty() {
    let log = AuditLog::new();
    assert!(log.verify_integrity().unwrap());
}

#[test]
fn test_audit_verify_integrity_sequential() {
    let mut log = AuditLog::new();
    log.log_query("alice", "SELECT * FROM facts").unwrap();
    log.log_insert("bob", 42).unwrap();
    log.log_delete("alice", 42).unwrap();
    assert_eq!(log.event_count(), 3);
    assert!(log.verify_integrity().unwrap());
}

#[test]
fn test_audit_verify_integrity_overflow() {
    let mut log = AuditLog::new();
    for i in 0..100_000 {
        log.log_query(&format!("user_{}", i % 10), &format!("query_{}", i)).unwrap();
    }
    assert_eq!(log.event_count(), 100_000);
    assert!(log.verify_integrity().unwrap());
}

// Own tests.

#[test]
fn eviction_keeps_the_chain_from_the_anchor() {
    let mut log = AuditLog::with_capacity(2);
    log.log_query("a", "q1").unwrap();
    let first = log.get_events()[0].clone();
    assert_eq!(first.prev_hash, [0u8; 32]);
    log.log_query("a", "q2").unwrap();
    log.log_query("a", "q3").unwrap();
    assert_eq!(log.event_count(), 2);
    let events = log.get_events();
    assert_eq!(events[0].context, "q2");
    assert_eq!(events[1].context, "q3");
    // The first event kept still names the hash of the one dropped.
    assert_eq!(events[0].prev_hash, first.event_hash);
    assert_eq!(events[0].event_hash, events[0].compute_hash());
    assert_eq!(events[1].prev_hash, events[0].event_hash);
    assert_eq!(events[1].event_hash, events[1].compute_hash());
    assert!(log.verify_integrity().unwrap());
    log.log_query("b", "q4").unwrap();
    assert!(log.verify_integrity().unwrap());
    assert_eq!(log.get_events()[1].context, "q4");
    log.clear();
    log.log_query("c", "q5").unwrap();
    assert_eq!(log.get_events()[0].prev_hash, [0u8; 32]);
    assert!(log.verify_integrity().unwrap());
}

#[test]
fn tampering_breaks_the_chain() {
    let mut log = AuditLog::new();
    log.log_query("a", "q1").unwrap();
    log.log_query("a", "q2").unwrap();
    let events = log.get_events();
    assert_eq!(events[1].prev_hash, events[0].event_hash);
    assert_eq!(events[0].event_hash, events[0].compute_hash());
    let mut forged = events[1].clone();
    forged.details = String::from("changed");
    assert_ne!(forged.compute_hash(), events[1].event_hash);
}

#[test]
fn event_texts_and_errors() {
    let mut log = AuditLog::new();
    log.log_access_check("u", "res", true).unwrap();
    log.log_access_check("u", "res", false).unwrap();
    log.log_rule("u", 7).unwrap();
    log.log_encryption("u", "rotate").unwrap();
    let events = log.get_events();
    assert_eq!(events[0].details, "Access granted");
    assert_eq!(events[1].details, "Access denied");
    assert_eq!(events[1].event_type, AuditEventType::AccessControlCheck);
    assert_eq!(events[2].event_type, AuditEventType::RuleExecuted);
    assert_eq!(events[3].event_type, AuditEventType::EncryptionOperation);
    assert!(matches!(log.log_query("", "q"), Err(KcmError::InvalidArgument(_))));
    assert_eq!(log.event_count(), 4);
    assert_eq!(log.capacity(), 100_000);
}

#[test]
fn events_since_filters_by_time() {
    let mut log = AuditLog::new();
    log.log(AuditEvent::new_at(AuditEventType::QueryExecuted, "u", "a", "d", 10).unwrap());
    log.log(AuditEvent::new_at(AuditEventType::QueryExecuted, "u", "b", "d", 20).unwrap());
    log.log(AuditEvent::new_at(AuditEventType::QueryExecuted, "u", "c", "d", 30).unwrap());
    let since = log.get_events_since(20);
    assert_eq!(since.len(), 2);
    assert_eq!(since[0].context, "b");
    assert!(log.verify_integrity().unwrap());
}
