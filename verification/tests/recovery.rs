use kcm::column::Schema;
use kcm::recovery::{append_live_rows, backup_fallback, incremental_schema, manifest_text, plan_recovery, replay_into, replay_wal_bytes, RecoveryPlan};
use kcm::types::{EvidenceID, Fact, KcmError, ObjectID, PredicateID, SubjectID};
use kcm::wal::{WALEntry, WalBuffer};

fn fact(s: u32) -> Fact {
    Fact::new(SubjectID(s), PredicateID(0), ObjectID(s * 10), 0.9f64.to_bits()).unwrap()
}

#[test]
fn replaying_a_log_rebuilds_the_rows() {
    let mut log = WalBuffer::new();
    let mut f = fact(1);
    f.evidence = EvidenceID(7);
    log.append_fact(&f);
    log.append_fact(&fact(2));
    log.append_delete(0);
    let mut schema = Schema::new(10).unwrap();
    assert_eq!(replay_wal_bytes(&mut schema, log.bytes()).unwrap(), 3);
    assert_eq!(schema.len(), 2);
    assert!(schema.is_deleted(0));
    let back = schema.get_fact(1).unwrap();
    assert_eq!(back, fact(2));
    assert_eq!(schema.fact_at(0).evidence, EvidenceID(0));
}

#[test]
fn corrupt_log_applies_nothing() {
    let mut log = WalBuffer::new();
    log.append_fact(&fact(1));
    log.append_fact(&fact(2));
    let mut bytes = log.bytes().to_vec();
    let last = bytes.len() - 1;
    bytes[last] ^= 0xFF;
    let mut schema = Schema::new(10).unwrap();
    assert!(matches!(replay_wal_bytes(&mut schema, &bytes), Err(KcmError::Corrupted(_))));
    assert_eq!(schema.len(), 0);
}

#[test]
fn refused_entries_stop_the_replay() {
    let mut schema = Schema::new(1).unwrap();
    let entries = vec![
        WALEntry::Delete { row_id: 5 },
        WALEntry::Insert {
            subject: SubjectID(1),
            predicate: PredicateID(0),
            object: ObjectID(1),
            confidence_bits: 0,
            timestamp: 0,
            context: kcm::types::ContextID(0),
            version: 0,
            priority: 0,
            owner: 0,
        },
    ];
    assert!(matches!(replay_into(&mut schema, &entries), Err(KcmError::InvalidArgument(_))));
    assert_eq!(schema.len(), 0);
    let two = vec![entries[1], entries[1]];
    assert!(matches!(replay_into(&mut schema, &two), Err(KcmError::OutOfMemory)));
    assert_eq!(schema.len(), 1);
}

#[test]
fn recovery_plans() {
    assert_eq!(plan_recovery(Some(100), true), RecoveryPlan::LoadDatabase);
    assert_eq!(plan_recovery(Some(32), true), RecoveryPlan::ReplayIntoEmpty);
    assert_eq!(plan_recovery(None, false), RecoveryPlan::StartEmpty);
    assert_eq!(plan_recovery(Some(33), false), RecoveryPlan::LoadDatabase);
}

#[test]
fn backup_fallback_restores_the_backup_or_fails() {
    let backup = Schema::new(4).unwrap();
    assert_eq!(backup_fallback(Some(backup)).unwrap().len(), 0);
    assert_eq!(
        backup_fallback(None).err(),
        Some(KcmError::Corrupted("Database and backup both corrupted".to_string()))
    );
}

#[test]
fn incremental_backup_selection_and_restore() {
    let mut schema = Schema::new(10).unwrap();
    for i in 0..5 {
        schema.append_fact(&fact(i)).unwrap();
    }
    schema.delete_fact(3).unwrap();
    let incr = incremental_schema(&schema, 2).unwrap();
    assert_eq!(incr.len(), 2);
    assert_eq!(incr.get_fact(0).unwrap().subject, SubjectID(2));
    assert_eq!(incr.get_fact(1).unwrap().subject, SubjectID(4));
    let mut base = Schema::new(3).unwrap();
    base.append_fact(&fact(0)).unwrap();
    append_live_rows(&mut base, &incr).unwrap();
    assert_eq!(base.len(), 3);
    let mut small = Schema::new(1).unwrap();
    assert!(matches!(append_live_rows(&mut small, &incr), Err(KcmError::OutOfMemory)));
    assert_eq!(small.len(), 1);
}

#[test]
fn manifest_layout() {
    assert_eq!(manifest_text("incremental", 1700000000, 42), "backup_type: incremental\ncreated: 1700000000\nbase_rows: 42\n");
}
