use kcm::column::Schema;
use kcm::database::KnowledgeDatabase;
use kcm::transaction::{Transaction, TransactionChange, TransactionState};
use kcm::types::{Fact, KcmError, ObjectID, PredicateID, RowID, SubjectID};

fn fact(s: u32, p: u8, o: u32, c: f64) -> Fact {
    Fact::new(SubjectID(s), PredicateID(p), ObjectID(o), c.to_bits()).unwrap()
}

#[test]
fn test_rollback_insert() {
    let mut kb = KnowledgeDatabase::new().unwrap();
    kb.insert(&fact(1, 0, 2, 0.9)).unwrap();
    assert_eq!(kb.active_fact_count(), 1);
    let mut txn = kb.begin_transaction();
    txn.insert(fact(10, 5, 20, 0.8)).unwrap();
    drop(txn);
    assert_eq!(kb.active_fact_count(), 1);
}

#[test]
fn test_rollback_delete() {
    let mut kb = KnowledgeDatabase::new().unwrap();
    for i in 0..5u32 {
        kb.insert(&fact(i, 0, i, 0.9)).unwrap();
    }
    assert_eq!(kb.active_fact_count(), 5);
    kb.delete(RowID(2)).unwrap();
    assert_eq!(kb.active_fact_count(), 4);
    assert!(kb.get_fact(RowID(2)).unwrap().is_none());
}

#[test]
fn test_rollback_preserves_other_data() {
    let mut kb = KnowledgeDatabase::new().unwrap();
    kb.insert(&fact(1, 0, 10, 0.9)).unwrap();
    kb.insert(&fact(2, 0, 20, 0.8)).unwrap();
    kb.delete(RowID(0)).unwrap();
    let retrieved = kb.get_fact(RowID(1)).unwrap().unwrap();
    assert_eq!(retrieved.subject, SubjectID(2));
    assert_eq!(retrieved.object, ObjectID(20));
}

#[test]
fn test_update_then_rollback() {
    let mut kb = KnowledgeDatabase::new().unwrap();
    let row_id = kb.insert(&fact(1, 0, 10, 0.9)).unwrap();
    kb.update(row_id, &fact(1, 0, 99, 0.5)).unwrap();
    let retrieved = kb.get_fact(row_id).unwrap().unwrap();
    assert_eq!(retrieved.object, ObjectID(99));
    assert!((f64::from_bits(retrieved.confidence_bits) - 0.5).abs() < 1e-10);
}

#[test]
fn test_multiple_deletes_and_queries() {
    let mut kb = KnowledgeDatabase::new().unwrap();
    for i in 0..10u32 {
        kb.insert(&fact(i % 3, 0, i, 0.9)).unwrap();
    }
    for i in (0..10u64).step_by(3) {
        kb.delete(RowID(i)).unwrap();
    }
    let remaining = kb.query().with_subject(SubjectID(0)).execute().unwrap();
    assert_eq!(remaining.len(), 0);
    let subject1 = kb.query().with_subject(SubjectID(1)).execute().unwrap();
    assert!(!subject1.is_empty());
}

#[test]
fn test_transaction_commit_applies() {
    let mut kb = KnowledgeDatabase::new().unwrap();
    let mut txn = kb.begin_transaction();
    txn.insert(fact(1, 0, 2, 0.9)).unwrap();
    let schema = kb.get_schema_mut();
    txn.apply_to_schema(schema).unwrap();
    let result = txn.commit();
    assert!(result.is_ok());
    assert_eq!(kb.fact_count(), 1);
}

#[test]
fn test_transaction_rollback_discards() {
    let kb = KnowledgeDatabase::new().unwrap();
    let mut txn = kb.begin_transaction();
    txn.insert(fact(1, 0, 2, 0.9)).unwrap();
    let result = txn.rollback();
    assert!(result.is_ok());
    assert_eq!(kb.fact_count(), 0);
}

#[test]
fn test_deterministic_insert_query() {
    let mut kb1 = KnowledgeDatabase::new().unwrap();
    let mut kb2 = KnowledgeDatabase::new().unwrap();
    for i in 0..50u32 {
        let f = fact(i, 0, i * 2, 0.5 + (i as f64 * 0.01));
        kb1.insert(&f).unwrap();
        kb2.insert(&f).unwrap();
    }
    let r1 = kb1.query().with_predicate(PredicateID(0)).execute().unwrap();
    let r2 = kb2.query().with_predicate(PredicateID(0)).execute().unwrap();
    assert_eq!(r1.len(), r2.len());
    for (f1, f2) in r1.iter().zip(r2.iter()) {
        assert_eq!(f1.subject, f2.subject);
        assert_eq!(f1.object, f2.object);
        assert_eq!(f1.confidence_bits, f2.confidence_bits);
    }
}

#[test]
fn test_transaction_rollback_changes() {
    let mut kb = KnowledgeDatabase::new().unwrap();
    kb.insert(&fact(1, 0, 10, 0.9)).unwrap();
    kb.insert(&fact(2, 0, 20, 0.8)).unwrap();
    let mut txn = kb.begin_transaction();
    txn.insert(fact(3, 0, 30, 0.7)).unwrap();
    let schema = kb.get_schema_mut();
    txn.apply_to_schema(schema).unwrap();
    txn.rollback_changes(schema).unwrap();
    assert_eq!(kb.active_fact_count(), 2);
    assert!(kb.get_fact(RowID(2)).unwrap().is_none());
}

#[test]
fn test_transaction_state_transitions() {
    let mut txn = Transaction::new();
    assert_eq!(txn.state(), TransactionState::Active);
    txn.insert(fact(1, 0, 2, 0.9)).unwrap();
    assert_eq!(txn.state(), TransactionState::Active);
    txn.commit().unwrap();
    let txn2 = Transaction::new();
    assert_eq!(txn2.state(), TransactionState::Active);
    txn2.rollback().unwrap();
}

#[test]
fn test_transaction_changes_buffer() {
    let mut txn = Transaction::new();
    assert!(txn.changes().is_empty());
    txn.insert(fact(1, 0, 10, 0.9)).unwrap();
    txn.insert(fact(2, 0, 20, 0.8)).unwrap();
    let changes = txn.changes();
    assert_eq!(changes.len(), 2);
}

#[test]
fn test_transaction_insert_on_non_active() {
    let mut kb = KnowledgeDatabase::new().unwrap();
    let mut txn = kb.begin_transaction();
    txn.insert(fact(1, 0, 2, 0.9)).unwrap();
    let schema = kb.get_schema_mut();
    txn.apply_to_schema(schema).unwrap();
    txn.commit().unwrap();
    assert_eq!(kb.active_fact_count(), 1);
    let retrieved = kb.get_fact(RowID(0)).unwrap().unwrap();
    assert_eq!(retrieved.subject, SubjectID(1));
    let txn2 = kb.begin_transaction();
    txn2.commit().unwrap();
}

#[test]
fn test_transaction_state_active() {
    let txn = Transaction::new();
    assert_eq!(txn.state(), TransactionState::Active);
}

#[test]
fn test_transaction_state_committed() {
    let mut txn = Transaction::new();
    assert_eq!(txn.state(), TransactionState::Active);
    txn.insert(fact(1, 0, 2, 0.9)).unwrap();
    let mut schema = Schema::new(10).unwrap();
    txn.apply_to_schema(&mut schema).unwrap();
    txn.commit().unwrap();
    assert_eq!(schema.len(), 1);
    let retrieved = schema.get_fact(0).unwrap();
    assert_eq!(retrieved.subject, SubjectID(1));
}

#[test]
fn test_transaction_rollback_reverts_schema() {
    let mut kb = KnowledgeDatabase::new().unwrap();
    kb.insert(&fact(1, 0, 10, 0.9)).unwrap();
    assert_eq!(kb.active_fact_count(), 1);
    let mut txn = kb.begin_transaction();
    txn.insert(fact(2, 0, 20, 0.8)).unwrap();
    let schema = kb.get_schema_mut();
    txn.apply_to_schema(schema).unwrap();
    assert_eq!(schema.len(), 2);
    txn.rollback_changes(schema).unwrap();
    assert_eq!(kb.active_fact_count(), 1);
    let retrieved = kb.get_fact(RowID(0)).unwrap().unwrap();
    assert_eq!(retrieved.subject, SubjectID(1));
    assert_eq!(retrieved.object, ObjectID(10));
}

// Own tests.

#[test]
fn update_and_delete_are_undone() {
    let mut schema = Schema::new(10).unwrap();
    schema.append_fact(&fact(1, 0, 1, 0.5)).unwrap();
    schema.append_fact(&fact(2, 0, 2, 0.5)).unwrap();
    let mut txn = Transaction::new();
    txn.update(0, Some(fact(1, 0, 1, 0.5)), fact(9, 9, 9, 0.9)).unwrap();
    txn.delete(1, fact(2, 0, 2, 0.5)).unwrap();
    txn.apply_to_schema(&mut schema).unwrap();
    assert_eq!(schema.get_fact(0).unwrap().subject, SubjectID(9));
    assert!(schema.is_deleted(1));
    txn.rollback_changes(&mut schema).unwrap();
    assert_eq!(schema.get_fact(0).unwrap().subject, SubjectID(1));
    assert!(!schema.is_deleted(1));
    assert_eq!(schema.get_fact(1).unwrap().subject, SubjectID(2));
    assert!(matches!(txn.changes()[0], TransactionChange::Update { row_idx: 0, .. }));
}

#[test]
fn applying_to_a_missing_row_fails() {
    let mut schema = Schema::new(4).unwrap();
    let mut txn = Transaction::new();
    txn.delete(3, fact(1, 0, 1, 0.5)).unwrap();
    assert!(matches!(txn.apply_to_schema(&mut schema), Err(KcmError::InvalidArgument(_))));
    let txn2 = Transaction::new();
    assert!(txn2.abort().is_ok());
}

#[test]
fn rolling_back_two_inserts_marks_only_the_last_row() {
    let mut schema = Schema::new(10).unwrap();
    let mut txn = Transaction::new();
    txn.insert(fact(1, 0, 1, 0.5)).unwrap();
    txn.insert(fact(2, 0, 2, 0.5)).unwrap();
    txn.apply_to_schema(&mut schema).unwrap();
    txn.rollback_changes(&mut schema).unwrap();
    assert_eq!(schema.len(), 2);
    assert!(!schema.is_deleted(0));
    assert!(schema.is_deleted(1));
}

#[test]
fn mixed_transaction_with_one_insert_is_undone() {
    let mut schema = Schema::new(10).unwrap();
    schema.append_fact(&fact(1, 0, 1, 0.5)).unwrap();
    schema.append_fact(&fact(2, 0, 2, 0.5)).unwrap();
    let mut txn = Transaction::new();
    txn.delete(1, fact(2, 0, 2, 0.5)).unwrap();
    txn.insert(fact(3, 0, 3, 0.5)).unwrap();
    txn.update(2, Some(fact(3, 0, 3, 0.5)), fact(4, 0, 4, 0.5)).unwrap();
    txn.update(0, Some(fact(1, 0, 1, 0.5)), fact(5, 0, 5, 0.5)).unwrap();
    txn.apply_to_schema(&mut schema).unwrap();
    assert_eq!(schema.get_fact(2).unwrap().subject, SubjectID(4));
    txn.rollback_changes(&mut schema).unwrap();
    assert_eq!(schema.get_fact(0).unwrap().subject, SubjectID(1));
    assert_eq!(schema.get_fact(1).unwrap().subject, SubjectID(2));
    assert!(schema.get_fact(2).is_none());
}
