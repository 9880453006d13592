use kcm::database::KnowledgeDatabase;
use kcm::types::{Fact, ObjectID, PredicateID, RowID, SubjectID};

fn conf(x: f64) -> u64 {
    x.to_bits()
}

fn fact(s: u32, p: u8, o: u32, c: f64) -> Fact {
    Fact::new(SubjectID(s), PredicateID(p), ObjectID(o), conf(c)).unwrap()
}

#[test]
fn test_database_new() {
    let kb = KnowledgeDatabase::new().unwrap();
    assert_eq!(kb.fact_count(), 0);
}

#[test]
fn test_database_insert_and_query() {
    let mut kb = KnowledgeDatabase::new().unwrap();
    let row1 = kb.insert(&fact(1, 0, 100, 0.9)).unwrap();
    let row2 = kb.insert(&fact(2, 1, 200, 0.8)).unwrap();
    assert_eq!(row1, RowID(0));
    assert_eq!(row2, RowID(1));
    assert_eq!(kb.fact_count(), 2);
    let results = kb.query().execute().unwrap();
    assert_eq!(results.len(), 2);
}

#[test]
fn test_database_query_by_subject() {
    let mut kb = KnowledgeDatabase::new().unwrap();
    for i in 0..10u32 {
        kb.insert(&fact(i % 3, 0, i, 0.9)).unwrap();
    }
    let results = kb.query().with_subject(SubjectID(1)).execute().unwrap();
    assert!(!results.is_empty());
    for f in &results {
        assert_eq!(f.subject, SubjectID(1));
    }
}

#[test]
fn test_database_query_by_predicate() {
    let mut kb = KnowledgeDatabase::new().unwrap();
    for i in 0..10u32 {
        kb.insert(&fact(i, (i % 3) as u8, i, 0.9)).unwrap();
    }
    let results = kb.query().with_predicate(PredicateID(2)).execute().unwrap();
    for f in &results {
        assert_eq!(f.predicate, PredicateID(2));
    }
}

#[test]
fn test_database_query_by_object() {
    let mut kb = KnowledgeDatabase::new().unwrap();
    for i in 0..10u32 {
        kb.insert(&fact(i, 0, i * 10, 0.9)).unwrap();
    }
    let results = kb.query().with_object(ObjectID(30)).execute().unwrap();
    assert_eq!(results.len(), 1);
    assert_eq!(results[0].object, ObjectID(30));
}

#[test]
fn test_database_query_by_confidence() {
    let mut kb = KnowledgeDatabase::new().unwrap();
    for i in 0..10u32 {
        kb.insert(&fact(i, 0, i, 0.1 + (i as f64 * 0.1))).unwrap();
    }
    let results = kb.query().with_confidence(conf(0.5)).execute().unwrap();
    for f in &results {
        assert!(f64::from_bits(f.confidence_bits) >= 0.5);
    }
}

#[test]
fn test_database_insert_batch() {
    let mut kb = KnowledgeDatabase::new().unwrap();
    let facts: Vec<Fact> = (0..100).map(|i| fact(i % 10, (i % 5) as u8, i, 0.5)).collect();
    let row_ids = kb.insert_batch(&facts).unwrap();
    assert_eq!(row_ids.len(), 100);
    assert_eq!(kb.fact_count(), 100);
}

#[test]
fn test_database_get_fact() {
    let mut kb = KnowledgeDatabase::new().unwrap();
    let row_id = kb.insert(&fact(42, 7, 99, 0.77)).unwrap();
    let retrieved = kb.get_fact(row_id).unwrap().unwrap();
    assert_eq!(retrieved.subject, SubjectID(42));
    assert_eq!(retrieved.predicate, PredicateID(7));
    assert_eq!(retrieved.object, ObjectID(99));
    assert_eq!(f64::from_bits(retrieved.confidence_bits), 0.77);
}

#[test]
fn test_database_get_fact_invalid() {
    let kb = KnowledgeDatabase::new().unwrap();
    let result = kb.get_fact(RowID(999));
    assert!(result.unwrap().is_none());
}

#[test]
fn test_database_dictionary() {
    let mut kb = KnowledgeDatabase::new().unwrap();
    let id1 = kb.dict_insert_subject("Alice").unwrap();
    let id2 = kb.dict_insert_subject("Bob").unwrap();
    let id1_again = kb.dict_insert_subject("Alice").unwrap();
    assert_eq!(id1, id1_again);
    assert_ne!(id1, id2);
    assert_eq!(kb.dict_get_subject(id1), Some("Alice".to_string()));
    assert_eq!(kb.dict_get_subject(id2), Some("Bob".to_string()));
    assert_eq!(kb.dict_lookup_subject("Alice"), Some(id1));
    assert_eq!(kb.dict_lookup_subject("Unknown"), None);
}

#[test]
fn test_database_determinism() {
    let mut kb = KnowledgeDatabase::new().unwrap();
    for i in 0..50 {
        kb.insert(&fact(i, 0, i * 2, 0.5 + (i as f64 * 0.01))).unwrap();
    }
    let mut results_history = Vec::new();
    for _ in 0..20 {
        results_history.push(kb.query().execute().unwrap());
    }
    for i in 1..20 {
        assert_eq!(results_history[0], results_history[i]);
    }
}

#[test]
fn test_transaction_begin_commit() {
    let kb = KnowledgeDatabase::new().unwrap();
    let mut txn = kb.begin_transaction();
    txn.insert(fact(1, 0, 2, 0.9)).unwrap();
    let result = txn.commit();
    assert!(result.is_ok());
}

#[test]
fn test_transaction_rollback() {
    let kb = KnowledgeDatabase::new().unwrap();
    let mut txn = kb.begin_transaction();
    txn.insert(fact(1, 0, 2, 0.9)).unwrap();
    let result = txn.rollback();
    assert!(result.is_ok());
}

#[test]
fn test_database_delete() {
    let mut kb = KnowledgeDatabase::new().unwrap();
    let row1 = kb.insert(&fact(1, 0, 100, 0.9)).unwrap();
    let _row2 = kb.insert(&fact(2, 1, 200, 0.8)).unwrap();
    assert_eq!(kb.fact_count(), 2);
    assert_eq!(kb.active_fact_count(), 2);
    kb.delete(row1).unwrap();
    assert_eq!(kb.fact_count(), 2);
    assert_eq!(kb.active_fact_count(), 1);
    let results = kb.query().execute().unwrap();
    assert_eq!(results.len(), 1);
    assert_eq!(results[0].subject, SubjectID(2));
}

#[test]
fn test_database_delete_invalid() {
    let mut kb = KnowledgeDatabase::new().unwrap();
    let result = kb.delete(RowID(999));
    assert!(result.is_err());
}

#[test]
fn test_database_update() {
    let mut kb = KnowledgeDatabase::new().unwrap();
    let row_id = kb.insert(&fact(1, 0, 100, 0.9)).unwrap();
    kb.update(row_id, &fact(5, 2, 500, 0.7)).unwrap();
    let retrieved = kb.get_fact(row_id).unwrap().unwrap();
    assert_eq!(retrieved.subject, SubjectID(5));
    assert_eq!(retrieved.predicate, PredicateID(2));
    assert_eq!(retrieved.object, ObjectID(500));
    assert_eq!(f64::from_bits(retrieved.confidence_bits), 0.7);
}

#[test]
fn test_database_update_invalid() {
    let mut kb = KnowledgeDatabase::new().unwrap();
    let result = kb.update(RowID(999), &fact(1, 0, 100, 0.9));
    assert!(result.is_err());
}

#[test]
fn test_database_update_then_query() {
    let mut kb = KnowledgeDatabase::new().unwrap();
    let row1 = kb.insert(&fact(1, 0, 100, 0.9)).unwrap();
    let _row2 = kb.insert(&fact(2, 0, 200, 0.8)).unwrap();
    kb.update(row1, &fact(3, 0, 300, 0.95)).unwrap();
    let results = kb.query().with_subject(SubjectID(3)).execute().unwrap();
    assert_eq!(results.len(), 1);
    assert_eq!(results[0].subject, SubjectID(3));
    assert_eq!(results[0].object, ObjectID(300));
}

#[test]
fn test_database_delete_then_insert() {
    let mut kb = KnowledgeDatabase::new().unwrap();
    let row1 = kb.insert(&fact(1, 0, 100, 0.9)).unwrap();
    assert_eq!(kb.active_fact_count(), 1);
    kb.delete(row1).unwrap();
    assert_eq!(kb.active_fact_count(), 0);
    let _row2 = kb.insert(&fact(2, 1, 200, 0.8)).unwrap();
    assert_eq!(kb.active_fact_count(), 1);
    let results = kb.query().execute().unwrap();
    assert_eq!(results.len(), 1);
    assert_eq!(results[0].subject, SubjectID(2));
}

#[test]
fn test_database_active_count_after_multiple_operations() {
    let mut kb = KnowledgeDatabase::new().unwrap();
    let mut row_ids = Vec::new();
    for i in 0..10u32 {
        row_ids.push(kb.insert(&fact(i, 0, i, 0.9)).unwrap());
    }
    assert_eq!(kb.active_fact_count(), 10);
    for row_id in &row_ids[..5] {
        kb.delete(*row_id).unwrap();
    }
    assert_eq!(kb.active_fact_count(), 5);
    kb.update(row_ids[5], &fact(99, 9, 999, 0.5)).unwrap();
    assert_eq!(kb.active_fact_count(), 5);
    let results = kb.query().with_subject(SubjectID(99)).execute().unwrap();
    assert_eq!(results.len(), 1);
}

#[test]
fn test_compaction_reclaims_space() {
    let mut kb = KnowledgeDatabase::new().unwrap();
    for i in 0..100u32 {
        kb.insert(&fact(i, 0, i, 0.9)).unwrap();
    }
    assert_eq!(kb.active_fact_count(), 100);
    for i in 0..50u64 {
        kb.delete(RowID(i)).unwrap();
    }
    assert_eq!(kb.active_fact_count(), 50);
    let compacted = kb.compact().unwrap();
    assert_eq!(compacted.active_fact_count(), 50);
    assert_eq!(compacted.fact_count(), 50);
    let results = compacted.query().execute().unwrap();
    assert_eq!(results.len(), 50);
}

#[test]
fn test_compaction_preserves_data() {
    let mut kb = KnowledgeDatabase::new().unwrap();
    for i in 0..20u32 {
        kb.insert(&fact(i, (i % 5) as u8, i * 3, 0.5 + (i as f64 * 0.02))).unwrap();
    }
    for i in (0..20u64).step_by(2) {
        kb.delete(RowID(i)).unwrap();
    }
    let compacted = kb.compact().unwrap();
    let results = compacted.query().execute().unwrap();
    assert_eq!(results.len(), 10);
    for f in &results {
        assert!(f.subject.0 < 20);
        let c = f64::from_bits(f.confidence_bits);
        assert!(c >= 0.0 && c < 1.0);
    }
}

#[test]
fn test_insert_query() {
    let mut kb = KnowledgeDatabase::new().unwrap();
    let _row_id = kb.insert(&fact(1, 0, 2, 0.9)).unwrap();
    assert_eq!(kb.fact_count(), 1);
    let results = kb.query().with_subject(SubjectID(1)).execute().unwrap();
    assert_eq!(results.len(), 1);
    assert_eq!(results[0].subject, SubjectID(1));
}

#[test]
fn test_transaction() {
    let kb = KnowledgeDatabase::new().unwrap();
    let mut txn = kb.begin_transaction();
    txn.insert(fact(10, 5, 20, 0.8)).unwrap();
    let result = txn.commit();
    assert!(result.is_ok());
}

#[test]
fn test_insert_batch() {
    let mut kb = KnowledgeDatabase::new().unwrap();
    let facts: Vec<Fact> = (0..10).map(|i| fact(i, (i % 5) as u8, i * 10, 0.5 + (i as f64 * 0.05))).collect();
    let row_ids = kb.insert_batch(&facts).unwrap();
    assert_eq!(row_ids.len(), 10);
    assert_eq!(kb.fact_count(), 10);
}

#[test]
fn test_query_with_confidence_filter() {
    let mut kb = KnowledgeDatabase::new().unwrap();
    for i in 0..5 {
        kb.insert(&fact(1, 0, i, 0.2 + (i as f64 * 0.2))).unwrap();
    }
    let results = kb.query().with_subject(SubjectID(1)).with_confidence(conf(0.5)).execute().unwrap();
    assert!(results.iter().all(|f| f64::from_bits(f.confidence_bits) >= 0.5));
}

#[test]
fn test_get_fact() {
    let mut kb = KnowledgeDatabase::new().unwrap();
    let row_id = kb.insert(&fact(42, 3, 99, 0.75)).unwrap();
    let retrieved = kb.get_fact(row_id).unwrap().unwrap();
    assert_eq!(retrieved.subject, SubjectID(42));
    assert_eq!(retrieved.predicate, PredicateID(3));
    assert_eq!(retrieved.object, ObjectID(99));
    assert_eq!(f64::from_bits(retrieved.confidence_bits), 0.75);
}

#[test]
fn test_dictionary_operations() {
    let mut kb = KnowledgeDatabase::new().unwrap();
    let id1 = kb.dict_insert_subject("Alice").unwrap();
    let id2 = kb.dict_insert_subject("Bob").unwrap();
    let id1_again = kb.dict_insert_subject("Alice").unwrap();
    assert_eq!(id1, id1_again);
    assert_ne!(id1, id2);
    assert_eq!(kb.dict_get_subject(id1), Some("Alice".to_string()));
    assert_eq!(kb.dict_get_subject(id2), Some("Bob".to_string()));
    assert_eq!(kb.dict_lookup_subject("Alice"), Some(id1));
    assert_eq!(kb.dict_lookup_subject("Charlie"), None);
}

#[test]
fn test_determinism() {
    let mut kb = KnowledgeDatabase::new().unwrap();
    for i in 0..100 {
        kb.insert(&fact(i, 0, i * 2, 0.5 + (i as f64 * 0.001))).unwrap();
    }
    let mut results_history = Vec::new();
    for _ in 0..10 {
        results_history.push(kb.query().execute().unwrap());
    }
    for i in 1..10 {
        assert_eq!(results_history[0], results_history[i]);
    }
}

// Own tests.

#[test]
fn ordered_and_limited_queries() {
    let mut kb = KnowledgeDatabase::new().unwrap();
    kb.insert(&fact(1, 0, 1, 0.3)).unwrap();
    kb.insert(&fact(1, 0, 2, 0.9)).unwrap();
    kb.insert(&fact(1, 0, 3, 0.6)).unwrap();
    kb.insert(&fact(1, 0, 4, 0.9)).unwrap();
    let desc = kb.query().with_subject(SubjectID(1)).with_order_by_confidence_desc().execute().unwrap();
    let objs: Vec<u32> = desc.iter().map(|f| f.object.0).collect();
    assert_eq!(objs, vec![2, 4, 3, 1]);
    let asc = kb.query().with_subject(SubjectID(1)).with_order_by_confidence_asc().with_limit(2).execute().unwrap();
    let objs: Vec<u32> = asc.iter().map(|f| f.object.0).collect();
    assert_eq!(objs, vec![1, 3]);
    let unfiltered = kb.query().with_limit(1).execute().unwrap();
    assert_eq!(unfiltered.len(), 4);
}

#[test]
fn deleted_row_reads_as_none() {
    let mut kb = KnowledgeDatabase::new().unwrap();
    let row = kb.insert(&fact(7, 1, 8, 0.5)).unwrap();
    kb.delete(row).unwrap();
    assert_eq!(kb.get_fact(row).unwrap(), None);
    assert_eq!(kb.get_schema().len(), 1);
}
