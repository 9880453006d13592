use kcm::crc::crc32;
use kcm::wal::{
    decode_entry_at, encode_delete_entry, encode_fact_entry, replay_entries, verify_wal_bytes, WALEntry, WalBuffer,
    WAL_DELETE_SIZE, WAL_INSERT_SIZE,
};
use kcm::wal_state::{checkpoint_due, TimeSpan, WalState, WalStateMachine};
use kcm::types::{ContextID, Fact, KcmError, ObjectID, PredicateID, SubjectID};

fn fact(s: u32, o: u32) -> Fact {
    Fact::new(SubjectID(s), PredicateID(0), ObjectID(o), 0.9f64.to_bits()).unwrap()
}

#[test]
fn test_wal_insert_entry_size() {
    let mut fact = Fact::new(SubjectID(1), PredicateID(0), ObjectID(2), 0.9f64.to_bits()).unwrap();
    fact.version = 3;
    fact.priority = 5;
    fact.owner = 42;
    let mut buffer = Vec::new();
    buffer.extend_from_slice(&1u8.to_le_bytes());
    buffer.extend_from_slice(&fact.subject.0.to_le_bytes());
    buffer.extend_from_slice(&fact.predicate.0.to_le_bytes());
    buffer.extend_from_slice(&fact.object.0.to_le_bytes());
    buffer.extend_from_slice(&f64::from_bits(fact.confidence_bits).to_le_bytes());
    buffer.extend_from_slice(&fact.timestamp.to_le_bytes());
    buffer.extend_from_slice(&fact.context.0.to_le_bytes());
    buffer.extend_from_slice(&fact.version.to_le_bytes());
    buffer.extend_from_slice(&fact.priority.to_le_bytes());
    buffer.extend_from_slice(&fact.owner.to_le_bytes());
    let checksum = crc32(&buffer);
    buffer.extend_from_slice(&checksum.to_le_bytes());
    assert_eq!(buffer.len(), WAL_INSERT_SIZE);
}

// Own tests.

#[test]
fn insert_record_layout() {
    let mut f = fact(1, 2);
    f.version = 3;
    f.priority = -5;
    f.owner = 42;
    f.context = ContextID(7);
    f.timestamp = -9;
    let rec = encode_fact_entry(&f);
    let mut payload = Vec::new();
    payload.extend_from_slice(&1u32.to_le_bytes());
    payload.push(0);
    payload.extend_from_slice(&2u32.to_le_bytes());
    payload.extend_from_slice(&f.confidence_bits.to_le_bytes());
    payload.extend_from_slice(&(-9i64).to_le_bytes());
    payload.push(7);
    payload.extend_from_slice(&3i32.to_le_bytes());
    payload.push((-5i8) as u8);
    payload.extend_from_slice(&42u16.to_le_bytes());
    let mut expected = vec![1u8];
    expected.extend_from_slice(&payload);
    expected.extend_from_slice(&crc32(&payload).to_le_bytes());
    assert_eq!(rec, expected);
}

#[test]
fn delete_record_layout() {
    let rec = encode_delete_entry(77);
    assert_eq!(rec.len(), WAL_DELETE_SIZE);
    assert_eq!(rec[0], 2);
    assert_eq!(&rec[1..9], &77u64.to_le_bytes());
    assert_eq!(&rec[9..13], &crc32(&77u64.to_le_bytes()).to_le_bytes());
}

#[test]
fn replay_gives_back_what_was_logged() {
    let mut buf = WalBuffer::new();
    buf.append_fact(&fact(1, 10));
    buf.append_delete(0);
    buf.append_fact(&fact(2, 20));
    let (entries, err) = replay_entries(buf.bytes());
    assert!(err.is_none());
    assert_eq!(entries.len(), 3);
    assert_eq!(entries[0].to_fact(), Some(fact(1, 10)));
    assert_eq!(entries[1], WALEntry::Delete { row_id: 0 });
    assert_eq!(entries[1].to_fact(), None);
    assert_eq!(entries[2].to_fact(), Some(fact(2, 20)));
    assert!(verify_wal_bytes(buf.bytes()).is_ok());
    buf.clear();
    assert!(buf.bytes().is_empty());
}

#[test]
fn corrupt_record_stops_replay() {
    let mut data = encode_fact_entry(&fact(1, 1));
    data.extend_from_slice(&encode_fact_entry(&fact(2, 2)));
    data[40] ^= 0xFF;
    let (entries, err) = replay_entries(&data);
    assert_eq!(entries.len(), 1);
    assert!(matches!(err, Some(KcmError::Corrupted(_))));
    assert!(verify_wal_bytes(&data).is_err());
    let truncated = &data[..50];
    assert!(decode_entry_at(truncated, 38).is_none());
    assert!(decode_entry_at(&data, 0).is_some());
    let (none, ok) = replay_entries(&[]);
    assert!(none.is_empty() && ok.is_none());
    assert!(matches!(replay_entries(&[9u8]).1, Some(KcmError::Corrupted(_))));
}

#[test]
fn buffer_asks_for_flush_at_threshold() {
    let mut buf = WalBuffer::new();
    let mut flushes = 0;
    for i in 0..2000u32 {
        if buf.append_fact(&fact(i, i)) {
            flushes += 1;
            buf.clear();
        }
    }
    assert!(flushes >= 1);
}

#[test]
fn state_machine_transitions() {
    let mut sm = WalStateMachine::new();
    assert_eq!(sm.state(), &WalState::Fresh);
    assert!(sm.transition(WalState::Checkpointing).is_err());
    assert!(sm.transition(WalState::Active).is_ok());
    sm.record_entry();
    sm.begin_checkpoint();
    assert_eq!(sm.state(), &WalState::Checkpointing);
    sm.complete_checkpoint();
    assert_eq!(sm.state(), &WalState::Active);
    assert!(!sm.should_checkpoint());
    sm.begin_replay();
    assert_eq!(sm.state(), &WalState::Replaying);
    sm.complete_replay();
    assert_eq!(sm.state(), &WalState::Truncated);
    assert!(sm.transition(WalState::Active).is_ok());
    sm.error("disk full".to_string());
    assert!(matches!(sm.transition(WalState::Active), Err(KcmError::InvalidArgument(_))));
}

#[test]
fn refused_transition_names_both_states() {
    let mut sm = WalStateMachine::new();
    assert_eq!(
        sm.transition(WalState::Checkpointing),
        Err(KcmError::InvalidArgument("Invalid WAL state transition: Fresh -> Checkpointing".to_string()))
    );
    sm.error("disk \"full\"".to_string());
    assert_eq!(
        sm.transition(WalState::Active),
        Err(KcmError::InvalidArgument(
            "Invalid WAL state transition: Error(\"disk \\\"full\\\"\") -> Active".to_string()
        ))
    );
}

#[test]
fn unknown_record_tag_is_reported_with_its_offset() {
    let (entries, err) = replay_entries(&[7u8, 0, 0, 0]);
    assert!(entries.is_empty());
    assert_eq!(err, Some(KcmError::Corrupted("Unknown WAL op type: 7 at offset 0".to_string())));
    assert_eq!(verify_wal_bytes(&[7u8]), Err(KcmError::Corrupted("Unknown op type 7 at offset 0".to_string())));
}

#[test]
fn truncated_records_are_reported_with_sizes() {
    let mut log = encode_delete_entry(9);
    log.extend_from_slice(&[1u8, 0, 0]);
    let (entries, err) = replay_entries(&log);
    assert_eq!(entries.len(), 1);
    assert_eq!(
        err,
        Some(KcmError::Corrupted("Truncated WAL insert entry at offset 13: need 38 bytes, have 3".to_string()))
    );
    assert_eq!(verify_wal_bytes(&log), Err(KcmError::Corrupted("Truncated INSERT entry at offset 13".to_string())));
    let (_, err) = replay_entries(&[2u8, 1]);
    assert_eq!(
        err,
        Some(KcmError::Corrupted("Truncated WAL delete entry at offset 0: need 13 bytes, have 2".to_string()))
    );
    assert_eq!(verify_wal_bytes(&[2u8, 1]), Err(KcmError::Corrupted("Truncated DELETE entry at offset 0".to_string())));
}

#[test]
fn checksum_mismatch_names_both_checksums() {
    let mut log = encode_delete_entry(1);
    let mut bad = encode_delete_entry(2);
    let good_crc = crc32(&bad[1..9]);
    bad[9..13].copy_from_slice(&0xabu32.to_le_bytes());
    log.extend_from_slice(&bad);
    let (_, err) = replay_entries(&log);
    let expected = format!("WAL delete checksum mismatch at offset 13: expected 0x000000ab, got {:#010x}", good_crc);
    assert_eq!(err, Some(KcmError::Corrupted(expected)));
    let expected = format!("CRC32 mismatch at DELETE entry 1: stored=0xab, computed={:#x}", good_crc);
    assert_eq!(verify_wal_bytes(&log), Err(KcmError::Corrupted(expected)));
}

#[test]
fn checkpoint_interval_is_replaced() {
    let m = WalStateMachine::new().with_checkpoint_interval(TimeSpan::from_secs(5));
    assert_eq!(*m.state(), WalState::Fresh);
    assert!(!m.should_checkpoint());
}

#[test]
fn checkpoint_due_by_time_or_entries() {
    let minute = TimeSpan::from_secs(60).nanos;
    assert_eq!(minute, 60_000_000_000);
    assert!(!checkpoint_due(None, minute, 9_999, 10_000));
    assert!(checkpoint_due(None, minute, 10_000, 10_000));
    assert!(!checkpoint_due(Some(minute), minute, 0, 10_000));
    assert!(checkpoint_due(Some(minute + 1), minute, 0, 10_000));
    assert!(checkpoint_due(Some(0), minute, 10_001, 10_000));
}

#[test]
fn ten_thousand_entries_make_a_checkpoint_due() {
    let mut m = WalStateMachine::new();
    for _ in 0..9_999 {
        m.record_entry();
    }
    assert!(!m.should_checkpoint());
    m.record_entry();
    assert!(m.should_checkpoint());
    m.record_entry();
    assert!(m.should_checkpoint());
    m.begin_checkpoint();
    m.complete_checkpoint();
    assert!(!m.should_checkpoint());
}
