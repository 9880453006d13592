use kcm::column::Schema;
use kcm::file_format::{DatabaseFile, HEADER_LEN};
use kcm::hash::hash_blake3;
use kcm::types::{Fact, KcmError, ObjectID, PredicateID, SubjectID};

fn schema_of(n: usize) -> Schema {
    let mut schema = Schema::new(n.max(1)).unwrap();
    for i in 0..n {
        let f = Fact::new(
            SubjectID(i as u32),
            PredicateID((i % 10) as u8),
            ObjectID((i * 3) as u32),
            (0.1 + i as f64 * 0.001).to_bits(),
        )
        .unwrap();
        schema.append_fact(&f).unwrap();
    }
    schema
}

#[test]
fn roundtrip_various_sizes() {
    for n in [1usize, 5, 50, 500] {
        let schema = schema_of(n);
        let bytes = DatabaseFile::file_bytes(&schema, 1234);
        let loaded = DatabaseFile::parse(&bytes).unwrap();
        assert_eq!(loaded.len(), n);
        for i in 0..n {
            assert_eq!(schema.get_fact(i), loaded.get_fact(i));
        }
        assert!(DatabaseFile::verify(&bytes).unwrap());
    }
}

#[test]
fn header_layout() {
    let bytes = DatabaseFile::serialize(&schema_of(2), 77);
    assert_eq!(&bytes[..5], b"KCMDB");
    assert_eq!(bytes[5], 1);
    assert_eq!(&bytes[6..14], &2u64.to_le_bytes());
    assert_eq!(bytes[14], 11);
    assert_eq!(&bytes[15..23], &77i64.to_le_bytes());
    assert_eq!(&bytes[23..31], &77i64.to_le_bytes());
    assert_eq!(HEADER_LEN, 31);
    let full = DatabaseFile::file_bytes(&schema_of(2), 77);
    assert_eq!(&full[..bytes.len()], &bytes[..]);
    assert_eq!(&full[bytes.len()..], &hash_blake3(&bytes));
}

#[test]
fn corrupt_files_are_refused() {
    let good = DatabaseFile::file_bytes(&schema_of(3), 1);
    let mut bad_magic = good.clone();
    bad_magic[0] = b'X';
    assert_eq!(DatabaseFile::parse(&bad_magic).err(), Some(KcmError::Corrupted("Invalid database magic".to_string())));
    let mut bad_version = good.clone();
    bad_version[5] = 99;
    assert_eq!(DatabaseFile::parse(&bad_version).err(), Some(KcmError::Corrupted("Unsupported version: 99".to_string())));
    assert!(matches!(DatabaseFile::parse(&good[..20]), Err(KcmError::Corrupted(_))));
    assert_eq!(DatabaseFile::parse(&good[..60]).err(), Some(KcmError::Corrupted("Truncated column".to_string())));
    assert_eq!(DatabaseFile::parse(&[]).err(), Some(KcmError::Corrupted("Database file too short".to_string())));
}

#[test]
fn empty_schema_loads_with_room_to_replay() {
    let bytes = DatabaseFile::file_bytes(&Schema::new(50).unwrap(), 5);
    assert!(DatabaseFile::verify(&bytes).unwrap());
    let mut loaded = DatabaseFile::parse(&bytes).unwrap();
    assert_eq!(loaded.len(), 0);
    let f = Fact::new(SubjectID(7), PredicateID(1), ObjectID(8), 0.5f64.to_bits()).unwrap();
    loaded.append_fact(&f).unwrap();
    assert_eq!(loaded.len(), 1);
    let mut three = DatabaseFile::parse(&DatabaseFile::file_bytes(&schema_of(3), 1)).unwrap();
    three.append_fact(&f).unwrap();
    assert_eq!(three.len(), 4);
    assert_eq!(three.get_fact(3), Some(f));
}

#[test]
fn checksum_detects_changes() {
    let mut bytes = DatabaseFile::file_bytes(&schema_of(10), 9);
    assert!(DatabaseFile::verify(&bytes).unwrap());
    let last = bytes.len() - 1;
    bytes[last] ^= 0xFF;
    assert!(!DatabaseFile::verify(&bytes).unwrap());
    bytes[last] ^= 0xFF;
    bytes[40] ^= 1;
    assert!(!DatabaseFile::verify(&bytes).unwrap());
    assert!(!DatabaseFile::verify(&[0u8; 10]).unwrap());
    assert_eq!(DatabaseFile::compute_checksum(b"abc"), hash_blake3(b"abc"));
}
