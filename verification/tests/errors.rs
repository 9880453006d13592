use kcm::errors::StorageError;
use kcm::types::KcmError;

#[test]
fn test_storage_error_display() {
    let err = StorageError::Corrupted("test corruption".to_string());
    assert!(err.message().contains("test corruption"));
}

#[test]
fn test_storage_error_conversion() {
    let err = StorageError::ColumnFull {
        capacity: 100,
        current: 100,
    };
    let kcm_err: KcmError = err.to_kcm_error();
    assert!(matches!(kcm_err, KcmError::OutOfMemory));
}

#[test]
fn test_storage_error_index_out_of_bounds() {
    let err = StorageError::IndexOutOfBounds { index: 50, len: 10 };
    let kcm_err: KcmError = err.to_kcm_error();
    match kcm_err {
        KcmError::InvalidArgument(msg) => {
            assert!(msg.contains("50"));
            assert!(msg.contains("10"));
        }
        _ => panic!("Expected InvalidArgument"),
    }
}

#[test]
fn storage_error_messages_are_exact() {
    let io = StorageError::Io(std::io::Error::new(std::io::ErrorKind::Other, "disk gone"));
    assert_eq!(io.message(), "IO error: disk gone");
    assert_eq!(StorageError::Compression("bad frame".to_string()).message(), "Compression error: bad frame");
    assert_eq!(StorageError::Corrupted("x".to_string()).message(), "Corruption detected: x");
    assert_eq!(
        StorageError::ColumnFull { capacity: 100, current: 7 }.message(),
        "Column full: capacity 100, current 7"
    );
    assert_eq!(
        StorageError::IndexOutOfBounds { index: 50, len: 10 }.message(),
        "Index out of bounds: 50 >= 10"
    );
    assert_eq!(StorageError::InvalidEncoding("utf8".to_string()).message(), "Invalid encoding: utf8");
    assert_eq!(
        StorageError::HashMismatch { expected: "aa".to_string(), actual: "bb".to_string() }.message(),
        "Hash mismatch: expected aa, got bb"
    );
}

#[test]
fn storage_errors_convert_by_kind() {
    let io = StorageError::Io(std::io::Error::new(std::io::ErrorKind::Other, "disk gone")).to_kcm_error();
    assert_eq!(io, KcmError::Io("disk gone".to_string()));
    assert_eq!(
        StorageError::Compression("bad frame".to_string()).to_kcm_error(),
        KcmError::Io("bad frame".to_string())
    );
    assert_eq!(StorageError::Corrupted("x".to_string()).to_kcm_error(), KcmError::Corrupted("x".to_string()));
    assert_eq!(
        StorageError::IndexOutOfBounds { index: 50, len: 10 }.to_kcm_error(),
        KcmError::InvalidArgument("Index 50 out of bounds (len 10)".to_string())
    );
    assert_eq!(
        StorageError::InvalidEncoding("utf8".to_string()).to_kcm_error(),
        KcmError::InvalidArgument("utf8".to_string())
    );
    assert_eq!(
        StorageError::HashMismatch { expected: "aa".to_string(), actual: "bb".to_string() }.to_kcm_error(),
        KcmError::Corrupted("Hash mismatch: expected aa, got bb".to_string())
    );
}
