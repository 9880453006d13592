use kcm::encryption::{EncryptedKeyStore, EncryptedStorage, EncryptionKey};
use kcm::types::KcmError;

#[test]
fn test_encryption_key_from_password() {
    let key1 = EncryptionKey::from_password("securepassword123", &[42u8; 32]).unwrap();
    let key2 = EncryptionKey::from_password("securepassword123", &[42u8; 32]).unwrap();
    assert_eq!(key1.as_bytes(), key2.as_bytes());
    let key3 = EncryptionKey::from_password("differentpassword", &[42u8; 32]).unwrap();
    assert_ne!(key1.as_bytes(), key3.as_bytes());
}

#[test]
fn test_encryption_key_random() {
    let key1 = EncryptionKey::random().unwrap();
    let key2 = EncryptionKey::random().unwrap();
    assert_ne!(key1.as_bytes(), key2.as_bytes());
}

#[test]
fn test_encrypt_decrypt_roundtrip() {
    let key = EncryptionKey::random().unwrap();
    let plaintext = b"Hello, KCM Security!";
    let encrypted = EncryptedStorage::encrypt(plaintext, &key).unwrap();
    assert_ne!(&encrypted[..], plaintext);
    assert!(encrypted.len() > plaintext.len());
    let decrypted = EncryptedStorage::decrypt(&encrypted, &key).unwrap();
    assert_eq!(decrypted, plaintext);
}

#[test]
fn test_encrypt_decrypt_wrong_key() {
    let key1 = EncryptionKey::random().unwrap();
    let key2 = EncryptionKey::random().unwrap();
    let plaintext = b"secret data";
    let encrypted = EncryptedStorage::encrypt(plaintext, &key1).unwrap();
    let result = EncryptedStorage::decrypt(&encrypted, &key2);
    assert!(result.is_err());
}

#[test]
fn test_encrypt_decrypt_empty() {
    let key = EncryptionKey::random().unwrap();
    let result = EncryptedStorage::encrypt(b"", &key);
    assert!(result.is_err());
}

#[test]
fn test_encrypt_decrypt_large_data() {
    let key = EncryptionKey::random().unwrap();
    let plaintext: Vec<u8> = (0..10000).map(|i| (i % 256) as u8).collect();
    let encrypted = EncryptedStorage::encrypt(&plaintext, &key).unwrap();
    let decrypted = EncryptedStorage::decrypt(&encrypted, &key).unwrap();
    assert_eq!(decrypted, plaintext);
}

#[test]
fn test_random_keys_unique() {
    let key1 = EncryptionKey::random().unwrap();
    let key2 = EncryptionKey::random().unwrap();
    let key3 = EncryptionKey::random().unwrap();
    assert_ne!(key1.as_bytes(), key2.as_bytes());
    assert_ne!(key2.as_bytes(), key3.as_bytes());
    assert_ne!(key1.as_bytes(), key3.as_bytes());
}

#[test]
fn test_encrypt_large_data() {
    let key = EncryptionKey::random().unwrap();
    let data: Vec<u8> = (0..100_000).map(|i| (i % 256) as u8).collect();
    let encrypted = EncryptedStorage::encrypt(&data, &key).unwrap();
    let decrypted = EncryptedStorage::decrypt(&encrypted, &key).unwrap();
    assert_eq!(data, decrypted);
    assert!(encrypted.len() > data.len());
}

// Own tests.

#[test]
fn password_rules() {
    assert!(matches!(EncryptionKey::from_password("short", &[0u8; 32]), Err(KcmError::InvalidArgument(_))));
    assert!(EncryptionKey::from_password("exactly8", &[0u8; 32]).is_ok());
    let long = "p".repeat(1025);
    assert!(matches!(EncryptionKey::from_password(&long, &[0u8; 32]), Err(KcmError::InvalidArgument(_))));
    let a = EncryptionKey::from_password("samepassword", &[1u8; 32]).unwrap();
    let b = EncryptionKey::from_password("samepassword", &[2u8; 32]).unwrap();
    assert_ne!(a.as_bytes(), b.as_bytes());
    assert!(!a.constant_time_eq(&b));
    let c = EncryptionKey::from_password("samepassword", &[1u8; 32]).unwrap();
    assert!(a.constant_time_eq(&c));
}

#[test]
fn fixed_nonce_layout_and_tamper_detection() {
    let key = EncryptionKey::from_password("a fixed password", &[9u8; 32]).unwrap();
    let nonce = [7u8; 12];
    let sealed = EncryptedStorage::encrypt_with_nonce(b"abc", &key, &nonce).unwrap();
    assert_eq!(sealed.len(), 12 + 3 + 16);
    assert_eq!(&sealed[..12], &nonce);
    let again = EncryptedStorage::encrypt_with_nonce(b"abc", &key, &nonce).unwrap();
    assert_eq!(sealed, again);
    let mut tampered = sealed.clone();
    tampered[13] ^= 1;
    assert_eq!(
        EncryptedStorage::decrypt(&tampered, &key),
        Err(KcmError::Corrupted("Decryption failed: aead::Error".to_string()))
    );
    assert_eq!(
        EncryptedStorage::decrypt(&sealed[..5], &key),
        Err(KcmError::Corrupted("Encrypted data too short: 5 bytes (minimum 12)".to_string()))
    );
    assert_eq!(EncryptedStorage::decrypt(&sealed, &key).unwrap(), b"abc".to_vec());
}

#[test]
fn in_place_round_trip() {
    let key = EncryptionKey::random().unwrap();
    let mut buf = b"in place".to_vec();
    EncryptedStorage::encrypt_in_place(&mut buf, &key).unwrap();
    assert_eq!(buf.len(), 12 + 8 + 16);
    EncryptedStorage::decrypt_in_place(&mut buf, &key).unwrap();
    assert_eq!(buf, b"in place".to_vec());
    let mut empty: Vec<u8> = Vec::new();
    assert!(EncryptedStorage::encrypt_in_place(&mut empty, &key).is_err());
}

#[test]
fn keystore_generate_rotate_delete_and_reload() {
    let master = EncryptionKey::from_password("master password", &[3u8; 32]).unwrap();
    let mut store = EncryptedKeyStore::new(master);
    store.generate_key("db").unwrap();
    store.generate_key_with("fixed", &[5u8; 32], &[1u8; 12], 100).unwrap();
    assert!(store.key_exists("db"));
    assert_eq!(store.get_key("fixed").unwrap().as_bytes(), &[5u8; 32]);
    let before = store.get_key("db").unwrap();
    store.rotate_key("db").unwrap();
    let after = store.get_key("db").unwrap();
    assert_ne!(before.as_bytes(), after.as_bytes());
    store.rotate_key_with("fixed", &[6u8; 32], &[2u8; 12], 200).unwrap();
    assert_eq!(store.get_key("fixed").unwrap().as_bytes(), &[6u8; 32]);
    assert!(matches!(store.get_key("missing"), Err(KcmError::NotFound(_))));
    let mut names = store.list_keys();
    names.sort();
    assert_eq!(names, vec!["db".to_string(), "fixed".to_string()]);

    let bytes = store.serialize();
    assert_eq!(&bytes[..4], b"KSK1");
    let master2 = EncryptionKey::from_password("master password", &[3u8; 32]).unwrap();
    let reloaded = EncryptedKeyStore::parse(&bytes, master2).unwrap();
    assert_eq!(reloaded.get_key("fixed").unwrap().as_bytes(), &[6u8; 32]);
    assert_eq!(reloaded.get_key("db").unwrap().as_bytes(), after.as_bytes());

    let mut store = reloaded;
    store.delete_key("db").unwrap();
    assert!(!store.key_exists("db"));
    assert!(matches!(store.delete_key("db"), Err(KcmError::NotFound(_))));
    let master3 = EncryptionKey::from_password("master password", &[3u8; 32]).unwrap();
    assert!(matches!(EncryptedKeyStore::parse(b"XXXX0000", master3), Err(KcmError::Corrupted(_))));
}

#[test]
fn keystore_wrong_master_cannot_read_keys() {
    let master = EncryptionKey::from_password("master password", &[3u8; 32]).unwrap();
    let mut store = EncryptedKeyStore::new(master);
    store.generate_key_with("k", &[1u8; 32], &[0u8; 12], 1).unwrap();
    let bytes = store.serialize();
    let wrong = EncryptionKey::from_password("another password", &[3u8; 32]).unwrap();
    let other = EncryptedKeyStore::parse(&bytes, wrong).unwrap();
    assert!(other.get_key("k").is_err());
}

#[test]
fn keystore_bad_name_reports_the_utf8_error() {
    let master = EncryptionKey::from_password("master password", &[3u8; 32]).unwrap();
    let mut data = b"KSK1".to_vec();
    data.extend_from_slice(&1u32.to_le_bytes());
    data.extend_from_slice(&2u32.to_le_bytes());
    data.extend_from_slice(&[b'a', 0xff]);
    assert_eq!(
        EncryptedKeyStore::parse(&data, master).err(),
        Some(KcmError::Corrupted(
            "Invalid key name UTF-8: invalid utf-8 sequence of 1 bytes from index 1".to_string()
        ))
    );
}
