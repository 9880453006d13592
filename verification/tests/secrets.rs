use kcm::secrets::{vault_data_url, vault_list_url, vault_metadata_url, SecretProvider, SecretsManager};
use kcm::types::KcmError;
use std::cell::{Cell, RefCell};
use std::collections::HashMap;

struct MockSecretProvider {
    secrets: RefCell<HashMap<String, String>>,
    reads: Cell<usize>,
}

impl MockSecretProvider {
    fn new() -> Self {
        MockSecretProvider { secrets: RefCell::new(HashMap::new()), reads: Cell::new(0) }
    }
}

impl SecretProvider for MockSecretProvider {
    fn get_secret(&self, key: &str) -> Result<String, KcmError> {
        self.reads.set(self.reads.get() + 1);
        self.secrets
            .borrow()
            .get(key)
            .cloned()
            .ok_or_else(|| KcmError::NotFound(format!("Secret not found: {}", key)))
    }

    fn set_secret(&self, key: &str, value: &str) -> Result<(), KcmError> {
        self.secrets.borrow_mut().insert(key.to_string(), value.to_string());
        Ok(())
    }

    fn delete_secret(&self, key: &str) -> Result<(), KcmError> {
        self.secrets.borrow_mut().remove(key);
        Ok(())
    }

    fn list_secrets(&self) -> Result<Vec<String>, KcmError> {
        Ok(self.secrets.borrow().keys().cloned().collect())
    }
}

#[test]
fn test_secrets_manager_set_get() {
    let mut manager = SecretsManager::new(MockSecretProvider::new());
    manager.set_secret("db-password", "secret123").unwrap();
    assert_eq!(manager.get_secret("db-password").unwrap(), "secret123");
}

#[test]
fn test_secrets_manager_not_found() {
    let mut manager = SecretsManager::new(MockSecretProvider::new());
    assert!(manager.get_secret("nonexistent").is_err());
}

#[test]
fn test_secrets_manager_cache() {
    let mut manager = SecretsManager::new(MockSecretProvider::new());
    manager.set_secret("key1", "val1").unwrap();
    assert_eq!(manager.get_secret("key1").unwrap(), "val1");
    manager.invalidate_cache();
    assert_eq!(manager.get_secret("key1").unwrap(), "val1");
}

// Own tests.

#[test]
fn cached_reads_do_not_reach_the_provider() {
    let provider = MockSecretProvider::new();
    provider.set_secret("k", "v").unwrap();
    let mut manager = SecretsManager::with_cache_ttl(provider, 10);
    assert_eq!(manager.get_secret("k").unwrap(), "v");
    assert_eq!(manager.get_secret("k").unwrap(), "v");
    manager.set_secret("k", "w").unwrap();
    assert_eq!(manager.get_secret("k").unwrap(), "w");
}

#[test]
fn vault_paths() {
    assert_eq!(vault_data_url("http://v:8200", "secret", "db"), "http://v:8200/v1/secret/data/db");
    assert_eq!(vault_metadata_url("http://v:8200", "secret", "db"), "http://v:8200/v1/secret/metadata/db");
    assert_eq!(vault_list_url("http://v:8200", "kv"), "http://v:8200/v1/kv/metadata/?list=true");
}
