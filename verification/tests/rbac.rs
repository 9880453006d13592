use kcm::rbac::{ACLManager, Permission};
use kcm::types::{ContextID, KcmError};

#[test]
fn test_create_user_and_role() {
    let mut acl = ACLManager::new();
    acl.create_user("alice").unwrap();
    acl.create_role("admin").unwrap();
    acl.add_permission_to_role("admin", Permission::Admin).unwrap();
    acl.assign_role("alice", "admin").unwrap();
    assert!(acl.check_permission("alice", ContextID(1), Permission::Admin));
}

#[test]
fn test_deny_unauthorized() {
    let mut acl = ACLManager::new();
    acl.create_user("bob").unwrap();
    assert!(!acl.check_permission("bob", ContextID(1), Permission::Write));
}

#[test]
fn test_context_permission() {
    let mut acl = ACLManager::new();
    acl.create_user("carol").unwrap();
    acl.grant_context_permission("carol", ContextID(5), Permission::Read).unwrap();
    assert!(acl.check_permission("carol", ContextID(5), Permission::Read));
    assert!(!acl.check_permission("carol", ContextID(6), Permission::Read));
}

#[test]
fn test_invalid_user_id() {
    let mut acl = ACLManager::new();
    assert!(acl.create_user("").is_err());
    assert!(acl.create_user(&"a".repeat(257)).is_err());
}

#[test]
fn test_invalid_role_name() {
    let mut acl = ACLManager::new();
    assert!(acl.create_role("").is_err());
    assert!(acl.create_role(&"a".repeat(257)).is_err());
    assert!(acl.create_role("invalid role!").is_err());
}

#[test]
fn test_permission_level() {
    assert!(Permission::Admin.level() > Permission::Read.level());
    assert!(Permission::Write.level() > Permission::Read.level());
}

#[test]
fn test_permission_from_name() {
    assert!(Permission::from_name("read").is_ok());
    assert!(Permission::from_name("invalid").is_err());
}

#[test]
fn test_user_role_limit() {
    let mut acl = ACLManager::new();
    acl.create_user("user1").unwrap();
    for i in 0..32 {
        let role_name = format!("role_{}", i);
        acl.create_role(&role_name).unwrap();
        acl.assign_role("user1", &role_name).unwrap();
    }
    assert!(acl.assign_role("user1", "role_32").is_err());
}

#[test]
fn test_role_permission_limit() {
    let mut acl = ACLManager::new();
    acl.create_role("limited").unwrap();
    acl.add_permission_to_role("limited", Permission::Read).unwrap();
    acl.add_permission_to_role("limited", Permission::Write).unwrap();
    acl.add_permission_to_role("limited", Permission::Delete).unwrap();
    acl.add_permission_to_role("limited", Permission::Execute).unwrap();
    acl.add_permission_to_role("limited", Permission::Admin).unwrap();
    let perms = acl.get_role_permissions("limited").unwrap();
    assert_eq!(perms.len(), 5);
}

#[test]
fn test_revoke_context_permission() {
    let mut acl = ACLManager::new();
    acl.create_user("dave").unwrap();
    acl.grant_context_permission("dave", ContextID(1), Permission::Read).unwrap();
    assert!(acl.check_permission("dave", ContextID(1), Permission::Read));
    acl.revoke_context_permission("dave", ContextID(1), Permission::Read).unwrap();
    assert!(!acl.check_permission("dave", ContextID(1), Permission::Read));
}

#[test]
fn test_delete_user() {
    let mut acl = ACLManager::new();
    acl.create_user("eve").unwrap();
    assert!(acl.user_exists("eve"));
    acl.delete_user("eve").unwrap();
    assert!(!acl.user_exists("eve"));
}

#[test]
fn test_delete_role() {
    let mut acl = ACLManager::new();
    acl.create_role("temp_role").unwrap();
    assert!(acl.role_exists("temp_role"));
    acl.delete_role("temp_role").unwrap();
    assert!(!acl.role_exists("temp_role"));
}

#[test]
fn test_rbac_create_user_and_role() {
    let mut acl = ACLManager::new();
    acl.create_user("alice").unwrap();
    acl.create_role("admin").unwrap();
    acl.add_permission_to_role("admin", Permission::Read).unwrap();
    acl.add_permission_to_role("admin", Permission::Write).unwrap();
    acl.add_permission_to_role("admin", Permission::Admin).unwrap();
    acl.assign_role("alice", "admin").unwrap();
    assert!(acl.check_permission("alice", ContextID(1), Permission::Read));
    assert!(acl.check_permission("alice", ContextID(1), Permission::Write));
    assert!(!acl.check_permission("alice", ContextID(1), Permission::Delete));
}

#[test]
fn test_rbac_context_permission() {
    let mut acl = ACLManager::new();
    acl.create_user("bob").unwrap();
    acl.grant_context_permission("bob", ContextID(5), Permission::Read).unwrap();
    assert!(acl.check_permission("bob", ContextID(5), Permission::Read));
    assert!(!acl.check_permission("bob", ContextID(3), Permission::Read));
    assert!(!acl.check_permission("bob", ContextID(5), Permission::Write));
}

#[test]
fn test_rbac_nonexistent_user() {
    let acl = ACLManager::new();
    assert!(!acl.check_permission("nobody", ContextID(0), Permission::Read));
}

#[test]
fn test_rbac_multi_role() {
    let mut acl = ACLManager::new();
    acl.create_user("manager").unwrap();
    acl.create_role("reader").unwrap();
    acl.create_role("writer").unwrap();
    acl.add_permission_to_role("reader", Permission::Read).unwrap();
    acl.add_permission_to_role("writer", Permission::Write).unwrap();
    acl.assign_role("manager", "reader").unwrap();
    acl.assign_role("manager", "writer").unwrap();
    assert!(acl.check_permission("manager", ContextID(1), Permission::Read));
    assert!(acl.check_permission("manager", ContextID(1), Permission::Write));
    assert!(!acl.check_permission("manager", ContextID(1), Permission::Delete));
}

#[test]
fn test_rbac_role_revocation() {
    let mut acl = ACLManager::new();
    acl.create_user("alice").unwrap();
    acl.create_role("admin").unwrap();
    acl.add_permission_to_role("admin", Permission::Read).unwrap();
    acl.add_permission_to_role("admin", Permission::Write).unwrap();
    acl.assign_role("alice", "admin").unwrap();
    assert!(acl.check_permission("alice", ContextID(1), Permission::Read));
    assert!(acl.check_permission("alice", ContextID(1), Permission::Write));
    acl.remove_role("alice", "admin").unwrap();
    assert!(!acl.check_permission("alice", ContextID(1), Permission::Read));
    assert!(!acl.check_permission("alice", ContextID(1), Permission::Write));
}

// Own tests: names, errors and the laws on concrete values.

#[test]
fn permission_names_round_trip() {
    for p in [Permission::Read, Permission::Write, Permission::Delete, Permission::Execute, Permission::Admin] {
        assert_eq!(Permission::from_name(p.name()).unwrap(), p);
    }
    assert_eq!(Permission::from_name("ADMIN").unwrap(), Permission::Admin);
    assert_eq!(Permission::Read.level(), 0);
    assert_eq!(Permission::Admin.level(), 4);
    assert!(matches!(Permission::from_name("root"), Err(KcmError::InvalidArgument(_))));
}

#[test]
fn duplicate_user_and_missing_role_errors() {
    let mut acl = ACLManager::new();
    acl.create_user("u").unwrap();
    assert!(acl.create_user("u").is_ok());
    assert!(matches!(acl.create_user(""), Err(KcmError::InvalidArgument(_))));
    assert!(matches!(acl.assign_role("u", "ghost"), Err(KcmError::NotFound(_))));
    assert!(matches!(acl.assign_role("nobody", "ghost"), Err(KcmError::NotFound(_))));
    assert!(matches!(acl.get_user_roles("nobody"), Err(KcmError::NotFound(_))));
    assert!(matches!(acl.delete_role("ghost"), Err(KcmError::NotFound(_))));
}

#[test]
fn level_check_grants_lower_permissions() {
    let mut acl = ACLManager::new();
    acl.create_user("w").unwrap();
    acl.create_role("writer").unwrap();
    acl.add_permission_to_role("writer", Permission::Write).unwrap();
    acl.assign_role("w", "writer").unwrap();
    assert!(acl.check_permission_level("w", ContextID(0), Permission::Read));
    assert!(acl.check_permission_level("w", ContextID(0), Permission::Write));
    assert!(!acl.check_permission_level("w", ContextID(0), Permission::Delete));
    assert!(!acl.check_permission("w", ContextID(0), Permission::Read));
}

#[test]
fn deleting_a_role_unassigns_it() {
    let mut acl = ACLManager::new();
    acl.create_user("x").unwrap();
    acl.create_role("r").unwrap();
    acl.add_permission_to_role("r", Permission::Execute).unwrap();
    acl.assign_role("x", "r").unwrap();
    assert!(acl.check_permission("x", ContextID(2), Permission::Execute));
    acl.delete_role("r").unwrap();
    assert!(acl.get_user_roles("x").unwrap().is_empty());
    assert!(!acl.check_permission("x", ContextID(2), Permission::Execute));
}

#[test]
fn deleted_user_is_denied_everything() {
    let mut acl = ACLManager::new();
    acl.create_user("y").unwrap();
    acl.grant_context_permission("y", ContextID(3), Permission::Admin).unwrap();
    assert!(acl.check_permission("y", ContextID(3), Permission::Admin));
    acl.delete_user("y").unwrap();
    assert!(!acl.check_permission("y", ContextID(3), Permission::Admin));
    assert!(!acl.check_permission_level("y", ContextID(3), Permission::Read));
}

#[test]
fn removing_a_permission_from_a_role() {
    let mut acl = ACLManager::new();
    acl.create_role("r").unwrap();
    acl.add_permission_to_role("r", Permission::Read).unwrap();
    acl.add_permission_to_role("r", Permission::Read).unwrap();
    assert_eq!(acl.get_role_permissions("r").unwrap(), vec![Permission::Read]);
    acl.remove_permission_from_role("r", Permission::Read).unwrap();
    assert!(acl.get_role_permissions("r").unwrap().is_empty());
}

#[test]
fn unicode_letters_are_valid_in_role_names() {
    let mut acl = ACLManager::new();
    assert!(acl.create_role("rôle_é-1").is_ok());
    assert!(acl.role_exists("rôle_é-1"));
    assert!(acl.create_role("a.b").is_err());
}
