use mem_etcd::auth::{AuthError, AuthPermission, AuthStore, PermissionType};

#[test]
fn test_new_auth_store() {
    let store = AuthStore::new();
    assert!(!store.is_enabled());
    assert_eq!(store.revision(), 0);
}

#[test]
fn test_auth_enable_fails_without_root() {
    let mut store = AuthStore::new();
    // No root user or role exists yet
    assert_eq!(store.auth_enable(), Err(AuthError::RootUserNotExist));
}

#[test]
fn test_auth_enable_success() {
    let mut store = AuthStore::new();
    store.user_add("root", "root123", false).unwrap();
    store.role_add("root").unwrap();
    store.user_grant_role("root", "root").unwrap();
    assert!(store.auth_enable().is_ok());
    assert!(store.is_enabled());
}

#[test]
fn test_auth_disable() {
    let mut store = AuthStore::new();
    store.user_add("root", "root123", false).unwrap();
    store.role_add("root").unwrap();
    store.user_grant_role("root", "root").unwrap();
    store.auth_enable().unwrap();
    assert!(store.is_enabled());

    store.auth_disable().unwrap();
    assert!(!store.is_enabled());
}

#[test]
fn test_user_add() {
    let mut store = AuthStore::new();
    assert!(store.user_add("alice", "pass123", false).is_ok());
    let user = store.user_get("alice").unwrap();
    assert_eq!(user.name, "alice");
    assert!(!user.no_password);
    assert!(!user.password_hash.is_empty());
}

#[test]
fn test_user_add_empty_name() {
    let mut store = AuthStore::new();
    assert_eq!(
        store.user_add("", "pass123", false),
        Err(AuthError::UserEmpty)
    );
}

#[test]
fn test_user_add_duplicate() {
    let mut store = AuthStore::new();
    store.user_add("alice", "pass123", false).unwrap();
    assert_eq!(
        store.user_add("alice", "other", false),
        Err(AuthError::UserAlreadyExist)
    );
}

#[test]
fn test_user_add_no_password() {
    let mut store = AuthStore::new();
    assert!(store.user_add("guest", "", true).is_ok());
    let user = store.user_get("guest").unwrap();
    assert!(user.no_password);
    assert!(user.password_hash.is_empty());
}

#[test]
fn test_user_delete() {
    let mut store = AuthStore::new();
    store.user_add("alice", "pass123", false).unwrap();
    assert!(store.user_delete("alice").is_ok());
    assert_eq!(store.user_get("alice"), Err(AuthError::UserNotFound));
}

#[test]
fn test_user_delete_not_found() {
    let mut store = AuthStore::new();
    assert_eq!(
        store.user_delete("nonexistent"),
        Err(AuthError::UserNotFound)
    );
}

#[test]
fn test_user_change_password() {
    let mut store = AuthStore::new();
    store.user_add("alice", "oldpass", false).unwrap();
    assert!(store.check_password("alice", "oldpass").is_ok());
    assert!(store.check_password("alice", "wrong").is_err());

    store.user_change_password("alice", "newpass").unwrap();
    // Old password no longer works
    assert!(store.check_password("alice", "oldpass").is_err());
    // New password works
    assert!(store.check_password("alice", "newpass").is_ok());
}

#[test]
fn test_user_list() {
    let mut store = AuthStore::new();
    store.user_add("alice", "pass", false).unwrap();
    store.user_add("bob", "pass", false).unwrap();
    let users = store.user_list().unwrap();
    assert!(users.contains(&"alice".to_string()));
    assert!(users.contains(&"bob".to_string()));
    assert_eq!(users.len(), 2);
}

#[test]
fn test_role_add() {
    let mut store = AuthStore::new();
    assert!(store.role_add("admin").is_ok());
    let role = store.role_get("admin").unwrap();
    assert_eq!(role.name, "admin");
    assert!(role.permissions.is_empty());
}

#[test]
fn test_role_add_empty_name() {
    let mut store = AuthStore::new();
    assert_eq!(store.role_add(""), Err(AuthError::RoleEmpty));
}

#[test]
fn test_role_add_duplicate() {
    let mut store = AuthStore::new();
    store.role_add("admin").unwrap();
    assert_eq!(
        store.role_add("admin"),
        Err(AuthError::RoleAlreadyExist)
    );
}

#[test]
fn test_role_delete() {
    let mut store = AuthStore::new();
    store.role_add("admin").unwrap();
    assert!(store.role_delete("admin").is_ok());
    assert_eq!(store.role_get("admin"), Err(AuthError::RoleNotFound));
}

#[test]
fn test_role_delete_not_found() {
    let mut store = AuthStore::new();
    assert_eq!(
        store.role_delete("nonexistent"),
        Err(AuthError::RoleNotFound)
    );
}

#[test]
fn test_role_list() {
    let mut store = AuthStore::new();
    store.role_add("admin").unwrap();
    store.role_add("reader").unwrap();
    let roles = store.role_list().unwrap();
    assert!(roles.contains(&"admin".to_string()));
    assert!(roles.contains(&"reader".to_string()));
    assert_eq!(roles.len(), 2);
}

#[test]
fn test_user_grant_and_revoke_role() {
    let mut store = AuthStore::new();
    store.user_add("alice", "pass", false).unwrap();
    store.role_add("admin").unwrap();

    store.user_grant_role("alice", "admin").unwrap();
    let user = store.user_get("alice").unwrap();
    assert!(user.roles.contains(&"admin".to_string()));

    store.user_revoke_role("alice", "admin").unwrap();
    let user = store.user_get("alice").unwrap();
    assert!(!user.roles.contains(&"admin".to_string()));
}

#[test]
fn test_user_grant_role_not_found() {
    let mut store = AuthStore::new();
    store.user_add("alice", "pass", false).unwrap();
    assert_eq!(
        store.user_grant_role("alice", "nonexistent"),
        Err(AuthError::RoleNotFound)
    );
}

#[test]
fn test_role_grant_permission() {
    let mut store = AuthStore::new();
    store.role_add("admin").unwrap();

    let perm = AuthPermission {
        perm_type: PermissionType::Read,
        key: b"/foo".to_vec(),
        range_end: Vec::new(),
    };
    assert!(store.role_grant_permission("admin", perm).is_ok());

    let role = store.role_get("admin").unwrap();
    assert_eq!(role.permissions.len(), 1);
    assert_eq!(role.permissions[0].perm_type, PermissionType::Read);
    assert_eq!(role.permissions[0].key, b"/foo");
}

#[test]
fn test_role_revoke_permission() {
    let mut store = AuthStore::new();
    store.role_add("admin").unwrap();

    let perm = AuthPermission {
        perm_type: PermissionType::Read,
        key: b"/foo".to_vec(),
        range_end: Vec::new(),
    };
    store.role_grant_permission("admin", perm).unwrap();
    assert_eq!(store.role_get("admin").unwrap().permissions.len(), 1);

    store
        .role_revoke_permission("admin", b"/foo", b"")
        .unwrap();
    assert!(store.role_get("admin").unwrap().permissions.is_empty());
}

#[test]
fn test_role_revoke_permission_not_found() {
    let mut store = AuthStore::new();
    store.role_add("admin").unwrap();
    assert_eq!(
        store.role_revoke_permission("admin", b"/foo", b""),
        Err(AuthError::PermissionNotGiven)
    );
}

#[test]
fn test_authenticate() {
    let mut store = AuthStore::new();
    store.user_add("root", "root123", false).unwrap();
    store.role_add("root").unwrap();
    store.user_grant_role("root", "root").unwrap();
    store.auth_enable().unwrap();

    let token = store.authenticate("root", "root123").unwrap();
    assert!(token.starts_with("v1."));
    assert!(token.len() > 10);
}

#[test]
fn test_authenticate_wrong_password() {
    let mut store = AuthStore::new();
    store.user_add("root", "root", false).unwrap();
    store.role_add("root").unwrap();
    store.user_grant_role("root", "root").unwrap();
    store.user_add("alice", "pass", false).unwrap();
    store.auth_enable().unwrap();
    assert_eq!(
        store.check_password("alice", "wrong"),
        Err(AuthError::AuthFailed)
    );
}

#[test]
fn test_authenticate_disabled() {
    let mut store = AuthStore::new();
    store.user_add("root", "root123", false).unwrap();
    // Auth is not enabled
    assert!(store.authenticate("root", "root123").is_err());
}

#[test]
fn test_authenticate_no_password_user() {
    let mut store = AuthStore::new();
    store.user_add("root", "root", false).unwrap();
    store.role_add("root").unwrap();
    store.user_grant_role("root", "root").unwrap();
    store.user_add("guest", "", true).unwrap();
    store.user_grant_role("guest", "root").unwrap();
    store.auth_enable().unwrap();

    // Check password for no-password user
    assert!(store.check_password("guest", "").is_ok());
}

#[test]
fn test_validate_token() {
    let mut store = AuthStore::new();
    store.user_add("root", "root123", false).unwrap();
    store.role_add("root").unwrap();
    store.user_grant_role("root", "root").unwrap();
    store.auth_enable().unwrap();

    let token = store.authenticate("root", "root123").unwrap();
    let username = store.validate_token(&token).unwrap();
    assert_eq!(username, "root");
}

#[test]
fn test_validate_token_invalid() {
    let mut store = AuthStore::new();
    store.user_add("root", "root123", false).unwrap();
    store.role_add("root").unwrap();
    store.user_grant_role("root", "root").unwrap();
    store.auth_enable().unwrap();

    assert_eq!(
        store.validate_token("invalid-token"),
        Err(AuthError::InvalidAuthToken)
    );
}

#[test]
fn test_check_perm_disabled_auth() {
    let store = AuthStore::new();
    // Auth disabled: all permissions granted
    assert!(store
        .check_perm("anyone", b"/key", b"", PermissionType::Read)
        .is_ok());
}

#[test]
fn test_check_perm_granted() {
    let mut store = AuthStore::new();
    store.user_add("alice", "pass", false).unwrap();
    store.role_add("reader").unwrap();

    let perm = AuthPermission {
        perm_type: PermissionType::Read,
        key: b"/foo".to_vec(),
        range_end: Vec::new(),
    };
    store.role_grant_permission("reader", perm).unwrap();
    store.user_grant_role("alice", "reader").unwrap();

    store.role_add("root").unwrap();
    store.user_add("root", "root123", false).unwrap();
    store.user_grant_role("root", "root").unwrap();
    store.auth_enable().unwrap();

    assert!(store
        .check_perm("alice", b"/foo", b"", PermissionType::Read)
        .is_ok());
}

#[test]
fn test_check_perm_denied() {
    let mut store = AuthStore::new();
    store.user_add("alice", "pass", false).unwrap();
    store.role_add("reader").unwrap();

    let perm = AuthPermission {
        perm_type: PermissionType::Read,
        key: b"/foo".to_vec(),
        range_end: Vec::new(),
    };
    store.role_grant_permission("reader", perm).unwrap();
    store.user_grant_role("alice", "reader").unwrap();

    store.role_add("root").unwrap();
    store.user_add("root", "root123", false).unwrap();
    store.user_grant_role("root", "root").unwrap();
    store.auth_enable().unwrap();

    // No permission for /bar
    assert!(store
        .check_perm("alice", b"/bar", b"", PermissionType::Read)
        .is_err());
}

#[test]
fn test_root_bypasses_permission_check() {
    let mut store = AuthStore::new();
    store.user_add("root", "root123", false).unwrap();
    store.role_add("root").unwrap();
    store.user_grant_role("root", "root").unwrap();
    store.auth_enable().unwrap();

    // Root has implicit full access
    assert!(store
        .check_perm("root", b"/any/key", b"", PermissionType::Read)
        .is_ok());
    assert!(store
        .check_perm("root", b"/any/key", b"", PermissionType::Write)
        .is_ok());
}

#[test]
fn test_check_perm_range() {
    let mut store = AuthStore::new();
    store.user_add("alice", "pass", false).unwrap();
    store.role_add("prefix_reader").unwrap();

    let perm = AuthPermission {
        perm_type: PermissionType::Read,
        key: b"/foo/".to_vec(),
        range_end: b"/foo0".to_vec(),
    };
    store.role_grant_permission("prefix_reader", perm).unwrap();
    store.user_grant_role("alice", "prefix_reader").unwrap();

    store.role_add("root").unwrap();
    store.user_add("root", "root123", false).unwrap();
    store.user_grant_role("root", "root").unwrap();
    store.auth_enable().unwrap();

    // Key within range
    assert!(store
        .check_perm("alice", b"/foo/bar", b"", PermissionType::Read)
        .is_ok());
    // Key outside range
    assert!(store
        .check_perm("alice", b"/foobar", b"", PermissionType::Read)
        .is_err());
}

#[test]
fn test_auth_error_display() {
    assert_eq!(
        AuthError::UserNotFound.text(),
        "user not found"
    );
    assert_eq!(
        AuthError::RoleAlreadyExist.text(),
        "role already exists"
    );
    assert_eq!(
        AuthError::AuthFailed.text(),
        "authentication failed"
    );
    assert_eq!(
        AuthError::PermissionDenied.text(),
        "permission denied"
    );
}

#[test]
fn test_token_revocation() {
    let mut store = AuthStore::new();
    store.user_add("root", "root123", false).unwrap();
    store.role_add("root").unwrap();
    store.user_grant_role("root", "root").unwrap();
    store.auth_enable().unwrap();

    let token = store.authenticate("root", "root123").unwrap();
    assert!(store.validate_token(&token).is_ok());

    store.revoke_token(&token);
    assert_eq!(
        store.validate_token(&token),
        Err(AuthError::InvalidAuthToken)
    );
}

#[test]
fn test_password_change_clears_no_password() {
    let mut store = AuthStore::new();
    store.user_add("guest", "", true).unwrap();
    let user = store.user_get("guest").unwrap();
    assert!(user.no_password);

    store.user_change_password("guest", "newpass").unwrap();
    let user = store.user_get("guest").unwrap();
    assert!(!user.no_password);
}

#[test]
fn test_check_password_after_change() {
    let mut store = AuthStore::new();
    store.user_add("alice", "oldpass", false).unwrap();
    assert!(store.check_password("alice", "oldpass").is_ok());

    store.user_change_password("alice", "newpass").unwrap();
    assert!(store.check_password("alice", "newpass").is_ok());
    assert!(store.check_password("alice", "oldpass").is_err());
}

#[test]
fn test_get_set_users_roles() {
    let mut store = AuthStore::new();
    store.user_add("alice", "pass", false).unwrap();
    store.role_add("admin").unwrap();

    let users = store.get_users();
    let roles = store.get_roles();

    assert_eq!(users.len(), 1);
    assert_eq!(roles.len(), 1);

    // Create a new store and restore
    let mut store2 = AuthStore::new();
    store2.set_users(users);
    store2.set_roles(roles);

    assert!(store2.user_get("alice").is_ok());
    assert!(store2.role_get("admin").is_ok());
}

#[test]
fn test_revision_increments() {
    let mut store = AuthStore::new();
    let rev0 = store.revision();

    store.user_add("alice", "pass", false).unwrap();
    assert!(store.revision() > rev0);

    store.role_add("admin").unwrap();
    assert!(store.revision() > rev0 + 1);
}

#[test]
fn test_list_tokens() {
    let mut store = AuthStore::new();
    store.user_add("root", "root123", false).unwrap();
    store.role_add("root").unwrap();
    store.user_grant_role("root", "root").unwrap();
    store.auth_enable().unwrap();

    let token = store.authenticate("root", "root123").unwrap();
    let tokens = store.list_tokens();
    assert!(tokens.contains(&token));
}

#[test]
fn test_auth_not_enabled_authenticate() {
    let mut store = AuthStore::new();
    store.user_add("root", "root123", false).unwrap();
    // Auth is not enabled
    assert_eq!(
        store.authenticate("root", "root123"),
        Err(AuthError::AuthNotEnabled)
    );
}
