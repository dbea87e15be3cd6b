use mem_etcd::auth::{
    generate_token, hash_password, verify_password, AuthError, AuthPermission, AuthStore,
    PermissionType, TOKEN_TTL_SECS,
};

const SECOND: u128 = 1_000_000_000;

fn enabled() -> AuthStore {
    let mut s = AuthStore::default();
    s.user_add("root", "secret", false).unwrap();
    s.role_add("root").unwrap();
    s.user_grant_role("root", "root").unwrap();
    s.auth_enable().unwrap();
    s
}

fn hex(bytes: &[u8]) -> String {
    bytes.iter().map(|b| format!("{:02x}", b)).collect()
}

#[test]
fn passwords_are_kept_as_their_digests() {
    let h = hash_password("pass");
    assert_eq!(h.len(), 32);
    assert_eq!(
        hex(&h),
        "d74ff0ee8da3b9806b18c877dbf29bbde50b5bd8e4dad7a3a725000feb82e8f1"
    );
    // The bytes of the text as UTF-8 count.
    assert_eq!(
        hex(&hash_password("p\u{e4}ss")),
        "73c2e2fd2aec66e50135a01b2a007fcc23e4d35010637f98541e453a8665d25d"
    );
    assert!(verify_password("pass", &hash_password("pass")));
    assert!(!verify_password("pass2", &hash_password("pass")));
}

#[test]
fn tokens_are_made_of_the_time() {
    assert_eq!(generate_token(0), "v1.14057b7ef767814f14057b7ee362fa31");
    assert_eq!(generate_token(1), "v1.6c576fac43fd007c6c576fac2faa6fd0");
}

#[test]
fn tokens_expire_and_can_be_refreshed() {
    let mut s = enabled();
    let token = s.authenticate_at("root", "secret", 5, 10 * SECOND, 10 * SECOND).unwrap();
    let end = 10 * SECOND + TOKEN_TTL_SECS * SECOND;
    assert_eq!(s.validate_token_at(&token, end - 1).unwrap(), "root");
    assert_eq!(s.validate_token_at(&token, end), Err(AuthError::InvalidAuthToken));
    assert_eq!(s.list_tokens_at(end - 1), vec![token.clone()]);
    assert!(s.list_tokens_at(end).is_empty());
    assert_eq!(s.refresh_token_at(&token, end - 1).unwrap(), "root");
    assert_eq!(s.validate_token_at(&token, end).unwrap(), "root");
    assert_eq!(
        s.refresh_token_at(&token, end + TOKEN_TTL_SECS * SECOND),
        Err(AuthError::InvalidAuthToken)
    );
    // An expired token is gone, even for an earlier time.
    assert_eq!(s.validate_token_at(&token, 0), Err(AuthError::InvalidAuthToken));
    assert_eq!(s.refresh_token("nothing"), Err(AuthError::InvalidAuthToken));
}

#[test]
fn expired_tokens_are_dropped_now_and_then() {
    let mut s = enabled();
    let old = s.authenticate_at("root", "secret", 1, 0, 0).unwrap();
    let late = 1000 * SECOND;
    for i in 0..59 {
        s.authenticate_at("root", "secret", 100 + i, late, late).unwrap();
        assert!(s.list_tokens_at(0).contains(&old));
    }
    s.authenticate_at("root", "secret", 500, late, late).unwrap();
    assert!(!s.list_tokens_at(0).contains(&old));
    assert_eq!(s.list_tokens_at(0).len(), 60);
}

#[test]
fn refused_logins() {
    let mut s = enabled();
    assert_eq!(s.authenticate("root", "wrong"), Err(AuthError::AuthFailed));
    assert_eq!(s.authenticate("nobody", "x"), Err(AuthError::AuthFailed));
    let token = s.authenticate("root", "secret").unwrap();
    s.auth_disable().unwrap();
    assert_eq!(s.validate_token(&token), Err(AuthError::AuthNotEnabled));
    s.auth_enable().unwrap();
    assert_eq!(s.validate_token(&token), Err(AuthError::InvalidAuthToken));
}

#[test]
fn refused_changes() {
    let mut s = AuthStore::new();
    s.user_add("root", "x", false).unwrap();
    assert_eq!(s.auth_enable(), Err(AuthError::RootRoleNotExist));
    assert_eq!(s.user_delete(""), Err(AuthError::UserEmpty));
    assert_eq!(s.role_delete(""), Err(AuthError::RoleEmpty));
    assert_eq!(s.user_change_password("nobody", "x"), Err(AuthError::UserNotFound));
    assert_eq!(s.user_grant_role("nobody", "r"), Err(AuthError::UserNotFound));
    assert_eq!(s.user_revoke_role("nobody", "r"), Err(AuthError::UserNotFound));
    assert_eq!(s.user_revoke_role("root", "r"), Err(AuthError::RoleNotGranted));
    s.role_add("r").unwrap();
    s.user_grant_role("root", "r").unwrap();
    assert_eq!(s.user_grant_role("root", "r"), Err(AuthError::RoleNotGranted));
    let perm = AuthPermission {
        perm_type: PermissionType::ReadWrite,
        key: b"a".to_vec(),
        range_end: b"c".to_vec(),
    };
    assert_eq!(s.role_grant_permission("x", perm.clone()), Err(AuthError::RoleNotFound));
    s.role_grant_permission("r", perm.clone()).unwrap();
    assert_eq!(s.role_grant_permission("r", perm), Err(AuthError::PermissionNotGranted));
    assert_eq!(s.role_revoke_permission("x", b"a", b"c"), Err(AuthError::RoleNotFound));
    assert_eq!(s.role_revoke_permission("r", b"a", b""), Err(AuthError::PermissionNotGiven));
}

#[test]
fn permissions_for_ranges() {
    let mut s = enabled();
    s.user_add("alice", "x", false).unwrap();
    s.role_add("r").unwrap();
    s.role_grant_permission(
        "r",
        AuthPermission {
            perm_type: PermissionType::ReadWrite,
            key: b"b".to_vec(),
            range_end: b"d".to_vec(),
        },
    )
    .unwrap();
    s.user_grant_role("alice", "r").unwrap();
    assert!(s.check_perm("alice", b"b", b"c", PermissionType::Read).is_ok());
    assert!(s.check_perm("alice", b"b", b"", PermissionType::Write).is_ok());
    assert_eq!(
        s.check_perm("alice", b"b", b"d", PermissionType::Write),
        Err(AuthError::PermissionDenied)
    );
    assert_eq!(
        s.check_perm("nobody", b"b", b"", PermissionType::Read),
        Err(AuthError::UserNotFound)
    );
    // The root user needs no permission.
    assert!(s.check_perm("root", b"z", b"", PermissionType::Write).is_ok());
}

#[test]
fn all_errors_have_words() {
    assert_eq!(AuthError::RootUserNotExist.text(), "root user does not exist");
    assert_eq!(AuthError::RootRoleNotExist.text(), "root role does not exist");
    assert_eq!(AuthError::UserAlreadyExist.text(), "user already exists");
    assert_eq!(AuthError::UserEmpty.text(), "user name is empty");
    assert_eq!(AuthError::RoleNotFound.text(), "role not found");
    assert_eq!(AuthError::RoleEmpty.text(), "role name is empty");
    assert_eq!(AuthError::PermissionNotGiven.text(), "permission not given");
    assert_eq!(AuthError::RoleNotGranted.text(), "role not granted");
    assert_eq!(AuthError::PermissionNotGranted.text(), "permission not granted");
    assert_eq!(AuthError::AuthNotEnabled.text(), "authentication is not enabled");
    assert_eq!(AuthError::InvalidAuthToken.text(), "invalid authentication token");
    assert_eq!(
        AuthError::InvalidAuthMgmt.text(),
        "invalid authentication management operation"
    );
    assert_eq!(AuthError::AuthOldRevision.text(), "authentication old revision");
}

fn reader(key: &[u8], range_end: &[u8]) -> AuthStore {
    let mut s = enabled();
    s.user_add("alice", "x", false).unwrap();
    s.role_add("r").unwrap();
    s.role_grant_permission(
        "r",
        AuthPermission {
            perm_type: PermissionType::Read,
            key: key.to_vec(),
            range_end: range_end.to_vec(),
        },
    )
    .unwrap();
    s.user_grant_role("alice", "r").unwrap();
    s
}

#[test]
fn permissions_without_an_end_are_for_one_key() {
    let s = reader(b"b", b"");
    assert!(s.check_perm("alice", b"b", b"", PermissionType::Read).is_ok());
    for key in [b"a".as_slice(), b"ba".as_slice(), b"c".as_slice(), b"".as_slice()] {
        assert_eq!(
            s.check_perm("alice", key, b"", PermissionType::Read),
            Err(AuthError::PermissionDenied)
        );
    }
    let s = reader(b"", b"");
    assert!(s.check_perm("alice", b"", b"", PermissionType::Read).is_ok());
    assert_eq!(
        s.check_perm("alice", b"a", b"", PermissionType::Read),
        Err(AuthError::PermissionDenied)
    );
    let s = reader(b"", b"b");
    assert!(s.check_perm("alice", b"a", b"", PermissionType::Read).is_ok());
    assert_eq!(
        s.check_perm("alice", b"b", b"", PermissionType::Read),
        Err(AuthError::PermissionDenied)
    );
}

#[test]
fn revision_counts_the_changes() {
    let mut s = AuthStore::new();
    let start = s.revision();
    s.user_add("root", "secret", false).unwrap();
    s.role_add("root").unwrap();
    assert_eq!(s.user_add("root", "again", false), Err(AuthError::UserAlreadyExist));
    s.user_grant_role("root", "root").unwrap();
    s.auth_enable().unwrap();
    assert_eq!(s.revision(), start + 4);
    let token = s.authenticate("root", "secret").unwrap();
    assert_eq!(s.authenticate("root", "wrong"), Err(AuthError::AuthFailed));
    s.refresh_token(&token).unwrap();
    s.validate_token(&token).unwrap();
    s.revoke_token(&token);
    assert_eq!(s.role_delete("nothing"), Err(AuthError::RoleNotFound));
    assert_eq!(s.revision(), start + 4);
    s.user_change_password("root", "other").unwrap();
    let perm = AuthPermission {
        perm_type: PermissionType::Read,
        key: b"a".to_vec(),
        range_end: vec![],
    };
    s.role_grant_permission("root", perm).unwrap();
    s.role_revoke_permission("root", b"a", b"").unwrap();
    s.user_revoke_role("root", "root").unwrap();
    s.role_delete("root").unwrap();
    s.user_delete("root").unwrap();
    s.auth_disable().unwrap();
    assert_eq!(s.revision(), start + 11);
}

#[test]
fn tokens_live_through_other_calls() {
    let mut s = enabled();
    let token = s.authenticate_at("root", "secret", 5, 0, 0).unwrap();
    assert!(token.starts_with("v1."));
    assert!(token.len() > 10);
    let end = TOKEN_TTL_SECS * SECOND;
    // Another login, a change and another token that goes leave it as it is.
    let other = s.authenticate_at("root", "secret", 6, SECOND, SECOND).unwrap();
    s.user_add("alice", "x", false).unwrap();
    s.revoke_token(&other);
    assert_eq!(s.validate_token_at(&other, SECOND), Err(AuthError::InvalidAuthToken));
    assert_eq!(s.validate_token_at(&token, end - 1).unwrap(), "root");
    assert_eq!(s.validate_token_at(&token, end), Err(AuthError::InvalidAuthToken));
    s.refresh_token_at(&token, end - SECOND).unwrap();
    assert_eq!(s.validate_token_at(&token, 2 * end - SECOND - 1).unwrap(), "root");
    assert_eq!(
        s.validate_token_at(&token, 2 * end - SECOND),
        Err(AuthError::InvalidAuthToken)
    );
    assert_eq!(s.validate_token_at("v1.0", SECOND), Err(AuthError::InvalidAuthToken));
    s.revoke_token(&token);
    assert_eq!(s.validate_token_at(&token, end), Err(AuthError::InvalidAuthToken));
}
