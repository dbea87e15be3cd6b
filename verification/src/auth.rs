//! Users, roles, and the tokens of users who have logged in.

use crate::clock::{is_time, now_nanos, NANOS};
use crate::membership::{copy_texts, text_views};
use crate::mvccpb::copy_bytes;
use crate::order::{bytes_equal, bytes_less, lex_asymmetric, lex_le, lex_lt, lex_total};
use crate::sha256::{sha256, sha256_of};
use crate::sorted_map::{in_order, lemma_in_order, SortedMap};
use crate::text::{hexadecimal, push_hexadecimal, text_equal};
use vstd::prelude::*;
use vstd::string::*;
use vstd::utf8::*;

verus! {

/// What a permission allows.
#[derive(Clone, Copy, Debug, PartialEq, Eq, Hash, Structural)]
pub enum PermissionType {
    Read,
    Write,
    ReadWrite,
}

/// A permission for the keys of a range.
#[derive(Debug, PartialEq)]
pub struct AuthPermission {
    pub perm_type: PermissionType,
    pub key: Vec<u8>,
    pub range_end: Vec<u8>,
}

/// What an [`AuthPermission`] says.
#[verifier::ext_equal]
pub struct PermView {
    pub perm_type: PermissionType,
    pub key: Seq<u8>,
    pub range_end: Seq<u8>,
}

impl View for AuthPermission {
    type V = PermView;

    open spec fn view(&self) -> PermView {
        PermView { perm_type: self.perm_type, key: self.key@, range_end: self.range_end@ }
    }
}

impl Clone for AuthPermission {
    fn clone(&self) -> (r: AuthPermission)
        ensures
            r@ == self@,
    {
        AuthPermission {
            perm_type: self.perm_type,
            key: copy_bytes(&self.key),
            range_end: copy_bytes(&self.range_end),
        }
    }
}

/// The views of some permissions.
pub open spec fn perm_views(s: Seq<AuthPermission>) -> Seq<PermView> {
    s.map_values(|p: AuthPermission| p@)
}

/// A role, with its permissions.
#[derive(Debug, PartialEq)]
pub struct AuthRole {
    pub name: String,
    pub permissions: Vec<AuthPermission>,
}

/// What an [`AuthRole`] says.
#[verifier::ext_equal]
pub struct RoleView {
    pub name: Seq<char>,
    pub permissions: Seq<PermView>,
}

impl View for AuthRole {
    type V = RoleView;

    open spec fn view(&self) -> RoleView {
        RoleView { name: self.name@, permissions: perm_views(self.permissions@) }
    }
}

fn copy_permissions(s: &Vec<AuthPermission>) -> (r: Vec<AuthPermission>)
    ensures
        perm_views(r@) == perm_views(s@),
{
    let ghost all = perm_views(s@);
    let mut r: Vec<AuthPermission> = Vec::new();
    let mut i: usize = 0;
    while i < s.len()
        invariant
            i <= s@.len(),
            all == perm_views(s@),
            perm_views(r@) == all.take(i as int),
        decreases s@.len() - i,
    {
        let ghost before = perm_views(r@);
        r.push(s[i].clone());
        proof {
            assert(perm_views(r@) =~= before.push(all[i as int]));
            assert(all.take(i + 1) =~= all.take(i as int).push(all[i as int]));
        }
        i += 1;
    }
    assert(all.take(all.len() as int) =~= all);
    r
}

impl Clone for AuthRole {
    fn clone(&self) -> (r: AuthRole)
        ensures
            r@ == self@,
    {
        AuthRole {
            name: self.name.clone(),
            permissions: copy_permissions(&self.permissions),
        }
    }
}

/// A user, with the names of their roles.
#[derive(Debug, PartialEq)]
pub struct AuthUser {
    pub name: String,
    pub password_hash: Vec<u8>,
    pub roles: Vec<String>,
    pub no_password: bool,
}

/// What an [`AuthUser`] says.
#[verifier::ext_equal]
pub struct UserView {
    pub name: Seq<char>,
    pub password_hash: Seq<u8>,
    pub roles: Seq<Seq<char>>,
    pub no_password: bool,
}

impl View for AuthUser {
    type V = UserView;

    open spec fn view(&self) -> UserView {
        UserView {
            name: self.name@,
            password_hash: self.password_hash@,
            roles: text_views(self.roles@),
            no_password: self.no_password,
        }
    }
}

impl Clone for AuthUser {
    fn clone(&self) -> (r: AuthUser)
        ensures
            r@ == self@,
    {
        AuthUser {
            name: self.name.clone(),
            password_hash: copy_bytes(&self.password_hash),
            roles: copy_texts(&self.roles),
            no_password: self.no_password,
        }
    }
}

/// A token, and when it expires: nanoseconds since the start of the Unix epoch.
#[derive(Debug)]
pub struct TokenInfo {
    pub token: String,
    pub username: String,
    pub expiry: u128,
}

/// What a [`TokenInfo`] says.
#[verifier::ext_equal]
pub struct TokenView {
    pub token: Seq<char>,
    pub username: Seq<char>,
    pub expiry: int,
}

impl View for TokenInfo {
    type V = TokenView;

    open spec fn view(&self) -> TokenView {
        TokenView { token: self.token@, username: self.username@, expiry: self.expiry as int }
    }
}

/// Why a request is refused.
#[derive(Clone, Copy, Debug, PartialEq, Eq, Structural)]
pub enum AuthError {
    RootUserNotExist,
    RootRoleNotExist,
    UserAlreadyExist,
    UserEmpty,
    UserNotFound,
    RoleAlreadyExist,
    RoleNotFound,
    RoleEmpty,
    AuthFailed,
    PermissionNotGiven,
    PermissionDenied,
    RoleNotGranted,
    PermissionNotGranted,
    AuthNotEnabled,
    InvalidAuthToken,
    InvalidAuthMgmt,
    AuthOldRevision,
}

impl AuthError {
    /// The error in words.
    pub open spec fn spec_text(self) -> Seq<char> {
        match self {
            AuthError::RootUserNotExist => "root user does not exist"@,
            AuthError::RootRoleNotExist => "root role does not exist"@,
            AuthError::UserAlreadyExist => "user already exists"@,
            AuthError::UserEmpty => "user name is empty"@,
            AuthError::UserNotFound => "user not found"@,
            AuthError::RoleAlreadyExist => "role already exists"@,
            AuthError::RoleNotFound => "role not found"@,
            AuthError::RoleEmpty => "role name is empty"@,
            AuthError::AuthFailed => "authentication failed"@,
            AuthError::PermissionNotGiven => "permission not given"@,
            AuthError::PermissionDenied => "permission denied"@,
            AuthError::RoleNotGranted => "role not granted"@,
            AuthError::PermissionNotGranted => "permission not granted"@,
            AuthError::AuthNotEnabled => "authentication is not enabled"@,
            AuthError::InvalidAuthToken => "invalid authentication token"@,
            AuthError::InvalidAuthMgmt => "invalid authentication management operation"@,
            AuthError::AuthOldRevision => "authentication old revision"@,
        }
    }

    /// The error in words.
    pub fn text(&self) -> (r: &'static str)
        ensures
            r@ == self.spec_text(),
    {
        match self {
            AuthError::RootUserNotExist => "root user does not exist",
            AuthError::RootRoleNotExist => "root role does not exist",
            AuthError::UserAlreadyExist => "user already exists",
            AuthError::UserEmpty => "user name is empty",
            AuthError::UserNotFound => "user not found",
            AuthError::RoleAlreadyExist => "role already exists",
            AuthError::RoleNotFound => "role not found",
            AuthError::RoleEmpty => "role name is empty",
            AuthError::AuthFailed => "authentication failed",
            AuthError::PermissionNotGiven => "permission not given",
            AuthError::PermissionDenied => "permission denied",
            AuthError::RoleNotGranted => "role not granted",
            AuthError::PermissionNotGranted => "permission not granted",
            AuthError::AuthNotEnabled => "authentication is not enabled",
            AuthError::InvalidAuthToken => "invalid authentication token",
            AuthError::InvalidAuthMgmt => "invalid authentication management operation",
            AuthError::AuthOldRevision => "authentication old revision",
        }
    }
}

/// The seconds for which a token is valid.
pub const TOKEN_TTL_SECS: u128 = 300;

/// After so many tokens the expired ones are dropped.
pub const TOKEN_CLEANUP_INTERVAL: i64 = 60;

// -------------------------------------------------------------- passwords

/// The digest of a password: the SHA-256 digest of its text.
pub open spec fn password_digest(password: Seq<char>) -> Seq<u8> {
    sha256_of(encode_utf8(password))
}

/// The digest of a password. It suits development, not production.
pub fn hash_password(password: &str) -> (r: Vec<u8>)
    ensures
        r@ == password_digest(password@),
        r@.len() == 32,
{
    sha256(password.as_bytes())
}

/// Whether a password has a digest.
pub fn verify_password(password: &str, hash: &[u8]) -> (r: bool)
    ensures
        r == (password_digest(password@) == hash@),
{
    let digest = hash_password(password);
    bytes_equal(digest.as_slice(), hash)
}

/// The number that a token is made of: a time, mixed.
pub open spec fn mixed_time(nanos: u128) -> u128 {
    vstd::wrapping::u128_specs::wrapping_add(
        vstd::wrapping::u128_specs::wrapping_mul(nanos, 6364136223846793005),
        1442695040888963407,
    )
}

/// The token that is made at a time.
pub open spec fn token_at(nanos: u128) -> Seq<char> {
    let m = mixed_time(nanos);
    "v1."@ + hexadecimal(m as nat, 16) + hexadecimal((m ^ (m >> 32u128)) as nat, 16)
}

/// A token that is made at a time.
pub fn generate_token(nanos: u128) -> (r: String)
    ensures
        r@ == token_at(nanos),
{
    let m = nanos.wrapping_mul(6364136223846793005).wrapping_add(1442695040888963407);
    let mut r = "v1.".to_owned();
    push_hexadecimal(&mut r, m, 16);
    push_hexadecimal(&mut r, m ^ (m >> 32u128), 16);
    r
}

// -------------------------------------------------------------- the model

/// The model of an [`AuthStore`].
#[verifier::ext_equal]
pub struct AuthView {
    pub users: Map<Seq<char>, UserView>,
    pub roles: Map<Seq<char>, RoleView>,
    pub enabled: bool,
    /// It grows with every change of users, roles and permissions.
    pub revision: int,
    pub tokens: Map<Seq<char>, TokenView>,
    /// How many tokens there have been.
    pub write_count: int,
}

/// The number after another. It starts anew after the last one.
pub open spec fn following(n: int) -> int {
    if n == i64::MAX {
        i64::MIN as int
    } else {
        n + 1
    }
}

/// A key lies in a range. Without an end the range is one key.
pub open spec fn key_within(key: Seq<u8>, start: Seq<u8>, end: Seq<u8>) -> bool {
    if end.len() == 0 {
        key == start
    } else {
        lex_le(start, key) && lex_lt(key, end)
    }
}

/// A permission allows a request: for a range both its start and its end lie in it.
pub open spec fn permits(p: PermView, key: Seq<u8>, end: Seq<u8>, t: PermissionType) -> bool {
    &&& p.perm_type == t || p.perm_type == PermissionType::ReadWrite
    &&& key_within(key, p.key, p.range_end)
    &&& end.len() == 0 || key_within(end, p.key, p.range_end)
}

/// Some permission allows a request.
pub open spec fn permitted(
    perms: Seq<PermView>,
    key: Seq<u8>,
    end: Seq<u8>,
    t: PermissionType,
) -> bool {
    exists|i: int| 0 <= i < perms.len() && permits(#[trigger] perms[i], key, end, t)
}

/// Some role allows a request.
pub open spec fn role_permits(
    s: AuthView,
    roles: Seq<Seq<char>>,
    key: Seq<u8>,
    end: Seq<u8>,
    t: PermissionType,
) -> bool {
    exists|i: int|
        0 <= i < roles.len() && s.roles.contains_key(#[trigger] roles[i]) && permitted(
            s.roles[roles[i]].permissions,
            key,
            end,
            t,
        )
}

/// A permission for the same range is there.
pub open spec fn same_range(p: PermView, key: Seq<u8>, end: Seq<u8>) -> bool {
    p.key == key && p.range_end == end
}

/// Where the first permission for a range stands, or the length without one.
pub open spec fn perm_place(perms: Seq<PermView>, key: Seq<u8>, end: Seq<u8>) -> nat
    decreases perms.len(),
{
    if perms.len() == 0 || same_range(perms[0], key, end) {
        0
    } else {
        1 + perm_place(perms.skip(1), key, end)
    }
}

impl AuthView {
    /// The next revision.
    pub open spec fn bumped(self) -> AuthView {
        AuthView { revision: following(self.revision), ..self }
    }

    /// The store with a user.
    pub open spec fn with_user(self, name: Seq<char>, u: UserView) -> AuthView {
        AuthView { users: self.users.insert(name, u), ..self.bumped() }
    }

    /// The store with a role.
    pub open spec fn with_role(self, name: Seq<char>, r: RoleView) -> AuthView {
        AuthView { roles: self.roles.insert(name, r), ..self.bumped() }
    }

    /// A password is that of a user.
    pub open spec fn password_ok(self, name: Seq<char>, password: Seq<char>) -> bool {
        &&& self.users.contains_key(name)
        &&& self.users[name].no_password || password_digest(password)
            == self.users[name].password_hash
    }

    /// Why a request is not allowed, if it is not. The root user needs no permission
    /// where there is a root role.
    pub open spec fn perm_error(
        self,
        name: Seq<char>,
        key: Seq<u8>,
        end: Seq<u8>,
        t: PermissionType,
    ) -> Option<AuthError> {
        if !self.enabled {
            None
        } else if !self.users.contains_key(name) {
            Some(AuthError::UserNotFound)
        } else if role_permits(self, self.users[name].roles, key, end, t) || (name == "root"@
            && self.roles.contains_key("root"@)) {
            None
        } else {
            Some(AuthError::PermissionDenied)
        }
    }

    /// A token is valid at a time.
    pub open spec fn token_ok(self, token: Seq<char>, now: int) -> bool {
        self.tokens.contains_key(token) && self.tokens[token].expiry > now
    }

    /// The tokens that are valid at a time.
    pub open spec fn fresh_tokens(self, now: int) -> Map<Seq<char>, TokenView> {
        self.tokens.restrict(Set::new(|t: Seq<char>| self.token_ok(t, now)))
    }

    /// The store after a user got a token: what is made at one time is valid for the
    /// seconds of a token from another on. Now and then the expired tokens go.
    pub open spec fn logged_in(
        self,
        name: Seq<char>,
        made: u128,
        from: int,
        cleaned: int,
    ) -> AuthView {
        let token = token_at(made);
        let s = AuthView {
            tokens: self.tokens.insert(
                token,
                TokenView { token, username: name, expiry: from + TOKEN_TTL_SECS * NANOS },
            ),
            write_count: following(self.write_count),
            ..self
        };
        if self.write_count % 60 == 0 {
            AuthView { tokens: s.fresh_tokens(cleaned), ..s }
        } else {
            s
        }
    }
}

/// A call that may change the store. The times of the calls that read the clock are
/// among their arguments.
pub enum AuthCall {
    Enable,
    Disable,
    UserAdd { name: Seq<char>, password: Seq<char>, no_password: bool },
    UserDelete { name: Seq<char> },
    UserChangePassword { name: Seq<char>, password: Seq<char> },
    UserGrantRole { user: Seq<char>, role: Seq<char> },
    UserRevokeRole { user: Seq<char>, role: Seq<char> },
    RoleAdd { name: Seq<char> },
    RoleDelete { name: Seq<char> },
    RoleGrantPermission { name: Seq<char>, perm: PermView },
    RoleRevokePermission { name: Seq<char>, key: Seq<u8>, end: Seq<u8> },
    Login { name: Seq<char>, password: Seq<char>, made: u128, from: int, cleaned: int },
    Refresh { token: Seq<char>, now: int },
    Revoke { token: Seq<char> },
    SetUsers { users: Map<Seq<char>, UserView> },
    SetRoles { roles: Map<Seq<char>, RoleView> },
    /// Any call that only reads.
    Read,
}

impl AuthCall {
    /// The call changes users, roles, permissions, or whether passwords are asked for.
    pub open spec fn is_change(self) -> bool {
        match self {
            AuthCall::Login { .. } => false,
            AuthCall::Refresh { .. } => false,
            AuthCall::Revoke { .. } => false,
            AuthCall::SetUsers { .. } => false,
            AuthCall::SetRoles { .. } => false,
            AuthCall::Read => false,
            _ => true,
        }
    }
}

impl AuthView {
    /// A call succeeds.
    pub open spec fn succeeds(self, call: AuthCall) -> bool {
        match call {
            AuthCall::Enable => self.users.contains_key("root"@) && self.roles.contains_key(
                "root"@,
            ),
            AuthCall::UserAdd { name, .. } => name.len() > 0 && !self.users.contains_key(name),
            AuthCall::UserDelete { name } => name.len() > 0 && self.users.contains_key(name),
            AuthCall::UserChangePassword { name, .. } => self.users.contains_key(name),
            AuthCall::UserGrantRole { user, role } => self.users.contains_key(user)
                && !self.users[user].roles.contains(role) && self.roles.contains_key(role),
            AuthCall::UserRevokeRole { user, role } => self.users.contains_key(user)
                && self.users[user].roles.contains(role),
            AuthCall::RoleAdd { name } => name.len() > 0 && !self.roles.contains_key(name),
            AuthCall::RoleDelete { name } => name.len() > 0 && self.roles.contains_key(name),
            AuthCall::RoleGrantPermission { name, perm } => self.roles.contains_key(name)
                && perm_place(self.roles[name].permissions, perm.key, perm.range_end)
                >= self.roles[name].permissions.len(),
            AuthCall::RoleRevokePermission { name, key, end } => self.roles.contains_key(name)
                && perm_place(self.roles[name].permissions, key, end)
                < self.roles[name].permissions.len(),
            AuthCall::Login { name, password, .. } => self.enabled && self.password_ok(
                name,
                password,
            ),
            AuthCall::Refresh { token, now } => self.token_ok(token, now),
            _ => true,
        }
    }

    /// Why a call fails, if it does.
    pub open spec fn refusal(self, call: AuthCall) -> Option<AuthError> {
        if self.succeeds(call) {
            None
        } else {
            match call {
                AuthCall::Enable => Some(
                    if !self.users.contains_key("root"@) {
                        AuthError::RootUserNotExist
                    } else {
                        AuthError::RootRoleNotExist
                    },
                ),
                AuthCall::UserAdd { name, .. } => Some(
                    if name.len() == 0 {
                        AuthError::UserEmpty
                    } else {
                        AuthError::UserAlreadyExist
                    },
                ),
                AuthCall::UserDelete { name } => Some(
                    if name.len() == 0 {
                        AuthError::UserEmpty
                    } else {
                        AuthError::UserNotFound
                    },
                ),
                AuthCall::UserChangePassword { .. } => Some(AuthError::UserNotFound),
                AuthCall::UserGrantRole { user, role } => Some(
                    if !self.users.contains_key(user) {
                        AuthError::UserNotFound
                    } else if self.users[user].roles.contains(role) {
                        AuthError::RoleNotGranted
                    } else {
                        AuthError::RoleNotFound
                    },
                ),
                AuthCall::UserRevokeRole { user, .. } => Some(
                    if !self.users.contains_key(user) {
                        AuthError::UserNotFound
                    } else {
                        AuthError::RoleNotGranted
                    },
                ),
                AuthCall::RoleAdd { name } => Some(
                    if name.len() == 0 {
                        AuthError::RoleEmpty
                    } else {
                        AuthError::RoleAlreadyExist
                    },
                ),
                AuthCall::RoleDelete { name } => Some(
                    if name.len() == 0 {
                        AuthError::RoleEmpty
                    } else {
                        AuthError::RoleNotFound
                    },
                ),
                AuthCall::RoleGrantPermission { name, .. } => Some(
                    if !self.roles.contains_key(name) {
                        AuthError::RoleNotFound
                    } else {
                        AuthError::PermissionNotGranted
                    },
                ),
                AuthCall::RoleRevokePermission { name, .. } => Some(
                    if !self.roles.contains_key(name) {
                        AuthError::RoleNotFound
                    } else {
                        AuthError::PermissionNotGiven
                    },
                ),
                AuthCall::Login { .. } => Some(
                    if !self.enabled {
                        AuthError::AuthNotEnabled
                    } else {
                        AuthError::AuthFailed
                    },
                ),
                _ => Some(AuthError::InvalidAuthToken),
            }
        }
    }

    /// The store after a call. One that fails changes nothing, but that a token that
    /// has expired goes when it is refreshed.
    pub open spec fn after(self, call: AuthCall) -> AuthView {
        if let AuthCall::Refresh { token, now } = call {
            if self.token_ok(token, now) {
                AuthView {
                    tokens: self.tokens.insert(
                        token,
                        TokenView { expiry: now + TOKEN_TTL_SECS * NANOS, ..self.tokens[token] },
                    ),
                    ..self
                }
            } else {
                AuthView { tokens: self.tokens.remove(token), ..self }
            }
        } else if !self.succeeds(call) {
            self
        } else {
            match call {
                AuthCall::Enable => AuthView { enabled: true, ..self.bumped() },
                AuthCall::Disable => AuthView {
                    enabled: false,
                    tokens: Map::empty(),
                    ..self.bumped()
                },
                AuthCall::UserAdd { name, password, no_password } => self.with_user(
                    name,
                    UserView {
                        name,
                        password_hash: if no_password {
                            Seq::empty()
                        } else {
                            password_digest(password)
                        },
                        roles: Seq::empty(),
                        no_password,
                    },
                ),
                AuthCall::UserDelete { name } => AuthView {
                    users: self.users.remove(name),
                    ..self.bumped()
                },
                AuthCall::UserChangePassword { name, password } => self.with_user(
                    name,
                    UserView {
                        password_hash: password_digest(password),
                        no_password: false,
                        ..self.users[name]
                    },
                ),
                AuthCall::UserGrantRole { user, role } => self.with_user(
                    user,
                    UserView { roles: self.users[user].roles.push(role), ..self.users[user] },
                ),
                AuthCall::UserRevokeRole { user, role } => {
                    let roles = self.users[user].roles;
                    self.with_user(
                        user,
                        UserView {
                            roles: roles.remove(roles.index_of_first(role).unwrap()),
                            ..self.users[user]
                        },
                    )
                },
                AuthCall::RoleAdd { name } => self.with_role(
                    name,
                    RoleView { name, permissions: Seq::empty() },
                ),
                AuthCall::RoleDelete { name } => AuthView {
                    roles: self.roles.remove(name),
                    ..self.bumped()
                },
                AuthCall::RoleGrantPermission { name, perm } => self.with_role(
                    name,
                    RoleView {
                        permissions: self.roles[name].permissions.push(perm),
                        ..self.roles[name]
                    },
                ),
                AuthCall::RoleRevokePermission { name, key, end } => {
                    let perms = self.roles[name].permissions;
                    self.with_role(
                        name,
                        RoleView {
                            permissions: perms.remove(perm_place(perms, key, end) as int),
                            ..self.roles[name]
                        },
                    )
                },
                AuthCall::Login { name, made, from, cleaned, .. } => self.logged_in(
                    name,
                    made,
                    from,
                    cleaned,
                ),
                AuthCall::Revoke { token } => AuthView {
                    tokens: self.tokens.remove(token),
                    ..self
                },
                AuthCall::SetUsers { users } => AuthView { users, ..self },
                AuthCall::SetRoles { roles } => AuthView { roles, ..self },
                _ => self,
            }
        }
    }

    /// The store after some calls, one after the other.
    pub open spec fn after_all(self, calls: Seq<AuthCall>) -> AuthView
        decreases calls.len(),
    {
        if calls.len() == 0 {
            self
        } else {
            self.after_all(calls.drop_last()).after(calls.last())
        }
    }
}

// -------------------------------------------------------------- the store

/// Users, roles and tokens.
#[derive(Debug)]
pub struct AuthStore {
    users: SortedMap<String, AuthUser>,
    roles: SortedMap<String, AuthRole>,
    enabled: bool,
    revision: i64,
    token_store: SortedMap<String, TokenInfo>,
    write_count: i64,
}

/// The views of users.
pub open spec fn user_views(m: Map<Seq<char>, AuthUser>) -> Map<Seq<char>, UserView> {
    m.map_values(|u: AuthUser| u@)
}

/// The views of roles.
pub open spec fn role_views(m: Map<Seq<char>, AuthRole>) -> Map<Seq<char>, RoleView> {
    m.map_values(|r: AuthRole| r@)
}

/// The views of tokens.
pub open spec fn token_views(m: Map<Seq<char>, TokenInfo>) -> Map<Seq<char>, TokenView> {
    m.map_values(|t: TokenInfo| t@)
}

impl View for AuthStore {
    type V = AuthView;

    closed spec fn view(&self) -> AuthView {
        AuthView {
            users: user_views(self.users@),
            roles: role_views(self.roles@),
            enabled: self.enabled,
            revision: self.revision as int,
            tokens: token_views(self.token_store@),
            write_count: self.write_count as int,
        }
    }
}

/// A list of the keys of a map, each once.
pub open spec fn lists_keys<T>(names: Seq<Seq<char>>, m: Map<Seq<char>, T>) -> bool {
    names.no_duplicates() && forall|n: Seq<char>| names.contains(n) <==> #[trigger] m.contains_key(n)
}

fn keys_of<T>(m: &SortedMap<String, T>) -> (r: Vec<String>)
    requires
        m.wf(),
    ensures
        text_views(r@) == m.key_seq(),
{
    let ghost all = m.key_seq();
    let mut r: Vec<String> = Vec::new();
    let mut i: usize = 0;
    assert(text_views(r@) =~= all.take(0));
    while i < m.len()
        invariant
            m.wf(),
            all == m.key_seq(),
            i <= all.len(),
            text_views(r@) == all.take(i as int),
        decreases all.len() - i,
    {
        let ghost before = text_views(r@);
        r.push(m.key(i).clone());
        proof {
            assert(text_views(r@) =~= before.push(all[i as int]));
            assert(all.take(i + 1) =~= all.take(i as int).push(all[i as int]));
        }
        i += 1;
    }
    assert(all.take(all.len() as int) =~= all);
    r
}

proof fn lemma_names_in_order<T>(m: &SortedMap<String, T>)
    requires
        m.wf(),
    ensures
        in_order::<String>(m@.dom()) == m.key_seq(),
{
    let all = m.key_seq();
    assert forall|n: Seq<char>| all.contains(n) <==> #[trigger] m@.dom().contains(n) by {
        if all.contains(n) {
            let i = choose|i: int| 0 <= i < all.len() && all[i] == n;
            m.lemma_at(i);
        }
        if m@.dom().contains(n) {
            let i = m.lemma_position(n);
        }
    }
    lemma_in_order::<String>(all, m@.dom());
}

impl AuthStore {
    /// What holds of every store: its entries stand in order.
    pub closed spec fn wf(&self) -> bool {
        &&& self.users.wf()
        &&& self.roles.wf()
        &&& self.token_store.wf()
    }

    /// A store without users and roles. It asks nobody for a password.
    pub fn new() -> (r: AuthStore)
        ensures
            r.wf(),
            r@ == (AuthView {
                users: Map::empty(),
                roles: Map::empty(),
                enabled: false,
                revision: 0,
                tokens: Map::empty(),
                write_count: 0,
            }),
    {
        let r = AuthStore {
            users: SortedMap::new(),
            roles: SortedMap::new(),
            enabled: false,
            revision: 0,
            token_store: SortedMap::new(),
            write_count: 0,
        };
        proof {
            assert(r@.users =~= Map::empty());
            assert(r@.roles =~= Map::empty());
            assert(r@.tokens =~= Map::empty());
        }
        r
    }

    /// Asks for passwords from now on. It needs a root user and a root role.
    pub fn auth_enable(&mut self) -> (r: Result<(), AuthError>)
        requires
            old(self).wf(),
        ensures
            final(self).wf(),
            final(self)@ == old(self)@.after(AuthCall::Enable),
            r is Ok == old(self)@.succeeds(AuthCall::Enable),
            r matches Err(e) ==> old(self)@.refusal(AuthCall::Enable) == Some(e),
            r == (if !old(self)@.users.contains_key("root"@) {
                Err::<(), AuthError>(AuthError::RootUserNotExist)
            } else if !old(self)@.roles.contains_key("root"@) {
                Err(AuthError::RootRoleNotExist)
            } else {
                Ok(())
            }),
            final(self)@ == (if r is Ok {
                AuthView { enabled: true, ..old(self)@.bumped() }
            } else {
                old(self)@
            }),
    {
        let root = "root".to_owned();
        if !self.users.contains_key(&root) {
            return Err(AuthError::RootUserNotExist);
        }
        if !self.roles.contains_key(&root) {
            return Err(AuthError::RootRoleNotExist);
        }
        self.enabled = true;
        self.revision = self.revision.wrapping_add(1);
        Ok(())
    }

    /// Asks for no password from now on. All tokens go.
    pub fn auth_disable(&mut self) -> (r: Result<(), AuthError>)
        requires
            old(self).wf(),
        ensures
            final(self).wf(),
            final(self)@ == old(self)@.after(AuthCall::Disable),
            r is Ok == old(self)@.succeeds(AuthCall::Disable),
            r is Ok,
            final(self)@ == (AuthView {
                enabled: false,
                tokens: Map::empty(),
                ..old(self)@.bumped()
            }),
    {
        self.enabled = false;
        self.revision = self.revision.wrapping_add(1);
        self.token_store = SortedMap::new();
        assert(self@.tokens =~= Map::empty());
        Ok(())
    }

    /// Whether passwords are asked for.
    pub fn is_enabled(&self) -> (r: bool)
        ensures
            r == self@.enabled,
    {
        self.enabled
    }

    /// The revision of users, roles and permissions.
    pub fn revision(&self) -> (r: i64)
        ensures
            r == self@.revision,
    {
        self.revision
    }

    /// Adds a user.
    pub fn user_add(&mut self, name: &str, password: &str, no_password: bool) -> (r: Result<
        (),
        AuthError,
    >)
        requires
            old(self).wf(),
        ensures
            final(self).wf(),
            final(self)@ == old(self)@.after(
                AuthCall::UserAdd { name: name@, password: password@, no_password },
            ),
            r is Ok == old(self)@.succeeds(
                AuthCall::UserAdd { name: name@, password: password@, no_password },
            ),
            r matches Err(e) ==> old(self)@.refusal(
                AuthCall::UserAdd { name: name@, password: password@, no_password },
            ) == Some(e),
            r == (if name@.len() == 0 {
                Err::<(), AuthError>(AuthError::UserEmpty)
            } else if old(self)@.users.contains_key(name@) {
                Err(AuthError::UserAlreadyExist)
            } else {
                Ok(())
            }),
            final(self)@ == (if r is Ok {
                old(self)@.with_user(
                    name@,
                    UserView {
                        name: name@,
                        password_hash: if no_password {
                            Seq::empty()
                        } else {
                            password_digest(password@)
                        },
                        roles: Seq::empty(),
                        no_password,
                    },
                )
            } else {
                old(self)@
            }),
    {
        if name.is_empty() {
            return Err(AuthError::UserEmpty);
        }
        let key = name.to_owned();
        if self.users.contains_key(&key) {
            return Err(AuthError::UserAlreadyExist);
        }
        let ghost before = self@;
        let user = AuthUser {
            name: name.to_owned(),
            password_hash: if no_password {
                Vec::new()
            } else {
                hash_password(password)
            },
            roles: Vec::new(),
            no_password,
        };
        let ghost u = user@;
        let _ = self.users.insert(key, user);
        self.revision = self.revision.wrapping_add(1);
        proof {
            assert(u.roles =~= Seq::empty());
            assert(no_password ==> u.password_hash =~= Seq::empty());
            assert(self@.users =~= before.users.insert(name@, u));
        }
        Ok(())
    }

    /// Removes a user.
    pub fn user_delete(&mut self, name: &str) -> (r: Result<(), AuthError>)
        requires
            old(self).wf(),
        ensures
            final(self).wf(),
            final(self)@ == old(self)@.after(AuthCall::UserDelete { name: name@ }),
            r is Ok == old(self)@.succeeds(AuthCall::UserDelete { name: name@ }),
            r matches Err(e) ==> old(self)@.refusal(
                AuthCall::UserDelete { name: name@ },
            ) == Some(e),
            r == (if name@.len() == 0 {
                Err::<(), AuthError>(AuthError::UserEmpty)
            } else if !old(self)@.users.contains_key(name@) {
                Err(AuthError::UserNotFound)
            } else {
                Ok(())
            }),
            final(self)@ == (if r is Ok {
                AuthView { users: old(self)@.users.remove(name@), ..old(self)@.bumped() }
            } else {
                old(self)@
            }),
    {
        if name.is_empty() {
            return Err(AuthError::UserEmpty);
        }
        let ghost before = self@;
        let key = name.to_owned();
        let former = self.users.remove(&key);
        assert(self@.users =~= before.users.remove(name@));
        if former.is_none() {
            assert(self@.users =~= before.users);
            return Err(AuthError::UserNotFound);
        }
        self.revision = self.revision.wrapping_add(1);
        Ok(())
    }

    /// Gives a user another password.
    pub fn user_change_password(&mut self, name: &str, password: &str) -> (r: Result<
        (),
        AuthError,
    >)
        requires
            old(self).wf(),
        ensures
            final(self).wf(),
            final(self)@ == old(self)@.after(
                AuthCall::UserChangePassword { name: name@, password: password@ },
            ),
            r is Ok == old(self)@.succeeds(
                AuthCall::UserChangePassword { name: name@, password: password@ },
            ),
            r matches Err(e) ==> old(self)@.refusal(
                AuthCall::UserChangePassword { name: name@, password: password@ },
            ) == Some(e),
            r == (if !old(self)@.users.contains_key(name@) {
                Err::<(), AuthError>(AuthError::UserNotFound)
            } else {
                Ok(())
            }),
            final(self)@ == (if r is Ok {
                old(self)@.with_user(
                    name@,
                    UserView {
                        password_hash: password_digest(password@),
                        no_password: false,
                        ..old(self)@.users[name@]
                    },
                )
            } else {
                old(self)@
            }),
    {
        let ghost before = self@;
        let key = name.to_owned();
        match self.users.position(&key) {
            None => Err(AuthError::UserNotFound),
            Some(i) => {
                let mut user = self.users.value(i).clone();
                user.password_hash = hash_password(password);
                user.no_password = false;
                let ghost u = user@;
                let _ = self.users.replace(i, user);
                self.revision = self.revision.wrapping_add(1);
                assert(self@.users =~= before.users.insert(name@, u));
                Ok(())
            },
        }
    }

    /// A user.
    pub fn user_get(&self, name: &str) -> (r: Result<AuthUser, AuthError>)
        requires
            self.wf(),
        ensures
            r is Ok == self@.users.contains_key(name@),
            r matches Ok(u) ==> u@ == self@.users[name@],
            r matches Err(e) ==> e == AuthError::UserNotFound,
    {
        let key = name.to_owned();
        match self.users.get(&key) {
            Some(u) => Ok(u.clone()),
            None => Err(AuthError::UserNotFound),
        }
    }

    /// The names of the users, in order.
    pub fn user_list(&self) -> (r: Result<Vec<String>, AuthError>)
        requires
            self.wf(),
        ensures
            r matches Ok(names) && text_views(names@) == in_order::<String>(self@.users.dom()),
    {
        proof {
            lemma_names_in_order(&self.users);
            assert(self@.users.dom() =~= self.users@.dom());
        }
        Ok(keys_of(&self.users))
    }

    /// Gives a user a role.
    pub fn user_grant_role(&mut self, user: &str, role: &str) -> (r: Result<(), AuthError>)
        requires
            old(self).wf(),
        ensures
            final(self).wf(),
            final(self)@ == old(self)@.after(AuthCall::UserGrantRole { user: user@, role: role@ }),
            r is Ok == old(self)@.succeeds(AuthCall::UserGrantRole { user: user@, role: role@ }),
            r matches Err(e) ==> old(self)@.refusal(
                AuthCall::UserGrantRole { user: user@, role: role@ },
            ) == Some(e),
            ({
                let s = old(self)@;
                let u = s.users[user@];
                &&& r == (if !s.users.contains_key(user@) {
                    Err::<(), AuthError>(AuthError::UserNotFound)
                } else if u.roles.contains(role@) {
                    Err(AuthError::RoleNotGranted)
                } else if !s.roles.contains_key(role@) {
                    Err(AuthError::RoleNotFound)
                } else {
                    Ok(())
                })
                &&& final(self)@ == (if r is Ok {
                    s.with_user(user@, UserView { roles: u.roles.push(role@), ..u })
                } else {
                    s
                })
            }),
    {
        let ghost before = self@;
        let key = user.to_owned();
        match self.users.position(&key) {
            None => Err(AuthError::UserNotFound),
            Some(i) => {
                let mut user_entry = self.users.value(i).clone();
                let ghost roles = user_entry@.roles;
                if Self::role_place(&user_entry.roles, role) < user_entry.roles.len() {
                    return Err(AuthError::RoleNotGranted);
                }
                let role_key = role.to_owned();
                if !self.roles.contains_key(&role_key) {
                    return Err(AuthError::RoleNotFound);
                }
                user_entry.roles.push(role_key);
                let ghost u = user_entry@;
                let _ = self.users.replace(i, user_entry);
                self.revision = self.revision.wrapping_add(1);
                proof {
                    assert(u.roles =~= roles.push(role@));
                    assert(self@.users =~= before.users.insert(user@, u));
                }
                Ok(())
            },
        }
    }

    /// Where a role stands among some, or their number where it does not.
    fn role_place(roles: &Vec<String>, role: &str) -> (i: usize)
        ensures
            i <= roles@.len(),
            text_views(roles@).len() == roles@.len(),
            (i < roles@.len()) == text_views(roles@).contains(role@),
            i < roles@.len() ==> i == text_views(roles@).index_of_first(role@).unwrap(),
    {
        let ghost all = text_views(roles@);
        let mut i: usize = 0;
        while i < roles.len() && !text_equal(roles[i].as_str(), role)
            invariant
                i <= roles@.len(),
                all == text_views(roles@),
                forall|j: int| 0 <= j < i ==> #[trigger] all[j] != role@,
            decreases roles@.len() - i,
        {
            i += 1;
        }
        proof {
            if i < roles@.len() {
                assert(all[i as int] == role@);
                all.index_of_first_ensures(role@);
                let k = all.index_of_first(role@).unwrap();
                if k < i {
                    assert(all[k] != role@);
                }
            }
        }
        i
    }

    /// Takes a role from a user.
    pub fn user_revoke_role(&mut self, user: &str, role: &str) -> (r: Result<(), AuthError>)
        requires
            old(self).wf(),
        ensures
            final(self).wf(),
            final(self)@ == old(self)@.after(AuthCall::UserRevokeRole { user: user@, role: role@ }),
            r is Ok == old(self)@.succeeds(AuthCall::UserRevokeRole { user: user@, role: role@ }),
            r matches Err(e) ==> old(self)@.refusal(
                AuthCall::UserRevokeRole { user: user@, role: role@ },
            ) == Some(e),
            ({
                let s = old(self)@;
                let u = s.users[user@];
                &&& r == (if !s.users.contains_key(user@) {
                    Err::<(), AuthError>(AuthError::UserNotFound)
                } else if !u.roles.contains(role@) {
                    Err(AuthError::RoleNotGranted)
                } else {
                    Ok(())
                })
                &&& final(self)@ == (if r is Ok {
                    s.with_user(
                        user@,
                        UserView {
                            roles: u.roles.remove(u.roles.index_of_first(role@).unwrap()),
                            ..u
                        },
                    )
                } else {
                    s
                })
            }),
    {
        let ghost before = self@;
        let key = user.to_owned();
        match self.users.position(&key) {
            None => Err(AuthError::UserNotFound),
            Some(i) => {
                let mut user_entry = self.users.value(i).clone();
                let ghost roles = user_entry@.roles;
                let p = Self::role_place(&user_entry.roles, role);
                if p == user_entry.roles.len() {
                    return Err(AuthError::RoleNotGranted);
                }
                let _ = user_entry.roles.remove(p);
                let ghost u = user_entry@;
                let _ = self.users.replace(i, user_entry);
                self.revision = self.revision.wrapping_add(1);
                proof {
                    assert(u.roles =~= roles.remove(p as int));
                    assert(self@.users =~= before.users.insert(user@, u));
                }
                Ok(())
            },
        }
    }

    /// Adds a role.
    pub fn role_add(&mut self, name: &str) -> (r: Result<(), AuthError>)
        requires
            old(self).wf(),
        ensures
            final(self).wf(),
            final(self)@ == old(self)@.after(AuthCall::RoleAdd { name: name@ }),
            r is Ok == old(self)@.succeeds(AuthCall::RoleAdd { name: name@ }),
            r matches Err(e) ==> old(self)@.refusal(AuthCall::RoleAdd { name: name@ }) == Some(e),
            r == (if name@.len() == 0 {
                Err::<(), AuthError>(AuthError::RoleEmpty)
            } else if old(self)@.roles.contains_key(name@) {
                Err(AuthError::RoleAlreadyExist)
            } else {
                Ok(())
            }),
            final(self)@ == (if r is Ok {
                old(self)@.with_role(
                    name@,
                    RoleView { name: name@, permissions: Seq::empty() },
                )
            } else {
                old(self)@
            }),
    {
        if name.is_empty() {
            return Err(AuthError::RoleEmpty);
        }
        let key = name.to_owned();
        if self.roles.contains_key(&key) {
            return Err(AuthError::RoleAlreadyExist);
        }
        let ghost before = self@;
        let role = AuthRole { name: name.to_owned(), permissions: Vec::new() };
        let ghost v = role@;
        let _ = self.roles.insert(key, role);
        self.revision = self.revision.wrapping_add(1);
        proof {
            assert(v.permissions =~= Seq::empty());
            assert(self@.roles =~= before.roles.insert(name@, v));
        }
        Ok(())
    }

    /// Removes a role.
    pub fn role_delete(&mut self, name: &str) -> (r: Result<(), AuthError>)
        requires
            old(self).wf(),
        ensures
            final(self).wf(),
            final(self)@ == old(self)@.after(AuthCall::RoleDelete { name: name@ }),
            r is Ok == old(self)@.succeeds(AuthCall::RoleDelete { name: name@ }),
            r matches Err(e) ==> old(self)@.refusal(
                AuthCall::RoleDelete { name: name@ },
            ) == Some(e),
            r == (if name@.len() == 0 {
                Err::<(), AuthError>(AuthError::RoleEmpty)
            } else if !old(self)@.roles.contains_key(name@) {
                Err(AuthError::RoleNotFound)
            } else {
                Ok(())
            }),
            final(self)@ == (if r is Ok {
                AuthView { roles: old(self)@.roles.remove(name@), ..old(self)@.bumped() }
            } else {
                old(self)@
            }),
    {
        if name.is_empty() {
            return Err(AuthError::RoleEmpty);
        }
        let ghost before = self@;
        let key = name.to_owned();
        let former = self.roles.remove(&key);
        assert(self@.roles =~= before.roles.remove(name@));
        if former.is_none() {
            assert(self@.roles =~= before.roles);
            return Err(AuthError::RoleNotFound);
        }
        self.revision = self.revision.wrapping_add(1);
        Ok(())
    }

    /// A role.
    pub fn role_get(&self, name: &str) -> (r: Result<AuthRole, AuthError>)
        requires
            self.wf(),
        ensures
            r is Ok == self@.roles.contains_key(name@),
            r matches Ok(v) ==> v@ == self@.roles[name@],
            r matches Err(e) ==> e == AuthError::RoleNotFound,
    {
        let key = name.to_owned();
        match self.roles.get(&key) {
            Some(v) => Ok(v.clone()),
            None => Err(AuthError::RoleNotFound),
        }
    }

    /// The names of the roles, in order.
    pub fn role_list(&self) -> (r: Result<Vec<String>, AuthError>)
        requires
            self.wf(),
        ensures
            r matches Ok(names) && text_views(names@) == in_order::<String>(self@.roles.dom()),
    {
        proof {
            lemma_names_in_order(&self.roles);
            assert(self@.roles.dom() =~= self.roles@.dom());
        }
        Ok(keys_of(&self.roles))
    }

    /// Where a permission for a range stands among some, or their number.
    fn place(perms: &Vec<AuthPermission>, key: &[u8], end: &[u8]) -> (i: usize)
        ensures
            i <= perms@.len(),
            i == perm_place(perm_views(perms@), key@, end@),
    {
        let ghost all = perm_views(perms@);
        let mut i: usize = 0;
        while i < perms.len() && !(bytes_equal(perms[i].key.as_slice(), key) && bytes_equal(
            perms[i].range_end.as_slice(),
            end,
        ))
            invariant
                i <= perms@.len(),
                all == perm_views(perms@),
                forall|j: int| 0 <= j < i ==> !same_range(#[trigger] all[j], key@, end@),
            decreases perms@.len() - i,
        {
            i += 1;
        }
        proof {
            if i < perms@.len() {
                assert(same_range(all[i as int], key@, end@));
            }
            lemma_perm_place(all, key@, end@, i as int);
        }
        i
    }

    /// Gives a role a permission. A role has one permission for a range.
    pub fn role_grant_permission(&mut self, name: &str, perm: AuthPermission) -> (r: Result<
        (),
        AuthError,
    >)
        requires
            old(self).wf(),
        ensures
            final(self).wf(),
            final(self)@ == old(self)@.after(
                AuthCall::RoleGrantPermission { name: name@, perm: perm@ },
            ),
            r is Ok == old(self)@.succeeds(
                AuthCall::RoleGrantPermission { name: name@, perm: perm@ },
            ),
            r matches Err(e) ==> old(self)@.refusal(
                AuthCall::RoleGrantPermission { name: name@, perm: perm@ },
            ) == Some(e),
            ({
                let s = old(self)@;
                let v = s.roles[name@];
                &&& r == (if !s.roles.contains_key(name@) {
                    Err::<(), AuthError>(AuthError::RoleNotFound)
                } else if perm_place(v.permissions, perm@.key, perm@.range_end)
                    < v.permissions.len() {
                    Err(AuthError::PermissionNotGranted)
                } else {
                    Ok(())
                })
                &&& final(self)@ == (if r is Ok {
                    s.with_role(
                        name@,
                        RoleView { permissions: v.permissions.push(perm@), ..v },
                    )
                } else {
                    s
                })
            }),
    {
        let ghost before = self@;
        let key = name.to_owned();
        match self.roles.position(&key) {
            None => Err(AuthError::RoleNotFound),
            Some(i) => {
                let mut role = self.roles.value(i).clone();
                let ghost perms = role@.permissions;
                if Self::place(
                    &role.permissions,
                    perm.key.as_slice(),
                    perm.range_end.as_slice(),
                ) < role.permissions.len() {
                    return Err(AuthError::PermissionNotGranted);
                }
                let ghost p = perm@;
                role.permissions.push(perm);
                let ghost v = role@;
                let _ = self.roles.replace(i, role);
                self.revision = self.revision.wrapping_add(1);
                proof {
                    assert(v.permissions =~= perms.push(p));
                    assert(self@.roles =~= before.roles.insert(name@, v));
                }
                Ok(())
            },
        }
    }

    /// Takes a permission from a role.
    pub fn role_revoke_permission(&mut self, name: &str, key: &[u8], range_end: &[u8]) -> (r:
        Result<(), AuthError>)
        requires
            old(self).wf(),
        ensures
            final(self).wf(),
            final(self)@ == old(self)@.after(
                AuthCall::RoleRevokePermission { name: name@, key: key@, end: range_end@ },
            ),
            r is Ok == old(self)@.succeeds(
                AuthCall::RoleRevokePermission { name: name@, key: key@, end: range_end@ },
            ),
            r matches Err(e) ==> old(self)@.refusal(
                AuthCall::RoleRevokePermission { name: name@, key: key@, end: range_end@ },
            ) == Some(e),
            ({
                let s = old(self)@;
                let v = s.roles[name@];
                let p = perm_place(v.permissions, key@, range_end@);
                &&& r == (if !s.roles.contains_key(name@) {
                    Err::<(), AuthError>(AuthError::RoleNotFound)
                } else if p >= v.permissions.len() {
                    Err(AuthError::PermissionNotGiven)
                } else {
                    Ok(())
                })
                &&& final(self)@ == (if r is Ok {
                    s.with_role(
                        name@,
                        RoleView { permissions: v.permissions.remove(p as int), ..v },
                    )
                } else {
                    s
                })
            }),
    {
        let ghost before = self@;
        let role_key = name.to_owned();
        match self.roles.position(&role_key) {
            None => Err(AuthError::RoleNotFound),
            Some(i) => {
                let mut role = self.roles.value(i).clone();
                let ghost perms = role@.permissions;
                let p = Self::place(&role.permissions, key, range_end);
                if p == role.permissions.len() {
                    return Err(AuthError::PermissionNotGiven);
                }
                let _ = role.permissions.remove(p);
                let ghost v = role@;
                let _ = self.roles.replace(i, role);
                self.revision = self.revision.wrapping_add(1);
                proof {
                    assert(v.permissions =~= perms.remove(p as int));
                    assert(self@.roles =~= before.roles.insert(name@, v));
                }
                Ok(())
            },
        }
    }

    /// Logs a user in: their token is returned.
    pub fn authenticate(&mut self, username: &str, password: &str) -> (r: Result<
        String,
        AuthError,
    >)
        requires
            old(self).wf(),
        ensures
            final(self).wf(),
            ({
                let s = old(self)@;
                &&& r is Err == (!s.enabled || !s.password_ok(username@, password@))
                &&& r matches Err(e) ==> {
                    &&& e == (if !s.enabled {
                        AuthError::AuthNotEnabled
                    } else {
                        AuthError::AuthFailed
                    })
                    &&& final(self)@ == s
                }
                &&& r matches Ok(token) ==> exists|made: u128, from: int, cleaned: int|
                    #![trigger s.logged_in(username@, made, from, cleaned)]
                    {
                        &&& is_time(made as int) && is_time(from) && is_time(cleaned)
                        &&& token@ == token_at(made)
                        &&& final(self)@ == s.logged_in(username@, made, from, cleaned)
                    }
            }),
    {
        let made = now_nanos();
        let from = now_nanos();
        let cleaned = now_nanos();
        let r = self.authenticate_at(username, password, made, from, cleaned);
        r
    }

    /// Logs a user in, with the times at which their token is made, from which it is
    /// valid, and at which expired tokens are dropped.
    pub fn authenticate_at(
        &mut self,
        username: &str,
        password: &str,
        made: u128,
        from: u128,
        cleaned: u128,
    ) -> (r: Result<String, AuthError>)
        requires
            old(self).wf(),
            is_time(from as int),
        ensures
            final(self).wf(),
            final(self)@ == old(self)@.after(
                AuthCall::Login {
                    name: username@,
                    password: password@,
                    made,
                    from: from as int,
                    cleaned: cleaned as int,
                },
            ),
            r is Ok == old(self)@.succeeds(
                AuthCall::Login {
                    name: username@,
                    password: password@,
                    made,
                    from: from as int,
                    cleaned: cleaned as int,
                },
            ),
            r matches Err(e) ==> old(self)@.refusal(
                AuthCall::Login {
                    name: username@,
                    password: password@,
                    made,
                    from: from as int,
                    cleaned: cleaned as int,
                },
            ) == Some(e),
            ({
                let s = old(self)@;
                &&& r is Err == (!s.enabled || !s.password_ok(username@, password@))
                &&& r matches Err(e) ==> {
                    &&& e == (if !s.enabled {
                        AuthError::AuthNotEnabled
                    } else {
                        AuthError::AuthFailed
                    })
                    &&& final(self)@ == s
                }
                &&& r matches Ok(token) ==> {
                    &&& token@ == token_at(made)
                    &&& final(self)@ == s.logged_in(
                        username@,
                        made,
                        from as int,
                        cleaned as int,
                    )
                }
            }),
    {
        if !self.enabled {
            return Err(AuthError::AuthNotEnabled);
        }
        match self.check_password(username, password) {
            Ok(()) => {},
            Err(e) => {
                return Err(e);
            },
        }
        let ghost before = self@;
        let token = generate_token(made);
        let info = TokenInfo {
            token: token.clone(),
            username: username.to_owned(),
            expiry: from + TOKEN_TTL_SECS * NANOS,
        };
        let ghost t = info@;
        let _ = self.token_store.insert(token.clone(), info);
        let count = self.write_count;
        self.write_count = count.wrapping_add(1);
        assert(self@.tokens =~= before.tokens.insert(token@, t));
        if count % TOKEN_CLEANUP_INTERVAL == 0 {
            self.drop_expired(cleaned);
        }
        Ok(token)
    }

    /// Drops the tokens that have expired at a time.
    fn drop_expired(&mut self, now: u128)
        requires
            old(self).wf(),
        ensures
            final(self).wf(),
            final(self)@ == (AuthView {
                tokens: old(self)@.fresh_tokens(now as int),
                ..old(self)@
            }),
    {
        let ghost before = self@;
        let ghost all = self.token_store.key_seq();
        let mut expired: Vec<String> = Vec::new();
        let mut i: usize = 0;
        while i < self.token_store.len()
            invariant
                self.wf(),
                self@ == before,
                all == self.token_store.key_seq(),
                i <= all.len(),
                forall|j: int|
                    0 <= j < expired@.len() ==> before.tokens.contains_key(
                        (#[trigger] expired@[j])@,
                    ) && !before.token_ok(expired@[j]@, now as int),
                forall|j: int|
                    0 <= j < i ==> before.token_ok(#[trigger] all[j], now as int) || text_views(
                        expired@,
                    ).contains(all[j]),
            decreases all.len() - i,
        {
            proof {
                self.token_store.lemma_at(i as int);
            }
            let ghost was = expired@;
            if self.token_store.value(i).expiry <= now {
                expired.push(self.token_store.key(i).clone());
                proof {
                    assert(text_views(expired@)[was.len() as int] == all[i as int]);
                    assert forall|j: int| 0 <= j < i + 1 implies before.token_ok(
                        #[trigger] all[j],
                        now as int,
                    ) || text_views(expired@).contains(all[j]) by {
                        if j < i && text_views(was).contains(all[j]) {
                            let k = choose|k: int|
                                0 <= k < text_views(was).len() && text_views(was)[k] == all[j];
                            assert(text_views(expired@)[k] == all[j]);
                        }
                    }
                }
            }
            i += 1;
        }
        let mut n: usize = 0;
        while n < expired.len()
            invariant
                self.wf(),
                n <= expired@.len(),
                self@ == (AuthView { tokens: self@.tokens, ..before }),
                forall|t: Seq<char>| #[trigger]
                    self@.tokens.contains_key(t) ==> before.tokens.contains_key(t)
                        && self@.tokens[t] == before.tokens[t],
                forall|t: Seq<char>| #[trigger]
                    before.tokens.contains_key(t) && !self@.tokens.contains_key(t)
                        ==> !before.token_ok(t, now as int),
                forall|j: int| 0 <= j < n ==> !self@.tokens.contains_key((#[trigger] expired@[j])@),
                forall|j: int|
                    0 <= j < expired@.len() ==> !before.token_ok(
                        (#[trigger] expired@[j])@,
                        now as int,
                    ),
            decreases expired@.len() - n,
        {
            let ghost was = self@;
            let _ = self.token_store.remove(&expired[n]);
            assert(self@.tokens =~= was.tokens.remove(expired@[n as int]@));
            n += 1;
        }
        proof {
            let fresh = before.fresh_tokens(now as int);
            assert forall|t: Seq<char>| self@.tokens.contains_key(t) <==> #[trigger] fresh.contains_key(
                t,
            ) by {
                if self@.tokens.contains_key(t) && !before.token_ok(t, now as int) {
                    let k = old(self).token_store.lemma_position(t);
                    assert(all[k] == t);
                    assert(text_views(expired@).contains(t));
                    let j = choose|j: int|
                        0 <= j < text_views(expired@).len() && text_views(expired@)[j] == t;
                    assert(expired@[j]@ == t);
                }
            }
            assert(self@.tokens =~= fresh);
        }
    }

    /// Checks a password. A user without one needs none.
    pub fn check_password(&self, username: &str, password: &str) -> (r: Result<(), AuthError>)
        requires
            self.wf(),
        ensures
            r == (if self@.password_ok(username@, password@) {
                Ok::<(), AuthError>(())
            } else {
                Err(AuthError::AuthFailed)
            }),
    {
        let key = username.to_owned();
        match self.users.get(&key) {
            None => Err(AuthError::AuthFailed),
            Some(user) => {
                if user.no_password {
                    return Ok(());
                }
                if verify_password(password, user.password_hash.as_slice()) {
                    Ok(())
                } else {
                    Err(AuthError::AuthFailed)
                }
            },
        }
    }

    /// The user of a token that is valid.
    pub fn validate_token(&self, token: &str) -> (r: Result<String, AuthError>)
        requires
            self.wf(),
        ensures
            exists|now: int| #[trigger] is_time(now) && validated(self@, token@, now, r),
    {
        let now = now_nanos();
        assert(is_time(now as int));
        self.validate_token_at(token, now)
    }

    /// The user of a token that is valid at a time.
    pub fn validate_token_at(&self, token: &str, now: u128) -> (r: Result<String, AuthError>)
        requires
            self.wf(),
        ensures
            validated(self@, token@, now as int, r),
    {
        if !self.enabled {
            return Err(AuthError::AuthNotEnabled);
        }
        let key = token.to_owned();
        match self.token_store.get(&key) {
            None => Err(AuthError::InvalidAuthToken),
            Some(info) => if info.expiry <= now {
                Err(AuthError::InvalidAuthToken)
            } else {
                Ok(info.username.clone())
            },
        }
    }

    /// Checks whether a user may read or write a key or a range.
    pub fn check_perm(
        &self,
        username: &str,
        key: &[u8],
        range_end: &[u8],
        perm_type: PermissionType,
    ) -> (r: Result<(), AuthError>)
        requires
            self.wf(),
        ensures
            r == (match self@.perm_error(username@, key@, range_end@, perm_type) {
                Some(e) => Err::<(), AuthError>(e),
                None => Ok(()),
            }),
    {
        if !self.enabled {
            return Ok(());
        }
        let name = username.to_owned();
        let user = match self.users.get(&name) {
            Some(user) => user,
            None => {
                return Err(AuthError::UserNotFound);
            },
        };
        let ghost roles = self@.users[username@].roles;
        let mut i: usize = 0;
        while i < user.roles.len()
            invariant
                self.wf(),
                i <= user.roles@.len(),
                roles == text_views(user.roles@),
                roles == self@.users[username@].roles,
                self@.enabled,
                self@.users.contains_key(username@),
                forall|j: int|
                    0 <= j < i ==> !(self@.roles.contains_key(#[trigger] roles[j]) && permitted(
                        self@.roles[roles[j]].permissions,
                        key@,
                        range_end@,
                        perm_type,
                    )),
            decreases user.roles@.len() - i,
        {
            assert(roles[i as int] == user.roles@[i as int]@);
            if let Some(role) = self.roles.get(&user.roles[i]) {
                if Self::has_permission(&role.permissions, key, range_end, perm_type) {
                    assert(role_permits(self@, roles, key@, range_end@, perm_type));
                    return Ok(());
                }
            }
            i += 1;
        }
        let root = "root".to_owned();
        if text_equal(username, "root") && self.roles.contains_key(&root) {
            return Ok(());
        }
        Err(AuthError::PermissionDenied)
    }

    /// Whether some permission allows a request.
    fn has_permission(
        permissions: &Vec<AuthPermission>,
        key: &[u8],
        range_end: &[u8],
        perm_type: PermissionType,
    ) -> (r: bool)
        ensures
            r == permitted(perm_views(permissions@), key@, range_end@, perm_type),
    {
        let ghost all = perm_views(permissions@);
        let mut i: usize = 0;
        while i < permissions.len()
            invariant
                i <= permissions@.len(),
                all == perm_views(permissions@),
                forall|j: int|
                    0 <= j < i ==> !permits(#[trigger] all[j], key@, range_end@, perm_type),
            decreases permissions@.len() - i,
        {
            let p = &permissions[i];
            assert(all[i as int] == p@);
            if (p.perm_type == perm_type || p.perm_type == PermissionType::ReadWrite)
                && Self::key_in_range(key, p.key.as_slice(), p.range_end.as_slice()) && (
            range_end.len() == 0 || Self::key_in_range(
                range_end,
                p.key.as_slice(),
                p.range_end.as_slice(),
            )) {
                assert(permits(all[i as int], key@, range_end@, perm_type));
                return true;
            }
            i += 1;
        }
        false
    }

    /// Whether a key lies in a range.
    fn key_in_range(key: &[u8], range_start: &[u8], range_end: &[u8]) -> (r: bool)
        ensures
            r == key_within(key@, range_start@, range_end@),
    {
        if range_end.len() == 0 {
            return bytes_equal(key, range_start);
        }
        proof {
            lex_total(key@, range_start@);
            if lex_lt(key@, range_start@) {
                lex_asymmetric(key@, range_start@);
            }
        }
        !bytes_less(key, range_start) && bytes_less(key, range_end)
    }

    /// Starts the time of a token anew. One that has expired goes.
    pub fn refresh_token(&mut self, token: &str) -> (r: Result<String, AuthError>)
        requires
            old(self).wf(),
        ensures
            final(self).wf(),
            exists|now: int| #[trigger]
                is_time(now) && refreshed(old(self)@, final(self)@, token@, now, r),
    {
        let now = now_nanos();
        assert(is_time(now as int));
        self.refresh_token_at(token, now)
    }

    /// Starts the time of a token anew at a time.
    pub fn refresh_token_at(&mut self, token: &str, now: u128) -> (r: Result<String, AuthError>)
        requires
            old(self).wf(),
            is_time(now as int),
        ensures
            final(self).wf(),
            final(self)@ == old(self)@.after(AuthCall::Refresh { token: token@, now: now as int }),
            r is Ok == old(self)@.succeeds(AuthCall::Refresh { token: token@, now: now as int }),
            r matches Err(e) ==> old(self)@.refusal(
                AuthCall::Refresh { token: token@, now: now as int },
            ) == Some(e),
            refreshed(old(self)@, final(self)@, token@, now as int, r),
    {
        let ghost before = self@;
        let key = token.to_owned();
        match self.token_store.position(&key) {
            None => {
                assert(before.tokens.remove(token@) =~= before.tokens);
                Err(AuthError::InvalidAuthToken)
            },
            Some(i) => {
                let info = self.token_store.value(i);
                if info.expiry <= now {
                    let _ = self.token_store.remove(&key);
                    assert(self@.tokens =~= before.tokens.remove(token@));
                    return Err(AuthError::InvalidAuthToken);
                }
                let username = info.username.clone();
                let fresh = TokenInfo {
                    token: info.token.clone(),
                    username: info.username.clone(),
                    expiry: now + TOKEN_TTL_SECS * NANOS,
                };
                let ghost t = fresh@;
                let _ = self.token_store.replace(i, fresh);
                assert(self@.tokens =~= before.tokens.insert(token@, t));
                Ok(username)
            },
        }
    }

    /// The tokens that are valid.
    pub fn list_tokens(&self) -> (r: Vec<String>)
        requires
            self.wf(),
        ensures
            exists|now: int| #[trigger]
                is_time(now) && lists_keys(text_views(r@), self@.fresh_tokens(now)),
    {
        let now = now_nanos();
        assert(is_time(now as int));
        self.list_tokens_at(now)
    }

    /// The tokens that are valid at a time.
    pub fn list_tokens_at(&self, now: u128) -> (r: Vec<String>)
        requires
            self.wf(),
        ensures
            lists_keys(text_views(r@), self@.fresh_tokens(now as int)),
    {
        let ghost all = self.token_store.key_seq();
        let ghost fresh = self@.fresh_tokens(now as int);
        let mut r: Vec<String> = Vec::new();
        let mut i: usize = 0;
        while i < self.token_store.len()
            invariant
                self.wf(),
                all == self.token_store.key_seq(),
                fresh == self@.fresh_tokens(now as int),
                i <= all.len(),
                text_views(r@).no_duplicates(),
                forall|t: Seq<char>| #[trigger]
                    text_views(r@).contains(t) <==> fresh.contains_key(t) && exists|j: int|
                        0 <= j < i && all[j] == t,
            decreases all.len() - i,
        {
            proof {
                self.token_store.lemma_at(i as int);
            }
            let ghost was = text_views(r@);
            let ghost t = all[i as int];
            if self.token_store.value(i).expiry > now {
                r.push(self.token_store.key(i).clone());
                proof {
                    let v = text_views(r@);
                    assert(v =~= was.push(t));
                    assert(!was.contains(t)) by {
                        if was.contains(t) {
                            let j = choose|j: int| 0 <= j < i && all[j] == t;
                            crate::sorted_map::ascending_unique::<String>(all, j, i as int);
                        }
                    }
                    assert forall|x: Seq<char>| #[trigger] v.contains(x) <==> fresh.contains_key(x)
                        && exists|j: int| 0 <= j < i + 1 && all[j] == x by {
                        if x == t {
                            assert(v[was.len() as int] == t);
                            assert(all[i as int] == x);
                        } else {
                            assert(v.contains(x) <==> was.contains(x)) by {
                                if was.contains(x) {
                                    let k = choose|k: int| 0 <= k < was.len() && was[k] == x;
                                    assert(v[k] == x);
                                }
                            }
                        }
                    }
                }
            } else {
                proof {
                    assert(!fresh.contains_key(t));
                    assert forall|x: Seq<char>| #[trigger]
                        text_views(r@).contains(x) <==> fresh.contains_key(x) && exists|j: int|
                            0 <= j < i + 1 && all[j] == x by {
                        if was.contains(x) {
                            let j = choose|j: int| 0 <= j < i && all[j] == x;
                            assert(all[j] == x);
                        }
                    }
                }
            }
            i += 1;
        }
        proof {
            assert forall|t: Seq<char>| text_views(r@).contains(t) <==> #[trigger] fresh.contains_key(
                t,
            ) by {
                if fresh.contains_key(t) {
                    let j = self.token_store.lemma_position(t);
                    assert(all[j] == t);
                }
            }
        }
        r
    }

    /// Forgets a token.
    pub fn revoke_token(&mut self, token: &str)
        requires
            old(self).wf(),
        ensures
            final(self).wf(),
            final(self)@ == old(self)@.after(AuthCall::Revoke { token: token@ }),
            final(self)@ == (AuthView {
                tokens: old(self)@.tokens.remove(token@),
                ..old(self)@
            }),
    {
        let key = token.to_owned();
        let _ = self.token_store.remove(&key);
        assert(self@.tokens =~= old(self)@.tokens.remove(token@));
    }

    /// A copy of the users.
    pub fn get_users(&self) -> (r: SortedMap<String, AuthUser>)
        requires
            self.wf(),
        ensures
            r.wf(),
            user_views(r@) == self@.users,
    {
        let ghost all = self.users.key_seq();
        let mut r: SortedMap<String, AuthUser> = SortedMap::new();
        let mut i: usize = 0;
        while i < self.users.len()
            invariant
                self.wf(),
                r.wf(),
                all == self.users.key_seq(),
                i <= all.len(),
                forall|n: Seq<char>| #[trigger]
                    r@.contains_key(n) <==> exists|j: int| 0 <= j < i && all[j] == n,
                forall|n: Seq<char>| #[trigger]
                    r@.contains_key(n) ==> self@.users.contains_key(n) && r@[n]@
                        == self@.users[n],
            decreases all.len() - i,
        {
            proof {
                self.users.lemma_at(i as int);
            }
            let ghost was = r@;
            let _ = r.insert(self.users.key(i).clone(), self.users.value(i).clone());
            proof {
                assert forall|n: Seq<char>| #[trigger] r@.contains_key(n) <==> exists|j: int|
                    0 <= j < i + 1 && all[j] == n by {
                    if was.contains_key(n) {
                        let j = choose|j: int| 0 <= j < i && all[j] == n;
                        assert(all[j] == n);
                    }
                    if n == all[i as int] {
                        assert(all[i as int] == n);
                    }
                }
            }
            i += 1;
        }
        proof {
            assert forall|n: Seq<char>| self@.users.contains_key(n) implies r@.contains_key(n) by {
                let j = self.users.lemma_position(n);
                assert(all[j] == n);
            }
            assert(user_views(r@) =~= self@.users);
        }
        r
    }

    /// A copy of the roles.
    pub fn get_roles(&self) -> (r: SortedMap<String, AuthRole>)
        requires
            self.wf(),
        ensures
            r.wf(),
            role_views(r@) == self@.roles,
    {
        let ghost all = self.roles.key_seq();
        let mut r: SortedMap<String, AuthRole> = SortedMap::new();
        let mut i: usize = 0;
        while i < self.roles.len()
            invariant
                self.wf(),
                r.wf(),
                all == self.roles.key_seq(),
                i <= all.len(),
                forall|n: Seq<char>| #[trigger]
                    r@.contains_key(n) <==> exists|j: int| 0 <= j < i && all[j] == n,
                forall|n: Seq<char>| #[trigger]
                    r@.contains_key(n) ==> self@.roles.contains_key(n) && r@[n]@
                        == self@.roles[n],
            decreases all.len() - i,
        {
            proof {
                self.roles.lemma_at(i as int);
            }
            let ghost was = r@;
            let _ = r.insert(self.roles.key(i).clone(), self.roles.value(i).clone());
            proof {
                assert forall|n: Seq<char>| #[trigger] r@.contains_key(n) <==> exists|j: int|
                    0 <= j < i + 1 && all[j] == n by {
                    if was.contains_key(n) {
                        let j = choose|j: int| 0 <= j < i && all[j] == n;
                        assert(all[j] == n);
                    }
                    if n == all[i as int] {
                        assert(all[i as int] == n);
                    }
                }
            }
            i += 1;
        }
        proof {
            assert forall|n: Seq<char>| self@.roles.contains_key(n) implies r@.contains_key(n) by {
                let j = self.roles.lemma_position(n);
                assert(all[j] == n);
            }
            assert(role_views(r@) =~= self@.roles);
        }
        r
    }

    /// Replaces the users.
    pub fn set_users(&mut self, users: SortedMap<String, AuthUser>)
        requires
            old(self).wf(),
            users.wf(),
        ensures
            final(self).wf(),
            final(self)@ == old(self)@.after(AuthCall::SetUsers { users: user_views(users@) }),
            final(self)@ == (AuthView { users: user_views(users@), ..old(self)@ }),
    {
        self.users = users;
    }

    /// Replaces the roles.
    pub fn set_roles(&mut self, roles: SortedMap<String, AuthRole>)
        requires
            old(self).wf(),
            roles.wf(),
        ensures
            final(self).wf(),
            final(self)@ == old(self)@.after(AuthCall::SetRoles { roles: role_views(roles@) }),
            final(self)@ == (AuthView { roles: role_views(roles@), ..old(self)@ }),
    {
        self.roles = roles;
    }
}

impl Default for AuthStore {
    fn default() -> (r: AuthStore)
        ensures
            r.wf(),
            r@.users == Map::<Seq<char>, UserView>::empty(),
            r@.roles == Map::<Seq<char>, RoleView>::empty(),
            !r@.enabled,
            r@.revision == 0,
            r@.tokens == Map::<Seq<char>, TokenView>::empty(),
            r@.write_count == 0,
    {
        AuthStore::new()
    }
}

/// The first permission for a range is where none stands before it.
pub proof fn lemma_perm_place(perms: Seq<PermView>, key: Seq<u8>, end: Seq<u8>, i: int)
    requires
        0 <= i <= perms.len(),
        forall|j: int| 0 <= j < i ==> !same_range(#[trigger] perms[j], key, end),
        i < perms.len() ==> same_range(perms[i], key, end),
    ensures
        perm_place(perms, key, end) == i,
    decreases perms.len(),
{
    if i > 0 {
        let rest = perms.skip(1);
        assert(!same_range(perms[0], key, end));
        assert forall|j: int| 0 <= j < i - 1 implies !same_range(#[trigger] rest[j], key, end) by {
            assert(rest[j] == perms[j + 1]);
        }
        lemma_perm_place(rest, key, end, i - 1);
    }
}

/// What a token says of its user at a time.
pub open spec fn validated(
    s: AuthView,
    token: Seq<char>,
    now: int,
    r: Result<String, AuthError>,
) -> bool {
    if !s.enabled {
        r == Err::<String, AuthError>(AuthError::AuthNotEnabled)
    } else if !s.token_ok(token, now) {
        r == Err::<String, AuthError>(AuthError::InvalidAuthToken)
    } else {
        r matches Ok(name) && name@ == s.tokens[token].username
    }
}

/// What becomes of a token that is refreshed at a time.
pub open spec fn refreshed(
    s: AuthView,
    t: AuthView,
    token: Seq<char>,
    now: int,
    r: Result<String, AuthError>,
) -> bool {
    if s.token_ok(token, now) {
        &&& r matches Ok(name)
        &&& name@ == s.tokens[token].username
        &&& t == (AuthView {
            tokens: s.tokens.insert(
                token,
                TokenView { expiry: now + TOKEN_TTL_SECS * NANOS, ..s.tokens[token] },
            ),
            ..s
        })
    } else {
        &&& r == Err::<String, AuthError>(AuthError::InvalidAuthToken)
        &&& t == (AuthView { tokens: s.tokens.remove(token), ..s })
    }
}

// ------------------------------------------------------------------- laws

/// How many of some calls are changes that succeed, from a store on.
pub open spec fn changes(s: AuthView, calls: Seq<AuthCall>) -> nat
    decreases calls.len(),
{
    if calls.len() == 0 {
        0
    } else {
        let front = calls.drop_last();
        let last = calls.last();
        changes(s, front) + (if last.is_change() && s.after_all(front).succeeds(last) {
            1nat
        } else {
            0
        })
    }
}

/// The revision counts the changes of users, roles and permissions that succeed,
/// whatever other calls come between them, as long as the number holds them.
pub proof fn law_revision_counts_changes(s: AuthView, calls: Seq<AuthCall>)
    requires
        0 <= s.revision,
        s.revision + calls.len() <= i64::MAX,
    ensures
        s.after_all(calls).revision == s.revision + changes(s, calls),
        changes(s, calls) <= calls.len(),
    decreases calls.len(),
{
    if calls.len() > 0 {
        law_revision_counts_changes(s, calls.drop_last());
    }
}

/// No call among some takes a token away: it is not revoked, passwords are not given
/// up, and no login makes the same token again.
pub open spec fn keeps_token(calls: Seq<AuthCall>, token: Seq<char>) -> bool {
    forall|i: int|
        0 <= i < calls.len() ==> match #[trigger] calls[i] {
            AuthCall::Disable => false,
            AuthCall::Revoke { token: t } => t != token,
            AuthCall::Login { made, .. } => token_at(made) != token,
            _ => true,
        }
}

/// The time that the clock showed in a call, or else an earlier one.
pub open spec fn reading(call: AuthCall, earlier: int) -> int {
    match call {
        AuthCall::Login { cleaned, .. } => cleaned,
        AuthCall::Refresh { now, .. } => now,
        _ => earlier,
    }
}

/// The last time that the clock showed in some calls, from a time on.
pub open spec fn last_reading(start: int, calls: Seq<AuthCall>) -> int
    decreases calls.len(),
{
    if calls.len() == 0 {
        start
    } else {
        reading(calls.last(), last_reading(start, calls.drop_last()))
    }
}

/// The clock does not go back in some calls, from a time on.
pub open spec fn clock_goes_on(start: int, calls: Seq<AuthCall>) -> bool
    decreases calls.len(),
{
    calls.len() > 0 ==> {
        &&& clock_goes_on(start, calls.drop_last())
        &&& last_reading(start, calls.drop_last()) <= last_reading(start, calls)
    }
}

/// When a token expires after some calls: a refresh before it expires starts its time
/// anew.
pub open spec fn expiry_after(expiry: int, calls: Seq<AuthCall>, token: Seq<char>) -> int
    decreases calls.len(),
{
    if calls.len() == 0 {
        expiry
    } else {
        let e = expiry_after(expiry, calls.drop_last(), token);
        match calls.last() {
            AuthCall::Refresh { token: t, now } => if t == token && now < e {
                now + TOKEN_TTL_SECS * NANOS
            } else {
                e
            },
            _ => e,
        }
    }
}

/// A token is kept with its time, or it has gone because its time was over.
spec fn kept_token(s: AuthView, t: TokenView, last: int) -> bool {
    &&& s.enabled
    &&& s.tokens.contains_key(t.token) ==> s.tokens[t.token] == t
    &&& !s.tokens.contains_key(t.token) ==> t.expiry <= last
}

proof fn lemma_token_lives(s: AuthView, t: TokenView, start: int, calls: Seq<AuthCall>)
    requires
        kept_token(s, t, start),
        keeps_token(calls, t.token),
        clock_goes_on(start, calls),
    ensures
        kept_token(
            s.after_all(calls),
            TokenView { expiry: expiry_after(t.expiry, calls, t.token), ..t },
            last_reading(start, calls),
        ),
    decreases calls.len(),
{
    if calls.len() > 0 {
        let front = calls.drop_last();
        let token = t.token;
        assert forall|i: int| 0 <= i < front.len() implies match #[trigger] front[i] {
            AuthCall::Disable => false,
            AuthCall::Revoke { token: x } => x != token,
            AuthCall::Login { made, .. } => token_at(made) != token,
            _ => true,
        } by {
            assert(front[i] == calls[i]);
        }
        lemma_token_lives(s, t, start, front);
        assert(calls[calls.len() - 1] == calls.last());
    }
}

/// A token that a login gave lives for its time, through whatever calls come after it
/// that do not take it away, and a refresh in time starts its time anew: at a time
/// that the clock has not passed, it is valid, and listed, if and only if it has not
/// expired then, and it is the user's who logged in. The clock does not go back.
pub proof fn law_token_lives(
    s: AuthView,
    name: Seq<char>,
    made: u128,
    from: int,
    cleaned: int,
    calls: Seq<AuthCall>,
    now: int,
)
    requires
        s.enabled,
        keeps_token(calls, token_at(made)),
        clock_goes_on(cleaned, calls),
        last_reading(cleaned, calls) <= now,
    ensures
        ({
            let token = token_at(made);
            let t = s.logged_in(name, made, from, cleaned).after_all(calls);
            let e = expiry_after(from + TOKEN_TTL_SECS * NANOS, calls, token);
            &&& t.fresh_tokens(now).contains_key(token) == (now < e)
            &&& forall|r: Result<String, AuthError>|
                validated(t, token, now, r) ==> {
                    &&& r is Ok == (now < e)
                    &&& r matches Ok(user) ==> user@ == name
                }
        }),
{
    let token = token_at(made);
    let given = TokenView { token, username: name, expiry: from + TOKEN_TTL_SECS * NANOS };
    lemma_token_lives(s.logged_in(name, made, from, cleaned), given, cleaned, calls);
}

/// No login among some makes a token.
pub open spec fn never_made(calls: Seq<AuthCall>, token: Seq<char>) -> bool {
    forall|i: int|
        0 <= i < calls.len() ==> ((#[trigger] calls[i]) matches AuthCall::Login { made, .. }
            ==> token_at(made) != token)
}

/// What no login gave is no valid token, through whatever calls.
pub proof fn law_unmade_token_is_invalid(
    s: AuthView,
    calls: Seq<AuthCall>,
    token: Seq<char>,
    now: int,
)
    requires
        !s.tokens.contains_key(token),
        never_made(calls, token),
    ensures
        !s.after_all(calls).tokens.contains_key(token),
        forall|r: Result<String, AuthError>|
            validated(s.after_all(calls), token, now, r) ==> r is Err,
    decreases calls.len(),
{
    if calls.len() > 0 {
        let front = calls.drop_last();
        assert(never_made(front, token)) by {
            assert forall|i: int| 0 <= i < front.len() implies ((
            #[trigger] front[i]) matches AuthCall::Login { made, .. } ==> token_at(made)
                != token) by {
                assert(front[i] == calls[i]);
            }
        }
        law_unmade_token_is_invalid(s, front, token, now);
        assert(calls[calls.len() - 1] == calls.last());
    }
}

/// A token that was revoked, or that was there when passwords were given up, is not
/// valid, through whatever calls come after that, until a login makes it again.
pub proof fn law_revoked_token_is_gone(
    s: AuthView,
    gone: AuthCall,
    calls: Seq<AuthCall>,
    token: Seq<char>,
    now: int,
)
    requires
        gone is Disable || gone == (AuthCall::Revoke { token }),
        never_made(calls, token),
    ensures
        !s.after(gone).after_all(calls).tokens.contains_key(token),
        forall|r: Result<String, AuthError>|
            validated(s.after(gone).after_all(calls), token, now, r) ==> r is Err,
{
    law_unmade_token_is_invalid(s.after(gone), calls, token, now);
}

/// A login changes no user and no role, and leaves the other tokens as they were: what
/// is valid from then on was so before.
pub proof fn law_login_keeps_others(
    s: AuthView,
    name: Seq<char>,
    made: u128,
    from: int,
    cleaned: int,
    other: Seq<char>,
    now: int,
)
    requires
        other != token_at(made),
        cleaned <= now,
    ensures
        ({
            let t = s.logged_in(name, made, from, cleaned);
            &&& t.token_ok(other, now) == s.token_ok(other, now)
            &&& t.users == s.users
            &&& t.roles == s.roles
            &&& t.revision == s.revision
            &&& t.enabled == s.enabled
        }),
{
}

proof fn lemma_hexadecimal_len(n: nat, width: nat)
    ensures
        hexadecimal(n, width).len() >= width,
    decreases n, width,
{
    if n != 0 || width != 0 {
        lemma_hexadecimal_len(
            n / 16,
            if width == 0 {
                0
            } else {
                (width - 1) as nat
            },
        );
    }
}

/// A token starts with its version, and has at least thirty-two digits behind it.
pub proof fn law_token_form(made: u128)
    ensures
        "v1."@.is_prefix_of(token_at(made)),
        token_at(made).len() >= 35,
{
    reveal_strlit("v1.");
    let m = mixed_time(made);
    lemma_hexadecimal_len(m as nat, 16);
    lemma_hexadecimal_len((m ^ (m >> 32u128)) as nat, 16);
    assert(token_at(made).take(3) =~= "v1."@);
}

/// A user who was given a password can use it, and no other with another digest.
pub proof fn law_new_password_works(
    s: AuthView,
    name: Seq<char>,
    password: Seq<char>,
    other: Seq<char>,
)
    requires
        s.users.contains_key(name),
    ensures
        ({
            let t = s.with_user(
                name,
                UserView {
                    password_hash: password_digest(password),
                    no_password: false,
                    ..s.users[name]
                },
            );
            &&& t.password_ok(name, password)
            &&& t.password_ok(name, other) == (password_digest(other) == password_digest(password))
        }),
{
}

/// A token that a user got is theirs while it is valid, and not after that.
pub proof fn law_token_of_user(
    s: AuthView,
    name: Seq<char>,
    made: u128,
    from: int,
    cleaned: int,
    now: int,
)
    requires
        cleaned < from + TOKEN_TTL_SECS * NANOS,
    ensures
        ({
            let t = s.logged_in(name, made, from, cleaned);
            &&& t.token_ok(token_at(made), now) == (now < from + TOKEN_TTL_SECS * NANOS)
            &&& t.token_ok(token_at(made), now) ==> t.tokens[token_at(made)].username == name
        }),
{
}

/// Dropping expired tokens changes nothing for those that are valid later.
pub proof fn law_cleanup_keeps_valid(s: AuthView, token: Seq<char>, cleaned: int, now: int)
    requires
        cleaned <= now,
    ensures
        (AuthView { tokens: s.fresh_tokens(cleaned), ..s }).token_ok(token, now) == s.token_ok(
            token,
            now,
        ),
{
}

/// Without authentication everything is allowed, and no token is valid.
pub proof fn law_disabled(
    s: AuthView,
    name: Seq<char>,
    key: Seq<u8>,
    end: Seq<u8>,
    t: PermissionType,
    token: Seq<char>,
    now: int,
)
    ensures
        ({
            let d = AuthView { enabled: false, tokens: Map::empty(), ..s.bumped() };
            &&& d.perm_error(name, key, end, t) is None
            &&& !d.token_ok(token, now)
        }),
{
}

/// The root user may do everything while there is a root role.
pub proof fn law_root_may(s: AuthView, key: Seq<u8>, end: Seq<u8>, t: PermissionType)
    requires
        s.users.contains_key("root"@),
        s.roles.contains_key("root"@),
    ensures
        s.perm_error("root"@, key, end, t) is None,
{
}

/// A permission that a role of a user has is a permission of the user; one to read
/// and write allows both.
pub proof fn law_granted_permission_allows(
    s: AuthView,
    name: Seq<char>,
    role: Seq<char>,
    p: PermView,
    key: Seq<u8>,
    end: Seq<u8>,
    t: PermissionType,
)
    requires
        s.users.contains_key(name),
        s.users[name].roles.contains(role),
        s.roles.contains_key(role),
        s.roles[role].permissions.contains(p),
        permits(p, key, end, t),
    ensures
        s.perm_error(name, key, end, t) is None,
{
    let roles = s.users[name].roles;
    let i = choose|i: int| 0 <= i < roles.len() && roles[i] == role;
    let perms = s.roles[role].permissions;
    let j = choose|j: int| 0 <= j < perms.len() && perms[j] == p;
    assert(permits(perms[j], key, end, t));
    assert(s.roles.contains_key(roles[i]) && permitted(
        s.roles[roles[i]].permissions,
        key,
        end,
        t,
    ));
}

} // verus!
