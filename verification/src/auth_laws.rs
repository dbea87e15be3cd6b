//! What holds of users, roles and permissions.

use crate::auth::{
    key_within, law_granted_permission_allows, lemma_perm_place, lists_keys, password_digest,
    perm_place, permits, permitted, refreshed, same_range, token_at, validated, AuthCall,
    AuthError, AuthView, PermView, PermissionType,
};
use crate::order::{lex_asymmetric, lex_irreflexive, lex_lt, lex_total};
use vstd::prelude::*;
use vstd::string::*;

verus! {

/// The user is there and passwords are asked for, and the user is not the root user.
pub open spec fn is_checked(s: AuthView, name: Seq<char>) -> bool {
    &&& s.enabled
    &&& s.users.contains_key(name)
    &&& name != "root"@
}

/// All permissions of the roles of a user are of one type.
pub open spec fn holds_only(s: AuthView, name: Seq<char>, t: PermissionType) -> bool {
    forall|role: Seq<char>, i: int|
        s.users[name].roles.contains(role) && s.roles.contains_key(role) && 0 <= i
            < s.roles[role].permissions.len() ==> (
        #[trigger] s.roles[role].permissions[i]).perm_type == t
}

/// A role of a user has a permission.
pub open spec fn holds(s: AuthView, name: Seq<char>, p: PermView) -> bool {
    exists|role: Seq<char>|
        s.users[name].roles.contains(role) && #[trigger] s.roles.contains_key(role)
            && s.roles[role].permissions.contains(p)
}

/// A key lies in the range of a permission: it is the one key where the range has no end,
/// and else neither before the first key nor at the end or behind it.
pub open spec fn covers(p: PermView, key: Seq<u8>) -> bool {
    if p.range_end.len() == 0 {
        p.key == key
    } else {
        !lex_lt(key, p.key) && lex_lt(key, p.range_end)
    }
}

proof fn lemma_covers(p: PermView, key: Seq<u8>)
    ensures
        covers(p, key) == key_within(key, p.key, p.range_end),
{
    lex_total(key, p.key);
    if lex_lt(key, p.key) {
        lex_asymmetric(key, p.key);
    }
    lex_irreflexive(key);
}

proof fn lemma_holds(s: AuthView, roles: Seq<Seq<char>>, i: int, name: Seq<char>, p: PermView)
    requires
        roles == s.users[name].roles,
        0 <= i < roles.len(),
        s.roles.contains_key(roles[i]),
        s.roles[roles[i]].permissions.contains(p),
    ensures
        holds(s, name, p),
{
    assert(roles.contains(roles[i]));
}

/// What a checked user may do: a request is allowed if and only if a role of theirs has
/// a permission of its type, or one to read and write, whose range takes in the key, and
/// the end where there is one. Otherwise it is denied.
pub proof fn law_permission_decides(
    s: AuthView,
    name: Seq<char>,
    key: Seq<u8>,
    end: Seq<u8>,
    t: PermissionType,
)
    requires
        is_checked(s, name),
    ensures
        (s.perm_error(name, key, end, t) is None) == exists|p: PermView|
            #[trigger] holds(s, name, p) && (p.perm_type == t || p.perm_type
                == PermissionType::ReadWrite) && covers(p, key) && (end.len() == 0 || covers(
                p,
                end,
            )),
        s.perm_error(name, key, end, t) is Some ==> s.perm_error(name, key, end, t) == Some(
            AuthError::PermissionDenied,
        ),
{
    let roles = s.users[name].roles;
    if s.perm_error(name, key, end, t) is None {
        let i = choose|i: int|
            0 <= i < roles.len() && s.roles.contains_key(#[trigger] roles[i]) && permitted(
                s.roles[roles[i]].permissions,
                key,
                end,
                t,
            );
        let perms = s.roles[roles[i]].permissions;
        let j = choose|j: int| 0 <= j < perms.len() && permits(#[trigger] perms[j], key, end, t);
        lemma_holds(s, roles, i, name, perms[j]);
        lemma_covers(perms[j], key);
        lemma_covers(perms[j], end);
    }
    if exists|p: PermView|
        #[trigger] holds(s, name, p) && (p.perm_type == t || p.perm_type
            == PermissionType::ReadWrite) && covers(p, key) && (end.len() == 0 || covers(p, end)) {
        let p = choose|p: PermView|
            #[trigger] holds(s, name, p) && (p.perm_type == t || p.perm_type
                == PermissionType::ReadWrite) && covers(p, key) && (end.len() == 0 || covers(
                p,
                end,
            ));
        lemma_covers(p, key);
        lemma_covers(p, end);
        let role = choose|role: Seq<char>|
            s.users[name].roles.contains(role) && #[trigger] s.roles.contains_key(role)
                && s.roles[role].permissions.contains(p);
        law_granted_permission_allows(s, name, role, p, key, end, t);
    }
}

/// Who may only read is denied every write, and who may only write is denied every read.
pub proof fn law_types_are_apart(s: AuthView, name: Seq<char>, key: Seq<u8>, end: Seq<u8>)
    requires
        is_checked(s, name),
    ensures
        holds_only(s, name, PermissionType::Read) ==> s.perm_error(
            name,
            key,
            end,
            PermissionType::Write,
        ) == Some(AuthError::PermissionDenied),
        holds_only(s, name, PermissionType::Write) ==> s.perm_error(
            name,
            key,
            end,
            PermissionType::Read,
        ) == Some(AuthError::PermissionDenied),
        holds_only(s, name, PermissionType::Read) || holds_only(s, name, PermissionType::Write)
            ==> s.perm_error(name, key, end, PermissionType::ReadWrite) == Some(
            AuthError::PermissionDenied,
        ),
        holds_only(s, name, PermissionType::ReadWrite) ==> s.perm_error(
            name,
            key,
            end,
            PermissionType::Read,
        ) == s.perm_error(name, key, end, PermissionType::Write),
{
    law_permission_decides(s, name, key, end, PermissionType::Write);
    law_permission_decides(s, name, key, end, PermissionType::Read);
    law_permission_decides(s, name, key, end, PermissionType::ReadWrite);
    assert forall|p: PermView, t: PermissionType|
        #![trigger holds(s, name, p), holds_only(s, name, t)]
        holds(s, name, p) && holds_only(s, name, t) implies p.perm_type == t by {
        let role = choose|role: Seq<char>|
            s.users[name].roles.contains(role) && #[trigger] s.roles.contains_key(role)
                && s.roles[role].permissions.contains(p);
        let i = choose|i: int|
            0 <= i < s.roles[role].permissions.len() && s.roles[role].permissions[i] == p;
        assert(s.roles[role].permissions[i].perm_type == t);
    }
    if holds_only(s, name, PermissionType::ReadWrite) {
        if s.perm_error(name, key, end, PermissionType::Read) is None {
            let p = choose|p: PermView|
                #[trigger] holds(s, name, p) && (p.perm_type == PermissionType::Read || p.perm_type
                    == PermissionType::ReadWrite) && covers(p, key) && (end.len() == 0 || covers(
                    p,
                    end,
                ));
            assert(p.perm_type == PermissionType::ReadWrite);
            assert(s.perm_error(name, key, end, PermissionType::Write) is None);
        }
        if s.perm_error(name, key, end, PermissionType::Write) is None {
            let p = choose|p: PermView|
                #[trigger] holds(s, name, p) && (p.perm_type == PermissionType::Write
                    || p.perm_type == PermissionType::ReadWrite) && covers(p, key) && (end.len()
                    == 0 || covers(p, end));
            assert(p.perm_type == PermissionType::ReadWrite);
            assert(s.perm_error(name, key, end, PermissionType::Read) is None);
        }
    }
}

/// A key that no permission of a user takes in is denied, and so is everything for a user
/// without roles.
pub proof fn law_keys_outside_are_denied(
    s: AuthView,
    name: Seq<char>,
    key: Seq<u8>,
    end: Seq<u8>,
    t: PermissionType,
)
    requires
        is_checked(s, name),
        s.users[name].roles.len() == 0 || forall|p: PermView|
            #[trigger] holds(s, name, p) ==> !covers(p, key),
    ensures
        s.perm_error(name, key, end, t) == Some(AuthError::PermissionDenied),
{
    law_permission_decides(s, name, key, end, t);
}

/// A range is allowed only where its first key is, and a permission for one key allows
/// no range that ends at another key.
pub proof fn law_ranges_need_both_ends(
    s: AuthView,
    name: Seq<char>,
    key: Seq<u8>,
    end: Seq<u8>,
    t: PermissionType,
)
    requires
        is_checked(s, name),
        s.perm_error(name, key, end, t) is None,
        end.len() > 0,
    ensures
        s.perm_error(name, key, Seq::empty(), t) is None,
        s.perm_error(name, end, Seq::empty(), t) is None,
        exists|p: PermView| #[trigger] holds(s, name, p) && covers(p, key) && covers(p, end),
{
    law_permission_decides(s, name, key, end, t);
    law_permission_decides(s, name, key, Seq::empty(), t);
    law_permission_decides(s, name, end, Seq::empty(), t);
    let p = choose|p: PermView|
        #[trigger] holds(s, name, p) && (p.perm_type == t || p.perm_type
            == PermissionType::ReadWrite) && covers(p, key) && (end.len() == 0 || covers(p, end));
    assert(holds(s, name, p) && covers(p, key) && covers(p, end));
}

/// Whom the permissions do not concern: without passwords everybody may do everything; a
/// name that is no user's may do nothing; the root user may do everything while there is
/// a root role.
pub proof fn law_unchecked(
    s: AuthView,
    name: Seq<char>,
    key: Seq<u8>,
    end: Seq<u8>,
    t: PermissionType,
)
    ensures
        !s.enabled ==> s.perm_error(name, key, end, t) is None,
        s.enabled && !s.users.contains_key(name) ==> s.perm_error(name, key, end, t) == Some(
            AuthError::UserNotFound,
        ),
        s.enabled && s.users.contains_key("root"@) && s.roles.contains_key("root"@)
            ==> s.perm_error("root"@, key, end, t) is None,
        s.enabled && s.users.contains_key("root"@) && !s.roles.contains_key("root"@)
            && s.users["root"@].roles.len() == 0 ==> s.perm_error("root"@, key, end, t) == Some(
            AuthError::PermissionDenied,
        ),
{
}

// ------------------------------------------------------------------ calls

/// A call that fails changes nothing, but that a token that is refreshed too late is
/// forgotten.
pub proof fn law_failed_call_changes_nothing(s: AuthView, call: AuthCall)
    requires
        !s.succeeds(call),
    ensures
        !(call is Refresh) ==> s.after(call) == s,
        s.after(call).users == s.users,
        s.after(call).roles == s.roles,
        s.after(call).enabled == s.enabled,
        s.after(call).revision == s.revision,
{
}

/// Why a call about a user fails: the user is not there, or is there already, or the role
/// is theirs, is not theirs or is none.
pub proof fn law_refused_calls_about_users(
    s: AuthView,
    name: Seq<char>,
    password: Seq<char>,
    flag: bool,
    role: Seq<char>,
)
    ensures
        ({
            let known = s.users.contains_key(name);
            let owned = s.users[name].roles.contains(role);
            let add = s.refusal(AuthCall::UserAdd { name, password, no_password: flag });
            let delete = s.refusal(AuthCall::UserDelete { name });
            let change = s.refusal(AuthCall::UserChangePassword { name, password });
            let grant = s.refusal(AuthCall::UserGrantRole { user: name, role });
            let revoke = s.refusal(AuthCall::UserRevokeRole { user: name, role });
            &&& name.len() == 0 ==> add == Some(AuthError::UserEmpty) && delete == Some(
                AuthError::UserEmpty,
            )
            &&& name.len() > 0 && known ==> add == Some(AuthError::UserAlreadyExist) && delete
                is None
            &&& name.len() > 0 && !known ==> add is None && delete == Some(AuthError::UserNotFound)
            &&& known ==> change is None
            &&& !known ==> change == Some(AuthError::UserNotFound) && grant == Some(
                AuthError::UserNotFound,
            ) && revoke == Some(AuthError::UserNotFound)
            &&& known && owned ==> grant == Some(AuthError::RoleNotGranted) && revoke is None
            &&& known && !owned ==> revoke == Some(AuthError::RoleNotGranted)
            &&& known && !owned && !s.roles.contains_key(role) ==> grant == Some(
                AuthError::RoleNotFound,
            )
            &&& known && !owned && s.roles.contains_key(role) ==> grant is None
        }),
{
}

/// Why a call about a role, a login, or the wish to ask for passwords fails.
pub proof fn law_other_refused_calls(
    s: AuthView,
    name: Seq<char>,
    password: Seq<char>,
    p: PermView,
    made: u128,
    from: int,
    cleaned: int,
)
    ensures
        ({
            let known = s.roles.contains_key(name);
            let perms = s.roles[name].permissions;
            let there = exists|i: int|
                0 <= i < perms.len() && (#[trigger] perms[i]).key == p.key && perms[i].range_end
                    == p.range_end;
            let add = s.refusal(AuthCall::RoleAdd { name });
            let delete = s.refusal(AuthCall::RoleDelete { name });
            let grant = s.refusal(AuthCall::RoleGrantPermission { name, perm: p });
            let revoke = s.refusal(
                AuthCall::RoleRevokePermission { name, key: p.key, end: p.range_end },
            );
            let login = s.refusal(AuthCall::Login { name, password, made, from, cleaned });
            let enable = s.refusal(AuthCall::Enable);
            &&& name.len() == 0 ==> add == Some(AuthError::RoleEmpty) && delete == Some(
                AuthError::RoleEmpty,
            )
            &&& name.len() > 0 && known ==> add == Some(AuthError::RoleAlreadyExist) && delete
                is None
            &&& name.len() > 0 && !known ==> add is None && delete == Some(AuthError::RoleNotFound)
            &&& !known ==> grant == Some(AuthError::RoleNotFound) && revoke == Some(
                AuthError::RoleNotFound,
            )
            &&& known && there ==> grant == Some(AuthError::PermissionNotGranted) && revoke is None
            &&& known && !there ==> grant is None && revoke == Some(AuthError::PermissionNotGiven)
            &&& !s.enabled ==> login == Some(AuthError::AuthNotEnabled)
            &&& s.enabled && !s.password_ok(name, password) ==> login == Some(AuthError::AuthFailed)
            &&& s.enabled && s.password_ok(name, password) ==> login is None
            &&& !s.users.contains_key("root"@) ==> enable == Some(AuthError::RootUserNotExist)
            &&& s.users.contains_key("root"@) && !s.roles.contains_key("root"@) ==> enable == Some(
                AuthError::RootRoleNotExist,
            )
            &&& s.users.contains_key("root"@) && s.roles.contains_key("root"@) ==> enable is None
        }),
{
    law_place_of_permission(s.roles[name].permissions, p.key, p.range_end);
}

/// The user that a call is about.
pub open spec fn user_of(call: AuthCall) -> Option<Seq<char>> {
    match call {
        AuthCall::UserAdd { name, .. } => Some(name),
        AuthCall::UserDelete { name } => Some(name),
        AuthCall::UserChangePassword { name, .. } => Some(name),
        AuthCall::UserGrantRole { user, .. } => Some(user),
        AuthCall::UserRevokeRole { user, .. } => Some(user),
        _ => None,
    }
}

/// The role whose permissions a call is about.
pub open spec fn role_of(call: AuthCall) -> Option<Seq<char>> {
    match call {
        AuthCall::RoleAdd { name } => Some(name),
        AuthCall::RoleDelete { name } => Some(name),
        AuthCall::RoleGrantPermission { name, .. } => Some(name),
        AuthCall::RoleRevokePermission { name, .. } => Some(name),
        _ => None,
    }
}

/// A call that is about one user leaves the others, and all roles, as they are; a call
/// that is about one role leaves the others, and all users, as they are. Neither changes
/// a token, or whether passwords are asked for.
pub proof fn law_calls_leave_others(s: AuthView, call: AuthCall, other: Seq<char>)
    ensures
        user_of(call) is Some ==> {
            let t = s.after(call);
            &&& other != user_of(call)->0 ==> t.users.contains_key(other) == s.users.contains_key(
                other,
            ) && t.users[other] == s.users[other]
            &&& t.roles == s.roles
            &&& t.tokens == s.tokens
            &&& t.enabled == s.enabled
            &&& t.write_count == s.write_count
        },
        role_of(call) is Some ==> {
            let t = s.after(call);
            &&& other != role_of(call)->0 ==> t.roles.contains_key(other) == s.roles.contains_key(
                other,
            ) && t.roles[other] == s.roles[other]
            &&& t.users == s.users
            &&& t.tokens == s.tokens
            &&& t.enabled == s.enabled
            &&& t.write_count == s.write_count
        },
        call is Enable || call is Disable ==> {
            &&& s.after(call).users == s.users
            &&& s.after(call).roles == s.roles
        },
{
}

/// The revision goes on by one with a change that succeeds.
pub proof fn law_revision_goes_on(s: AuthView, call: AuthCall)
    requires
        call is Enable || call is Disable || user_of(call) is Some || role_of(call) is Some,
        s.succeeds(call),
        s.revision < i64::MAX,
    ensures
        s.after(call).revision == s.revision + 1,
{
}

/// Passwords can be asked for if and only if there are a root user and a root role. They
/// can be given up at any time, and then no token is left.
pub proof fn law_enabling(s: AuthView)
    ensures
        s.succeeds(AuthCall::Enable) == (s.users.contains_key("root"@) && s.roles.contains_key(
            "root"@,
        )),
        s.succeeds(AuthCall::Enable) ==> s.after(AuthCall::Enable).enabled && s.after(
            AuthCall::Enable,
        ).tokens == s.tokens,
        s.succeeds(AuthCall::Disable),
        !s.after(AuthCall::Disable).enabled,
        s.after(AuthCall::Disable).tokens.dom() == Set::<Seq<char>>::empty(),
{
}

/// A user who is added is there with their name and no role, and cannot be added again.
/// With a password it is theirs; without one any password is. There is no user without a
/// name.
pub proof fn law_added_user(
    s: AuthView,
    name: Seq<char>,
    password: Seq<char>,
    no_password: bool,
    other: Seq<char>,
)
    ensures
        ({
            let call = AuthCall::UserAdd { name, password, no_password };
            let t = s.after(call);
            &&& s.succeeds(call) == (name.len() > 0 && !s.users.contains_key(name))
            &&& s.succeeds(call) ==> {
                &&& t.users.contains_key(name)
                &&& t.users[name].name == name
                &&& t.users[name].roles.len() == 0
                &&& !t.succeeds(call)
                &&& t.password_ok(name, password)
                &&& !no_password ==> t.password_ok(name, other) == (password_digest(other)
                    == password_digest(password))
                &&& no_password ==> t.password_ok(name, other)
            }
        }),
{
}

/// A user who is deleted is no user: they have no password, no permission and no login,
/// and can be added again.
pub proof fn law_deleted_user(
    s: AuthView,
    name: Seq<char>,
    password: Seq<char>,
    key: Seq<u8>,
    end: Seq<u8>,
    t: PermissionType,
)
    requires
        name.len() > 0,
    ensures
        ({
            let call = AuthCall::UserDelete { name };
            let d = s.after(call);
            &&& s.succeeds(call) == s.users.contains_key(name)
            &&& !d.users.contains_key(name)
            &&& !d.password_ok(name, password)
            &&& s.enabled ==> d.perm_error(name, key, end, t) == Some(AuthError::UserNotFound)
            &&& d.succeeds(AuthCall::UserAdd { name, password, no_password: false })
            &&& !d.succeeds(call)
        }),
{
}

/// A password that is changed keeps the roles of its user, and takes the place of the
/// one before.
pub proof fn law_changed_password(
    s: AuthView,
    name: Seq<char>,
    password: Seq<char>,
    other: Seq<char>,
)
    ensures
        ({
            let call = AuthCall::UserChangePassword { name, password };
            let t = s.after(call);
            &&& s.succeeds(call) == s.users.contains_key(name)
            &&& s.succeeds(call) ==> {
                &&& t.users[name].roles == s.users[name].roles
                &&& t.users[name].name == s.users[name].name
                &&& t.password_ok(name, password)
                &&& t.password_ok(name, other) == (password_digest(other) == password_digest(
                    password,
                ))
            }
        }),
{
}

/// A role that is granted to a user is theirs, and is granted once. To revoke it undoes
/// that.
pub proof fn law_granted_role(s: AuthView, user: Seq<char>, role: Seq<char>)
    ensures
        ({
            let grant = AuthCall::UserGrantRole { user, role };
            let revoke = AuthCall::UserRevokeRole { user, role };
            let t = s.after(grant);
            &&& s.succeeds(grant) == (s.users.contains_key(user) && s.roles.contains_key(role)
                && !s.users[user].roles.contains(role))
            &&& s.succeeds(revoke) == (s.users.contains_key(user) && s.users[user].roles.contains(
                role,
            ))
            &&& s.succeeds(grant) ==> {
                &&& t.users[user].roles == s.users[user].roles.push(role)
                &&& t.users[user].password_hash == s.users[user].password_hash
                &&& t.users[user].no_password == s.users[user].no_password
                &&& !t.succeeds(grant)
                &&& t.succeeds(revoke)
                &&& t.after(revoke).users == s.users
            }
        }),
{
    let grant = AuthCall::UserGrantRole { user, role };
    let revoke = AuthCall::UserRevokeRole { user, role };
    if s.succeeds(grant) {
        let t = s.after(grant);
        let roles = s.users[user].roles;
        let more = roles.push(role);
        assert(more[roles.len() as int] == role);
        assert(more.contains(role));
        more.index_of_first_ensures(role);
        let i = more.index_of_first(role)->0;
        if i < roles.len() {
            assert(roles[i] == role);
            assert(roles.contains(role));
        }
        assert(more.remove(roles.len() as int) =~= roles);
        assert(t.after(revoke).users =~= s.users);
    }
}

/// A role that is revoked leaves the other roles of the user to them. A role that was
/// granted once is no longer theirs.
pub proof fn law_revoked_role(s: AuthView, user: Seq<char>, role: Seq<char>, other: Seq<char>)
    requires
        s.succeeds(AuthCall::UserRevokeRole { user, role }),
        s.users[user].roles.no_duplicates(),
    ensures
        ({
            let t = s.after(AuthCall::UserRevokeRole { user, role });
            &&& !t.users[user].roles.contains(role)
            &&& other != role ==> t.users[user].roles.contains(other)
                == s.users[user].roles.contains(other)
            &&& t.users[user].roles.len() == s.users[user].roles.len() - 1
        }),
{
    let roles = s.users[user].roles;
    roles.index_of_first_ensures(role);
    let i = roles.index_of_first(role)->0;
    let less = roles.remove(i);
    if less.contains(role) {
        let j = choose|j: int| 0 <= j < less.len() && less[j] == role;
        assert(roles[if j < i {
            j
        } else {
            j + 1
        }] == role);
    }
    if other != role {
        if less.contains(other) {
            let j = choose|j: int| 0 <= j < less.len() && less[j] == other;
            assert(roles[if j < i {
                j
            } else {
                j + 1
            }] == other);
        }
        if roles.contains(other) {
            let j = choose|j: int| 0 <= j < roles.len() && roles[j] == other;
            assert(less[if j < i {
                j
            } else {
                j - 1
            }] == other);
        }
    }
}

/// A role that is added has no permission, and is added once. One that is deleted is
/// gone, and allows nothing to those who had it alone.
pub proof fn law_role_comes_and_goes(
    s: AuthView,
    name: Seq<char>,
    user: Seq<char>,
    key: Seq<u8>,
    end: Seq<u8>,
    t: PermissionType,
)
    requires
        name.len() > 0,
    ensures
        ({
            let add = AuthCall::RoleAdd { name };
            let delete = AuthCall::RoleDelete { name };
            &&& s.succeeds(add) == !s.roles.contains_key(name)
            &&& s.succeeds(delete) == s.roles.contains_key(name)
            &&& s.after(add).roles.contains_key(name)
            &&& !s.roles.contains_key(name) ==> {
                &&& s.after(add).roles[name].permissions.len() == 0
                &&& s.after(add).roles[name].name == name
            }
            &&& !s.after(add).succeeds(add)
            &&& !s.after(delete).roles.contains_key(name)
            &&& is_checked(s, user) && s.users[user].roles == seq![name] ==> s.after(
                delete,
            ).perm_error(user, key, end, t) == Some(AuthError::PermissionDenied)
        }),
{
    let d = s.after(AuthCall::RoleDelete { name });
    if is_checked(s, user) && s.users[user].roles == seq![name] {
        assert forall|i: int| 0 <= i < d.users[user].roles.len() implies !d.roles.contains_key(
            #[trigger] d.users[user].roles[i],
        ) by {}
    }
}

proof fn lemma_place_of_none(perms: Seq<PermView>, key: Seq<u8>, end: Seq<u8>)
    requires
        forall|i: int| 0 <= i < perms.len() ==> !same_range(#[trigger] perms[i], key, end),
    ensures
        perm_place(perms, key, end) == perms.len(),
{
    lemma_perm_place(perms, key, end, perms.len() as int);
}

/// Where a permission stands: at the first place with its range, or nowhere.
pub proof fn law_place_of_permission(perms: Seq<PermView>, key: Seq<u8>, end: Seq<u8>)
    ensures
        ({
            let n = perm_place(perms, key, end);
            &&& n <= perms.len()
            &&& n < perms.len() ==> perms[n as int].key == key && perms[n as int].range_end == end
            &&& forall|i: int|
                0 <= i < n ==> !((#[trigger] perms[i]).key == key && perms[i].range_end == end)
        }),
    decreases perms.len(),
{
    if perms.len() > 0 && !same_range(perms[0], key, end) {
        let rest = perms.skip(1);
        law_place_of_permission(rest, key, end);
        let n = perm_place(perms, key, end);
        assert forall|i: int| 0 <= i < n implies !((#[trigger] perms[i]).key == key
            && perms[i].range_end == end) by {
            if i > 0 {
                assert(rest[i - 1] == perms[i]);
            }
        }
        if n < perms.len() {
            assert(rest[n - 1] == perms[n as int]);
        }
    }
}

/// A permission that is granted to a role is in it, behind the others, and there is one
/// for each range. To revoke it undoes that.
pub proof fn law_granted_permission(s: AuthView, name: Seq<char>, p: PermView)
    requires
        s.roles.contains_key(name),
        forall|i: int|
            0 <= i < s.roles[name].permissions.len() ==> !((
            #[trigger] s.roles[name].permissions[i]).key == p.key
                && s.roles[name].permissions[i].range_end == p.range_end),
    ensures
        ({
            let grant = AuthCall::RoleGrantPermission { name, perm: p };
            let revoke = AuthCall::RoleRevokePermission { name, key: p.key, end: p.range_end };
            let t = s.after(grant);
            &&& s.succeeds(grant)
            &&& !s.succeeds(revoke)
            &&& t.roles.contains_key(name)
            &&& t.roles[name].permissions == s.roles[name].permissions.push(p)
            &&& t.roles[name].name == s.roles[name].name
            &&& !t.succeeds(grant)
            &&& t.succeeds(revoke)
            &&& t.after(revoke).roles == s.roles
        }),
{
    let perms = s.roles[name].permissions;
    let more = perms.push(p);
    let revoke = AuthCall::RoleRevokePermission { name, key: p.key, end: p.range_end };
    let t = s.after(AuthCall::RoleGrantPermission { name, perm: p });
    assert forall|i: int| 0 <= i < perms.len() implies !same_range(
        #[trigger] perms[i],
        p.key,
        p.range_end,
    ) by {}
    lemma_place_of_none(perms, p.key, p.range_end);
    assert forall|i: int| 0 <= i < perms.len() implies !same_range(
        #[trigger] more[i],
        p.key,
        p.range_end,
    ) by {
        assert(more[i] == perms[i]);
    }
    lemma_perm_place(more, p.key, p.range_end, perms.len() as int);
    assert(more.remove(perms.len() as int) =~= perms);
    assert(t.after(revoke).roles =~= s.roles);
}

/// A range for which a role has a permission gets no other, and the one that it has can
/// be revoked. The others of the role stay, in their order.
pub proof fn law_revoked_permission(s: AuthView, name: Seq<char>, i: int)
    requires
        s.roles.contains_key(name),
        0 <= i < s.roles[name].permissions.len(),
        forall|j: int|
            0 <= j < i ==> !((#[trigger] s.roles[name].permissions[j]).key
                == s.roles[name].permissions[i].key && s.roles[name].permissions[j].range_end
                == s.roles[name].permissions[i].range_end),
    ensures
        ({
            let p = s.roles[name].permissions[i];
            let revoke = AuthCall::RoleRevokePermission { name, key: p.key, end: p.range_end };
            let less = s.after(revoke).roles[name].permissions;
            &&& s.succeeds(revoke)
            &&& forall|t: PermissionType|
                !s.succeeds(
                    AuthCall::RoleGrantPermission {
                        name,
                        perm: PermView { perm_type: t, key: p.key, range_end: p.range_end },
                    },
                )
            &&& less.len() == s.roles[name].permissions.len() - 1
            &&& forall|j: int|
                0 <= j < i ==> #[trigger] less[j] == s.roles[name].permissions[j]
            &&& forall|j: int|
                i <= j < less.len() ==> #[trigger] less[j] == s.roles[name].permissions[j + 1]
        }),
{
    let perms = s.roles[name].permissions;
    let p = perms[i];
    assert forall|j: int| 0 <= j < i implies !same_range(
        #[trigger] perms[j],
        p.key,
        p.range_end,
    ) by {}
    lemma_perm_place(perms, p.key, p.range_end, i);
}

/// A user who is granted a role with a permission may do what the permission allows, and
/// may not once the permission is revoked, where they have no other role and the role no
/// other permission.
pub proof fn law_permission_is_granted_and_revoked(
    s: AuthView,
    user: Seq<char>,
    role: Seq<char>,
    p: PermView,
    key: Seq<u8>,
)
    requires
        is_checked(s, user),
        s.users[user].roles.len() == 0,
        s.roles.contains_key(role),
        s.roles[role].permissions.len() == 0,
        covers(p, key),
    ensures
        ({
            let a = s.after(AuthCall::UserGrantRole { user, role });
            let b = a.after(AuthCall::RoleGrantPermission { name: role, perm: p });
            let c = b.after(
                AuthCall::RoleRevokePermission { name: role, key: p.key, end: p.range_end },
            );
            &&& a.perm_error(user, key, Seq::empty(), p.perm_type) == Some(
                AuthError::PermissionDenied,
            )
            &&& b.perm_error(user, key, Seq::empty(), p.perm_type) is None
            &&& p.perm_type == PermissionType::ReadWrite ==> {
                &&& b.perm_error(user, key, Seq::empty(), PermissionType::Read) is None
                &&& b.perm_error(user, key, Seq::empty(), PermissionType::Write) is None
            }
            &&& c.perm_error(user, key, Seq::empty(), p.perm_type) == Some(
                AuthError::PermissionDenied,
            )
        }),
{
    let a = s.after(AuthCall::UserGrantRole { user, role });
    let b = a.after(AuthCall::RoleGrantPermission { name: role, perm: p });
    let c = b.after(AuthCall::RoleRevokePermission { name: role, key: p.key, end: p.range_end });
    law_granted_permission(a, role, p);
    lemma_covers(p, key);
    assert(a.users[user].roles =~= seq![role]);
    assert(a.users[user].roles[0] == role);
    assert(b.roles[role].permissions[0] == p);
    assert(b.roles[role].permissions.contains(p));
    assert(b.users[user].roles.contains(role));
    law_granted_permission_allows(b, user, role, p, key, Seq::empty(), p.perm_type);
    if p.perm_type == PermissionType::ReadWrite {
        law_granted_permission_allows(
            b,
            user,
            role,
            p,
            key,
            Seq::empty(),
            PermissionType::Read,
        );
        law_granted_permission_allows(
            b,
            user,
            role,
            p,
            key,
            Seq::empty(),
            PermissionType::Write,
        );
    }
    assert(c.roles == a.roles);
    assert(c.users == a.users);
}

// ----------------------------------------------------------------- tokens

/// Who may log in: a user with their password, or any password where they need none,
/// while passwords are asked for.
pub proof fn law_who_may_log_in(
    s: AuthView,
    name: Seq<char>,
    password: Seq<char>,
    made: u128,
    from: int,
    cleaned: int,
)
    ensures
        ({
            let call = AuthCall::Login { name, password, made, from, cleaned };
            &&& s.succeeds(call) == (s.enabled && s.users.contains_key(name) && (
            s.users[name].no_password || s.users[name].password_hash == password_digest(password)))
            &&& s.succeeds(call) ==> s.after(call) == s.logged_in(name, made, from, cleaned)
        }),
{
}

/// A token is valid for three hundred seconds.
pub proof fn law_token_time(
    s: AuthView,
    name: Seq<char>,
    made: u128,
    from: int,
    cleaned: int,
    now: int,
)
    requires
        cleaned < from + 300_000_000_000,
    ensures
        s.logged_in(name, made, from, cleaned).token_ok(token_at(made), now) == (now < from
            + 300_000_000_000),
{
    assert(300 * 1_000_000_000 == 300_000_000_000int);
}

/// The first login, and every sixtieth from then on, drops the tokens that have expired,
/// and no other login drops a token.
pub proof fn law_expired_tokens_are_dropped(
    s: AuthView,
    name: Seq<char>,
    made: u128,
    from: int,
    cleaned: int,
    other: Seq<char>,
)
    requires
        0 <= s.write_count < i64::MAX,
        other != token_at(made),
    ensures
        ({
            let t = s.logged_in(name, made, from, cleaned);
            &&& t.write_count == s.write_count + 1
            &&& s.write_count % 60 == 0 ==> t.tokens.contains_key(other) == (
            s.tokens.contains_key(other) && s.tokens[other].expiry > cleaned)
            &&& s.write_count % 60 != 0 ==> t.tokens.contains_key(other) == s.tokens.contains_key(
                other,
            )
            &&& t.tokens.contains_key(other) ==> t.tokens[other] == s.tokens[other]
        }),
{
}

/// A refresh in time gives a token another three hundred seconds, and keeps its user. One
/// that comes too late is refused, and the token is gone. The other tokens stay.
pub proof fn law_refresh(
    s: AuthView,
    t: AuthView,
    token: Seq<char>,
    now: int,
    r: Result<String, AuthError>,
    other: Seq<char>,
    later: int,
)
    requires
        refreshed(s, t, token, now, r),
    ensures
        ({
            let in_time = s.tokens.contains_key(token) && now < s.tokens[token].expiry;
            &&& r is Ok == in_time
            &&& in_time ==> {
                &&& r->Ok_0@ == s.tokens[token].username
                &&& t.token_ok(token, later) == (later < now + 300_000_000_000)
                &&& t.tokens[token].username == s.tokens[token].username
            }
            &&& !in_time ==> {
                &&& r == Err::<String, AuthError>(AuthError::InvalidAuthToken)
                &&& !t.tokens.contains_key(token)
            }
            &&& other != token ==> t.token_ok(other, later) == s.token_ok(other, later)
            &&& t.users == s.users
            &&& t.roles == s.roles
        }),
{
    assert(300 * 1_000_000_000 == 300_000_000_000int);
}

/// A token says who its user is while it is valid and passwords are asked for.
pub proof fn law_valid_token(
    s: AuthView,
    token: Seq<char>,
    now: int,
    r: Result<String, AuthError>,
)
    requires
        validated(s, token, now, r),
    ensures
        r is Ok == (s.enabled && s.tokens.contains_key(token) && now < s.tokens[token].expiry),
        r matches Ok(name) ==> name@ == s.tokens[token].username,
        !s.enabled ==> r == Err::<String, AuthError>(AuthError::AuthNotEnabled),
        s.enabled && r is Err ==> r == Err::<String, AuthError>(AuthError::InvalidAuthToken),
{
}

/// A list of the valid tokens holds each token that has not expired, once, and no other.
pub proof fn law_listed_tokens(s: AuthView, now: int, list: Seq<Seq<char>>, token: Seq<char>)
    requires
        lists_keys(list, s.fresh_tokens(now)),
    ensures
        list.contains(token) == (s.tokens.contains_key(token) && now < s.tokens[token].expiry),
        list.no_duplicates(),
{
    assert(s.fresh_tokens(now).contains_key(token) == (s.tokens.contains_key(token) && now
        < s.tokens[token].expiry));
}

/// Every error is told in words of its own.
pub proof fn law_errors_differ(a: AuthError, b: AuthError)
    ensures
        a.spec_text() == b.spec_text() ==> a == b,
{
    reveal_strlit("root user does not exist");
    assert("root user does not exist"@.len() == 24);
    reveal_strlit("root role does not exist");
    assert("root role does not exist"@.len() == 24);
    reveal_strlit("user already exists");
    assert("user already exists"@.len() == 19);
    reveal_strlit("user name is empty");
    assert("user name is empty"@.len() == 18);
    reveal_strlit("user not found");
    assert("user not found"@.len() == 14);
    reveal_strlit("role already exists");
    assert("role already exists"@.len() == 19);
    reveal_strlit("role not found");
    assert("role not found"@.len() == 14);
    reveal_strlit("role name is empty");
    assert("role name is empty"@.len() == 18);
    reveal_strlit("authentication failed");
    assert("authentication failed"@.len() == 21);
    reveal_strlit("permission not given");
    assert("permission not given"@.len() == 20);
    reveal_strlit("permission denied");
    assert("permission denied"@.len() == 17);
    reveal_strlit("role not granted");
    assert("role not granted"@.len() == 16);
    reveal_strlit("permission not granted");
    assert("permission not granted"@.len() == 22);
    reveal_strlit("authentication is not enabled");
    assert("authentication is not enabled"@.len() == 29);
    reveal_strlit("invalid authentication token");
    assert("invalid authentication token"@.len() == 28);
    reveal_strlit("invalid authentication management operation");
    assert("invalid authentication management operation"@.len() == 43);
    reveal_strlit("authentication old revision");
    assert("authentication old revision"@.len() == 27);
    assert("root user does not exist"@[5] == 'u');
    assert("root role does not exist"@[5] == 'r');
    assert("user already exists"@[0] == 'u');
    assert("role already exists"@[0] == 'r');
    assert("user name is empty"@[0] == 'u');
    assert("role name is empty"@[0] == 'r');
    assert("user not found"@[0] == 'u');
    assert("role not found"@[0] == 'r');
}

/// What the store keeps of a refresh: the token with another three hundred seconds where
/// it came in time, and no token where it came too late. Nothing else changes.
pub proof fn law_refresh_call(s: AuthView, token: Seq<char>, now: int, other: Seq<char>)
    ensures
        ({
            let t = s.after(AuthCall::Refresh { token, now });
            let in_time = s.tokens.contains_key(token) && now < s.tokens[token].expiry;
            &&& t.tokens.contains_key(token) == in_time
            &&& in_time ==> t.tokens[token].expiry == now + 300_000_000_000
            &&& in_time ==> t.tokens[token].username == s.tokens[token].username
            &&& other != token ==> t.tokens.contains_key(other) == s.tokens.contains_key(other)
                && t.tokens[other] == s.tokens[other]
            &&& t.users == s.users
            &&& t.roles == s.roles
            &&& t.enabled == s.enabled
            &&& t.revision == s.revision
        }),
{
    assert(300 * 1_000_000_000 == 300_000_000_000int);
}

} // verus!
