//! Role-based access control: permissions, roles, users, and per-context
//! grants.
use crate::assoc::{assoc_map, keys_unique, lemma_assoc_absent, lemma_assoc_index, lemma_assoc_push, lemma_assoc_update, lemma_assoc_remove, lemma_assoc_map_values};
use crate::types::{ContextID, KcmError};
use vstd::prelude::*;
use vstd::string::*;

verus! {

pub const MAX_USER_ID_LENGTH: usize = 256;
pub const MAX_ROLE_NAME_LENGTH: usize = 256;
pub const MAX_ROLES_PER_USER: usize = 32;
pub const MAX_PERMISSIONS_PER_ROLE: usize = 64;
pub const MAX_ACL_ENTRIES: usize = 10_000;

/// Whether `char::is_alphanumeric` holds of a non-ASCII character.
pub uninterp spec fn spec_non_ascii_alphanumeric(c: char) -> bool;

/// An ASCII letter or digit.
pub open spec fn ascii_alphanumeric(c: char) -> bool {
    ('a' <= c && c <= 'z') || ('A' <= c && c <= 'Z') || ('0' <= c && c <= '9')
}

/// Whether `char::is_alphanumeric` holds of `c`: on ASCII exactly the
/// letters and digits.
pub open spec fn spec_is_alphanumeric(c: char) -> bool {
    if (c as u32) < 128 {
        ascii_alphanumeric(c)
    } else {
        spec_non_ascii_alphanumeric(c)
    }
}

/// Calls `char::is_alphanumeric`: on ASCII it holds exactly of letters and
/// digits; on other characters its outcome is named
/// `spec_non_ascii_alphanumeric`.
#[verifier::external_body]
fn char_is_alphanumeric(c: char) -> (r: bool)
    ensures
        r == (if (c as u32) < 128 {
            ascii_alphanumeric(c)
        } else {
            spec_non_ascii_alphanumeric(c)
        }),
{
    c.is_alphanumeric()
}

/// A permission; each has a level, and higher levels subsume lower ones.
#[derive(Clone, Copy, Debug, PartialEq, Eq, Structural)]
pub enum Permission {
    Read,
    Write,
    Delete,
    Execute,
    Admin,
}

pub open spec fn perm_level(p: Permission) -> u8 {
    match p {
        Permission::Read => 0,
        Permission::Write => 1,
        Permission::Delete => 2,
        Permission::Execute => 3,
        Permission::Admin => 4,
    }
}

pub open spec fn perm_name(p: Permission) -> Seq<char> {
    match p {
        Permission::Read => seq!['r', 'e', 'a', 'd'],
        Permission::Write => seq!['w', 'r', 'i', 't', 'e'],
        Permission::Delete => seq!['d', 'e', 'l', 'e', 't', 'e'],
        Permission::Execute => seq!['e', 'x', 'e', 'c', 'u', 't', 'e'],
        Permission::Admin => seq!['a', 'd', 'm', 'i', 'n'],
    }
}

/// ASCII lower-casing of one character.
pub open spec fn ascii_lower(c: char) -> char {
    if 'A' <= c && c <= 'Z' { ((c as u32) + 32) as char } else { c }
}

/// Whether `s` equals `word` (lower-case ASCII) ignoring ASCII case.
pub open spec fn eq_ignore_case(s: Seq<char>, word: Seq<char>) -> bool {
    s.len() == word.len() && forall|i: int| 0 <= i < s.len() ==> ascii_lower(#[trigger] s[i]) == word[i]
}

/// The permission a name denotes, if any.
pub open spec fn spec_perm_from_name(s: Seq<char>) -> Option<Permission> {
    if eq_ignore_case(s, perm_name(Permission::Read)) {
        Some(Permission::Read)
    } else if eq_ignore_case(s, perm_name(Permission::Write)) {
        Some(Permission::Write)
    } else if eq_ignore_case(s, perm_name(Permission::Delete)) {
        Some(Permission::Delete)
    } else if eq_ignore_case(s, perm_name(Permission::Execute)) {
        Some(Permission::Execute)
    } else if eq_ignore_case(s, perm_name(Permission::Admin)) {
        Some(Permission::Admin)
    } else {
        None
    }
}

fn char_lower(c: char) -> (r: char)
    ensures
        r == ascii_lower(c),
{
    if 'A' <= c && c <= 'Z' {
        let u = (c as u32) + 32;
        proof {
            assert(0x61 <= u <= 0x7a);
        }
        char_from_u32(u)
    } else {
        c
    }
}

#[verifier::external_body]
fn char_from_u32(u: u32) -> (r: char)
    requires
        u < 0xD800,
    ensures
        r == u as char,
{
    char::from_u32(u).unwrap()
}

fn matches_ignore_case(s: &str, word: &str) -> (r: bool)
    ensures
        r == eq_ignore_case(s@, word@),
{
    let n = s.unicode_len();
    if n != word.unicode_len() {
        return false;
    }
    let mut i: usize = 0;
    while i < n
        invariant
            n == s@.len(),
            n == word@.len(),
            i <= n,
            forall|k: int| 0 <= k < i ==> ascii_lower(#[trigger] s@[k]) == word@[k],
        decreases n - i,
    {
        if char_lower(s.get_char(i)) != word.get_char(i) {
            return false;
        }
        i = i + 1;
    }
    true
}

impl Permission {
    pub fn name(&self) -> (r: &'static str)
        ensures
            r@ == perm_name(*self),
    {
        proof {
            reveal_strlit("read");
            reveal_strlit("write");
            reveal_strlit("delete");
            reveal_strlit("execute");
            reveal_strlit("admin");
        }
        match self {
            Permission::Read => "read",
            Permission::Write => "write",
            Permission::Delete => "delete",
            Permission::Execute => "execute",
            Permission::Admin => "admin",
        }
    }

    pub fn level(&self) -> (r: u8)
        ensures
            r == perm_level(*self),
    {
        match self {
            Permission::Read => 0,
            Permission::Write => 1,
            Permission::Delete => 2,
            Permission::Execute => 3,
            Permission::Admin => 4,
        }
    }

    /// The permission named `name`, ignoring ASCII case.
    pub fn from_name(name: &str) -> (r: Result<Permission, KcmError>)
        ensures
            r matches Ok(p) ==> spec_perm_from_name(name@) == Some(p),
            r is Err <==> spec_perm_from_name(name@) is None,
            r matches Err(e) ==> e is InvalidArgument,
    {
        if matches_ignore_case(name, Permission::Read.name()) {
            Ok(Permission::Read)
        } else if matches_ignore_case(name, Permission::Write.name()) {
            Ok(Permission::Write)
        } else if matches_ignore_case(name, Permission::Delete.name()) {
            Ok(Permission::Delete)
        } else if matches_ignore_case(name, Permission::Execute.name()) {
            Ok(Permission::Execute)
        } else if matches_ignore_case(name, Permission::Admin.name()) {
            Ok(Permission::Admin)
        } else {
            let mut msg = String::from_str("Unknown permission: ");
            msg.append(name);
            Err(KcmError::InvalidArgument(msg))
        }
    }
}


/// A user id is valid when non-empty and at most 256 bytes long.
pub open spec fn valid_user_id(id: &str) -> bool {
    id@.len() > 0 && id.len() <= MAX_USER_ID_LENGTH
}

/// A role name is valid when non-empty, at most 256 bytes long, and made
/// of alphanumeric characters, underscores and hyphens.
pub open spec fn valid_role_name(name: &str) -> bool {
    &&& name@.len() > 0
    &&& name.len() <= MAX_ROLE_NAME_LENGTH
    &&& forall|i: int| 0 <= i < name@.len() ==> (spec_is_alphanumeric(#[trigger] name@[i]) || name@[i] == '_' || name@[i] == '-')
}

fn validate_user_id(user_id: &str) -> (r: Result<(), KcmError>)
    ensures
        r is Ok <==> valid_user_id(user_id),
        r matches Err(e) ==> e is InvalidArgument,
{
    if user_id.is_empty() {
        return Err(KcmError::InvalidArgument(String::from_str("User ID cannot be empty")));
    }
    if user_id.len() > MAX_USER_ID_LENGTH {
        return Err(KcmError::InvalidArgument(String::from_str("User ID cannot exceed 256 characters")));
    }
    Ok(())
}

fn validate_role_name(name: &str) -> (r: Result<(), KcmError>)
    ensures
        r is Ok <==> valid_role_name(name),
        r matches Err(e) ==> e is InvalidArgument,
{
    if name.is_empty() {
        return Err(KcmError::InvalidArgument(String::from_str("Role name cannot be empty")));
    }
    if name.len() > MAX_ROLE_NAME_LENGTH {
        return Err(KcmError::InvalidArgument(String::from_str("Role name cannot exceed 256 characters")));
    }
    let n = name.unicode_len();
    let mut i: usize = 0;
    while i < n
        invariant
            n == name@.len(),
            i <= n,
            forall|k: int| 0 <= k < i ==> (spec_is_alphanumeric(#[trigger] name@[k]) || name@[k] == '_' || name@[k] == '-'),
        decreases n - i,
    {
        let c = name.get_char(i);
        if !(char_is_alphanumeric(c) || c == '_' || c == '-') {
            return Err(KcmError::InvalidArgument(String::from_str(
                "Role name can only contain alphanumeric characters, underscores, and hyphens",
            )));
        }
        i = i + 1;
    }
    Ok(())
}

/// Compares two strings character by character.
pub fn str_eq(a: &str, b: &str) -> (r: bool)
    ensures
        r == (a@ == b@),
{
    let n = a.unicode_len();
    if n != b.unicode_len() {
        return false;
    }
    let mut i: usize = 0;
    while i < n
        invariant
            n == a@.len(),
            n == b@.len(),
            i <= n,
            forall|k: int| 0 <= k < i ==> a@[k] == b@[k],
        decreases n - i,
    {
        if a.get_char(i) != b.get_char(i) {
            return false;
        }
        i = i + 1;
    }
    assert(a@ =~= b@);
    true
}

/// The character sequences of a vector of strings.
pub open spec fn views(v: Seq<String>) -> Seq<Seq<char>> {
    v.map_values(|s: String| s@)
}

/// Whether some permission of `ps` is at least as high as `p`.
pub open spec fn level_at_least(ps: Set<Permission>, p: Permission) -> bool {
    exists|q: Permission| #[trigger] ps.contains(q) && perm_level(q) >= perm_level(p)
}

/// Removing the one occurrence of an element from a sequence without
/// duplicates removes it from its set.
pub proof fn lemma_remove_to_set<A>(s: Seq<A>, i: int)
    requires
        s.no_duplicates(),
        0 <= i < s.len(),
    ensures
        s.remove(i).no_duplicates(),
        s.remove(i).to_set() == s.to_set().remove(s[i]),
{
    let r = s.remove(i);
    assert forall|a: int, b: int| 0 <= a < r.len() && 0 <= b < r.len() && a != b implies r[a] != r[b] by {
        let a2 = if a < i { a } else { a + 1 };
        let b2 = if b < i { b } else { b + 1 };
        assert(r[a] == s[a2] && r[b] == s[b2]);
    }
    assert forall|x: A| #[trigger] r.to_set().contains(x) <==> s.to_set().remove(s[i]).contains(x) by {
        if r.contains(x) {
            let a = choose|a: int| 0 <= a < r.len() && r[a] == x;
            let a2 = if a < i { a } else { a + 1 };
            assert(s[a2] == x);
        }
        if s.contains(x) && x != s[i] {
            let a = choose|a: int| 0 <= a < s.len() && s[a] == x;
            if a < i {
                assert(r[a] == x);
            } else {
                assert(r[a - 1] == x);
            }
        }
    }
    assert(r.to_set() =~= s.to_set().remove(s[i]));
}

/// Appending an element absent from a sequence without duplicates keeps it
/// without duplicates.
pub proof fn lemma_push_no_dup<A>(s: Seq<A>, x: A)
    requires
        s.no_duplicates(),
        !s.contains(x),
    ensures
        s.push(x).no_duplicates(),
        s.push(x).to_set() == s.to_set().insert(x),
{
    let t = s.push(x);
    assert forall|a: int, b: int| 0 <= a < t.len() && 0 <= b < t.len() && a != b implies t[a] != t[b] by {
        if a < s.len() && b < s.len() {
            assert(t[a] == s[a] && t[b] == s[b]);
        } else if a < s.len() {
            assert(t[a] == s[a]);
        } else {
            assert(t[b] == s[b]);
        }
    }
    s.lemma_push_to_set_commute(x);
}

fn contains_perm(perms: &Vec<Permission>, p: Permission) -> (r: bool)
    ensures
        r == perms@.contains(p),
{
    let mut i: usize = 0;
    while i < perms.len()
        invariant
            i <= perms@.len(),
            forall|k: int| 0 <= k < i ==> perms@[k] != p,
        decreases perms@.len() - i,
    {
        if perms[i] == p {
            assert(perms@[i as int] == p);
            return true;
        }
        i = i + 1;
    }
    false
}

/// The index of `p` in `perms`, if present.
fn index_of_perm(perms: &Vec<Permission>, p: Permission) -> (r: Option<usize>)
    ensures
        r matches Some(i) ==> i < perms@.len() && perms@[i as int] == p,
        r is None ==> !perms@.contains(p),
{
    let mut i: usize = 0;
    while i < perms.len()
        invariant
            i <= perms@.len(),
            forall|k: int| 0 <= k < i ==> perms@[k] != p,
        decreases perms@.len() - i,
    {
        if perms[i] == p {
            return Some(i);
        }
        i = i + 1;
    }
    None
}

/// The index of the string equal to `s` in `v`, if present.
fn index_of_str(v: &Vec<String>, s: &str) -> (r: Option<usize>)
    ensures
        r matches Some(i) ==> i < v@.len() && v@[i as int]@ == s@,
        r is None ==> !views(v@).contains(s@),
{
    let mut i: usize = 0;
    while i < v.len()
        invariant
            i <= v@.len(),
            forall|k: int| 0 <= k < i ==> v@[k]@ != s@,
        decreases v@.len() - i,
    {
        if str_eq(v[i].as_str(), s) {
            return Some(i);
        }
        i = i + 1;
    }
    proof {
        if views(v@).contains(s@) {
            let k = choose|k: int| 0 <= k < views(v@).len() && views(v@)[k] == s@;
            assert(v@[k]@ == s@);
        }
    }
    None
}

/// Whether some string of `v` equals `s`.
pub fn contains_string(v: &Vec<String>, s: &str) -> (r: bool)
    ensures
        r == views(v@).contains(s@),
{
    let found = index_of_str(v, s);
    proof {
        if let Some(i) = found {
            assert(views(v@)[i as int] == s@);
        }
    }
    found.is_some()
}

/// A named set of permissions.
#[derive(Clone, Debug)]
pub struct Role {
    pub name: String,
    pub permissions: Vec<Permission>,
}

/// A user and the names of its roles.
#[derive(Clone, Debug)]
pub struct User {
    pub user_id: String,
    pub roles: Vec<String>,
}

/// The permissions of a role, as a set.
pub open spec fn perm_set(r: Role) -> Set<Permission> {
    r.permissions@.to_set()
}

/// The role names of a user, as a set.
pub open spec fn role_set(u: User) -> Set<Seq<char>> {
    views(u.roles@).to_set()
}

impl Role {
    /// A role with no permissions; the name must be valid.
    pub fn new(name: &str) -> (r: Result<Role, KcmError>)
        ensures
            r is Ok <==> valid_role_name(name),
            r matches Ok(role) ==> role.name@ == name@ && role.permissions@ == Seq::<Permission>::empty(),
            r matches Err(e) ==> e is InvalidArgument,
    {
        validate_role_name(name)?;
        Ok(Role { name: String::from_str(name), permissions: Vec::new() })
    }

    /// The role with `perm` added (a role holds at most 64 permissions).
    pub fn with_permission(self, perm: Permission) -> (r: Result<Role, KcmError>)
        ensures
            self.permissions@.len() >= MAX_PERMISSIONS_PER_ROLE <==> r is Err,
            r matches Ok(role) ==> role.name == self.name
                && perm_set(role) == perm_set(self).insert(perm)
                && (self.permissions@.no_duplicates() ==> role.permissions@.no_duplicates()),
            r matches Err(e) ==> e is InvalidArgument,
    {
        let mut s = self;
        if s.permissions.len() >= MAX_PERMISSIONS_PER_ROLE {
            return Err(KcmError::InvalidArgument(String::from_str("Role cannot have more than 64 permissions")));
        }
        if !contains_perm(&s.permissions, perm) {
            proof {
                s.permissions@.lemma_push_to_set_commute(perm);
                if s.permissions@.no_duplicates() {
                    lemma_push_no_dup(s.permissions@, perm);
                }
            }
            s.permissions.push(perm);
        } else {
            assert(perm_set(s).insert(perm) =~= perm_set(s));
        }
        Ok(s)
    }

    pub fn has_permission(&self, perm: Permission) -> (r: bool)
        ensures
            r == perm_set(*self).contains(perm),
    {
        contains_perm(&self.permissions, perm)
    }

    /// Whether the role holds a permission at least as high as `perm`.
    pub fn has_permission_level(&self, perm: Permission) -> (r: bool)
        ensures
            r == level_at_least(perm_set(*self), perm),
    {
        let required = perm.level();
        let mut i: usize = 0;
        while i < self.permissions.len()
            invariant
                i <= self.permissions@.len(),
                required == perm_level(perm),
                forall|k: int| 0 <= k < i ==> perm_level(#[trigger] self.permissions@[k]) < required,
            decreases self.permissions@.len() - i,
        {
            if self.permissions[i].level() >= required {
                assert(perm_set(*self).contains(self.permissions@[i as int]));
                return true;
            }
            i = i + 1;
        }
        proof {
            if level_at_least(perm_set(*self), perm) {
                let q = choose|q: Permission| #[trigger] perm_set(*self).contains(q) && perm_level(q) >= perm_level(perm);
                let k = choose|k: int| 0 <= k < self.permissions@.len() && self.permissions@[k] == q;
                assert(perm_level(self.permissions@[k]) < required);
            }
        }
        false
    }
}

impl User {
    /// A user with no roles; the id must be valid.
    pub fn new(user_id: &str) -> (r: Result<User, KcmError>)
        ensures
            r is Ok <==> valid_user_id(user_id),
            r matches Ok(u) ==> u.user_id@ == user_id@ && u.roles@ == Seq::<String>::empty(),
            r matches Err(e) ==> e is InvalidArgument,
    {
        validate_user_id(user_id)?;
        Ok(User { user_id: String::from_str(user_id), roles: Vec::new() })
    }

    /// Adds a role name (a user holds at most 32 roles).
    pub fn add_role(&mut self, role_name: &str) -> (r: Result<(), KcmError>)
        ensures
            old(self).roles@.len() >= MAX_ROLES_PER_USER <==> r is Err,
            r matches Err(e) ==> e is InvalidArgument,
            final(self).user_id == old(self).user_id,
            r is Ok ==> role_set(*final(self)) == role_set(*old(self)).insert(role_name@),
            r is Ok ==> (views(old(self).roles@).no_duplicates() ==> views(final(self).roles@).no_duplicates()),
            r is Err ==> final(self).roles@ == old(self).roles@,
    {
        if self.roles.len() >= MAX_ROLES_PER_USER {
            return Err(KcmError::InvalidArgument(String::from_str("User cannot have more than 32 roles")));
        }
        let found = index_of_str(&self.roles, role_name);
        if found.is_none() {
            let ghost before = views(self.roles@);
            self.roles.push(String::from_str(role_name));
            proof {
                assert(views(self.roles@) =~= before.push(role_name@));
                before.lemma_push_to_set_commute(role_name@);
                if before.no_duplicates() {
                    lemma_push_no_dup(before, role_name@);
                }
            }
        } else {
            proof {
                let i = found.unwrap() as int;
                assert(views(self.roles@)[i] == role_name@);
                assert(role_set(*self).insert(role_name@) =~= role_set(*self));
            }
        }
        Ok(())
    }

    /// Removes a role name; says whether it was there.
    pub fn remove_role(&mut self, role_name: &str) -> (r: bool)
        requires
            views(old(self).roles@).no_duplicates(),
        ensures
            r == role_set(*old(self)).contains(role_name@),
            final(self).user_id == old(self).user_id,
            role_set(*final(self)) == role_set(*old(self)).remove(role_name@),
            views(final(self).roles@).no_duplicates(),
    {
        match index_of_str(&self.roles, role_name) {
            Some(i) => {
                let ghost before = views(self.roles@);
                self.roles.remove(i);
                proof {
                    assert(views(self.roles@) =~= before.remove(i as int));
                    lemma_remove_to_set(before, i as int);
                    assert(before[i as int] == role_name@);
                }
                true
            },
            None => {
                assert(role_set(*self).remove(role_name@) =~= role_set(*self));
                false
            },
        }
    }

    pub fn has_role(&self, role_name: &str) -> (r: bool)
        ensures
            r == role_set(*self).contains(role_name@),
    {
        let found = index_of_str(&self.roles, role_name);
        proof {
            if let Some(i) = found {
                assert(views(self.roles@)[i as int] == role_name@);
            }
        }
        found.is_some()
    }
}

/// The grants of one context: (user id, permission) pairs.
#[derive(Clone, Debug)]
struct ContextAcl {
    context: ContextID,
    grants: Vec<(String, Permission)>,
}

/// Grants with their user ids as character sequences.
pub open spec fn grant_views(g: Seq<(String, Permission)>) -> Seq<(Seq<char>, Permission)> {
    g.map_values(|x: (String, Permission)| (x.0@, x.1))
}

/// The grants of `ctx`, empty when the context has no entry.
pub open spec fn grants_in(acl: Map<u8, Set<(Seq<char>, Permission)>>, ctx: u8) -> Set<(Seq<char>, Permission)> {
    if acl.contains_key(ctx) {
        acl[ctx]
    } else {
        Set::empty()
    }
}

/// Whether one of the roles of user `uid` holds exactly `perm`.
pub open spec fn role_has(
    users: Map<Seq<char>, Set<Seq<char>>>,
    roles: Map<Seq<char>, Set<Permission>>,
    uid: Seq<char>,
    perm: Permission,
) -> bool {
    users.contains_key(uid) && exists|r: Seq<char>| #[trigger] users[uid].contains(r) && role_grants(roles, r, perm)
}

/// Whether role `r` exists and holds exactly `perm`.
pub open spec fn role_grants(roles: Map<Seq<char>, Set<Permission>>, r: Seq<char>, perm: Permission) -> bool {
    roles.contains_key(r) && roles[r].contains(perm)
}

/// Whether role `r` exists and holds a permission at least as high as `perm`.
pub open spec fn role_grants_level(roles: Map<Seq<char>, Set<Permission>>, r: Seq<char>, perm: Permission) -> bool {
    roles.contains_key(r) && level_at_least(roles[r], perm)
}

/// Whether one of the roles of user `uid` holds a permission at least as
/// high as `perm`.
pub open spec fn role_has_level(
    users: Map<Seq<char>, Set<Seq<char>>>,
    roles: Map<Seq<char>, Set<Permission>>,
    uid: Seq<char>,
    perm: Permission,
) -> bool {
    users.contains_key(uid) && exists|r: Seq<char>| #[trigger] users[uid].contains(r) && role_grants_level(roles, r, perm)
}

/// The answer of `check_permission`: a direct grant of `perm` in the
/// context, or a role of the user holding `perm`.
pub open spec fn permits(
    acl: Map<u8, Set<(Seq<char>, Permission)>>,
    users: Map<Seq<char>, Set<Seq<char>>>,
    roles: Map<Seq<char>, Set<Permission>>,
    uid: Seq<char>,
    ctx: u8,
    perm: Permission,
) -> bool {
    grants_in(acl, ctx).contains((uid, perm)) || role_has(users, roles, uid, perm)
}

/// The answer of `check_permission_level`: a direct grant in the context,
/// or a permission of one of the user's roles, at least as high as `perm`.
pub open spec fn permits_level(
    acl: Map<u8, Set<(Seq<char>, Permission)>>,
    users: Map<Seq<char>, Set<Seq<char>>>,
    roles: Map<Seq<char>, Set<Permission>>,
    uid: Seq<char>,
    ctx: u8,
    perm: Permission,
) -> bool {
    (exists|p: Permission| #[trigger] grants_in(acl, ctx).contains((uid, p)) && perm_level(p) >= perm_level(perm))
        || role_has_level(users, roles, uid, perm)
}

/// The access-control state: users, roles, and per-context grants.
pub struct ACLManager {
    users: Vec<User>,
    roles: Vec<Role>,
    context_acl: Vec<ContextAcl>,
}

impl ACLManager {
    pub closed spec fn user_pairs(&self) -> Seq<(Seq<char>, Set<Seq<char>>)> {
        self.users@.map_values(|u: User| (u.user_id@, role_set(u)))
    }

    pub closed spec fn role_pairs(&self) -> Seq<(Seq<char>, Set<Permission>)> {
        self.roles@.map_values(|r: Role| (r.name@, perm_set(r)))
    }

    pub closed spec fn acl_pairs(&self) -> Seq<(u8, Set<(Seq<char>, Permission)>)> {
        self.context_acl@.map_values(|e: ContextAcl| (e.context.0, grant_views(e.grants@).to_set()))
    }

    /// Each user id with the set of its role names.
    pub open spec fn users_view(&self) -> Map<Seq<char>, Set<Seq<char>>> {
        assoc_map(self.user_pairs())
    }

    /// Each role name with the set of its permissions.
    pub open spec fn roles_view(&self) -> Map<Seq<char>, Set<Permission>> {
        assoc_map(self.role_pairs())
    }

    /// Each context with the set of its (user id, permission) grants.
    pub open spec fn acl_view(&self) -> Map<u8, Set<(Seq<char>, Permission)>> {
        assoc_map(self.acl_pairs())
    }

    /// Keys are unique and no set holds an element twice.
    pub closed spec fn wf(&self) -> bool {
        &&& keys_unique(self.user_pairs())
        &&& keys_unique(self.role_pairs())
        &&& keys_unique(self.acl_pairs())
        &&& forall|i: int| 0 <= i < self.users@.len() ==> views((#[trigger] self.users@[i]).roles@).no_duplicates()
        &&& forall|i: int| 0 <= i < self.roles@.len() ==> (#[trigger] self.roles@[i]).permissions@.no_duplicates()
        &&& forall|i: int| 0 <= i < self.context_acl@.len() ==> grant_views((#[trigger] self.context_acl@[i]).grants@).no_duplicates()
    }

    pub fn new() -> (r: ACLManager)
        ensures
            r.wf(),
            r.users_view() == Map::<Seq<char>, Set<Seq<char>>>::empty(),
            r.roles_view() == Map::<Seq<char>, Set<Permission>>::empty(),
            r.acl_view() == Map::<u8, Set<(Seq<char>, Permission)>>::empty(),
    {
        let r = ACLManager { users: Vec::new(), roles: Vec::new(), context_acl: Vec::new() };
        assert(r.user_pairs() =~= Seq::empty());
        assert(r.role_pairs() =~= Seq::empty());
        assert(r.acl_pairs() =~= Seq::empty());
        r
    }

    fn find_user(&self, user_id: &str) -> (r: Option<usize>)
        requires
            self.wf(),
        ensures
            r matches Some(i) ==> i < self.users@.len() && self.users@[i as int].user_id@ == user_id@
                && self.users_view().contains_key(user_id@)
                && self.users_view()[user_id@] == role_set(self.users@[i as int]),
            r is None ==> !self.users_view().contains_key(user_id@)
                && forall|k: int| 0 <= k < self.users@.len() ==> (#[trigger] self.users@[k]).user_id@ != user_id@,
    {
        let mut i: usize = 0;
        while i < self.users.len()
            invariant
                self.wf(),
                i <= self.users@.len(),
                forall|k: int| 0 <= k < i ==> (#[trigger] self.users@[k]).user_id@ != user_id@,
            decreases self.users@.len() - i,
        {
            if str_eq(self.users[i].user_id.as_str(), user_id) {
                proof {
                    lemma_assoc_index(self.user_pairs(), i as int);
                }
                return Some(i);
            }
            i = i + 1;
        }
        proof {
            assert forall|k: int| 0 <= k < self.user_pairs().len() implies #[trigger] self.user_pairs()[k].0 != user_id@ by {
                assert(self.users@[k].user_id@ != user_id@);
            }
            lemma_assoc_absent(self.user_pairs(), user_id@);
        }
        None
    }

    fn find_role(&self, name: &str) -> (r: Option<usize>)
        requires
            self.wf(),
        ensures
            r matches Some(i) ==> i < self.roles@.len() && self.roles@[i as int].name@ == name@
                && self.roles_view().contains_key(name@)
                && self.roles_view()[name@] == perm_set(self.roles@[i as int]),
            r is None ==> !self.roles_view().contains_key(name@)
                && forall|k: int| 0 <= k < self.roles@.len() ==> (#[trigger] self.roles@[k]).name@ != name@,
    {
        let mut i: usize = 0;
        while i < self.roles.len()
            invariant
                self.wf(),
                i <= self.roles@.len(),
                forall|k: int| 0 <= k < i ==> (#[trigger] self.roles@[k]).name@ != name@,
            decreases self.roles@.len() - i,
        {
            if str_eq(self.roles[i].name.as_str(), name) {
                proof {
                    lemma_assoc_index(self.role_pairs(), i as int);
                }
                return Some(i);
            }
            i = i + 1;
        }
        proof {
            assert forall|k: int| 0 <= k < self.role_pairs().len() implies #[trigger] self.role_pairs()[k].0 != name@ by {
                assert(self.roles@[k].name@ != name@);
            }
            lemma_assoc_absent(self.role_pairs(), name@);
        }
        None
    }

    fn find_context(&self, context: ContextID) -> (r: Option<usize>)
        requires
            self.wf(),
        ensures
            r matches Some(i) ==> i < self.context_acl@.len() && self.context_acl@[i as int].context.0 == context.0
                && self.acl_view().contains_key(context.0)
                && self.acl_view()[context.0] == grant_views(self.context_acl@[i as int].grants@).to_set(),
            r is None ==> !self.acl_view().contains_key(context.0)
                && forall|k: int| 0 <= k < self.context_acl@.len() ==> (#[trigger] self.context_acl@[k]).context.0 != context.0,
    {
        let mut i: usize = 0;
        while i < self.context_acl.len()
            invariant
                self.wf(),
                i <= self.context_acl@.len(),
                forall|k: int| 0 <= k < i ==> (#[trigger] self.context_acl@[k]).context.0 != context.0,
            decreases self.context_acl@.len() - i,
        {
            if self.context_acl[i].context.0 == context.0 {
                proof {
                    lemma_assoc_index(self.acl_pairs(), i as int);
                }
                return Some(i);
            }
            i = i + 1;
        }
        proof {
            assert forall|k: int| 0 <= k < self.acl_pairs().len() implies #[trigger] self.acl_pairs()[k].0 != context.0 by {
                assert(self.context_acl@[k].context.0 != context.0);
            }
            lemma_assoc_absent(self.acl_pairs(), context.0);
        }
        None
    }

    /// Creates the user unless it exists; the id must be valid.
    pub fn create_user(&mut self, user_id: &str) -> (r: Result<(), KcmError>)
        requires
            old(self).wf(),
        ensures
            final(self).wf(),
            r is Ok <==> valid_user_id(user_id),
            r matches Err(e) ==> e is InvalidArgument,
            r is Ok ==> final(self).users_view() == (if old(self).users_view().contains_key(user_id@) {
                old(self).users_view()
            } else {
                old(self).users_view().insert(user_id@, Set::empty())
            }),
            r is Err ==> final(self).users_view() == old(self).users_view(),
            final(self).roles_view() == old(self).roles_view(),
            final(self).acl_view() == old(self).acl_view(),
    {
        validate_user_id(user_id)?;
        if self.find_user(user_id).is_none() {
            let ghost old_pairs = self.user_pairs();
            let u = User { user_id: String::from_str(user_id), roles: Vec::new() };
            proof {
                assert(role_set(u) =~= Set::empty());
                assert forall|k: int| 0 <= k < old_pairs.len() implies #[trigger] old_pairs[k].0 != user_id@ by {
                    assert(self.users@[k].user_id@ != user_id@);
                }
                lemma_assoc_push(old_pairs, user_id@, Set::empty());
                assert(views(u.roles@) =~= Seq::empty());
            }
            self.users.push(u);
            assert(self.user_pairs() =~= old_pairs.push((user_id@, Set::empty())));
        }
        Ok(())
    }

    /// Creates the role unless it exists; the name must be valid.
    pub fn create_role(&mut self, name: &str) -> (r: Result<(), KcmError>)
        requires
            old(self).wf(),
        ensures
            final(self).wf(),
            r is Ok <==> valid_role_name(name),
            r matches Err(e) ==> e is InvalidArgument,
            r is Ok ==> final(self).roles_view() == (if old(self).roles_view().contains_key(name@) {
                old(self).roles_view()
            } else {
                old(self).roles_view().insert(name@, Set::empty())
            }),
            r is Err ==> final(self).roles_view() == old(self).roles_view(),
            final(self).users_view() == old(self).users_view(),
            final(self).acl_view() == old(self).acl_view(),
    {
        validate_role_name(name)?;
        if self.find_role(name).is_none() {
            let ghost old_pairs = self.role_pairs();
            let role = Role { name: String::from_str(name), permissions: Vec::new() };
            proof {
                assert(perm_set(role) =~= Set::empty());
                assert forall|k: int| 0 <= k < old_pairs.len() implies #[trigger] old_pairs[k].0 != name@ by {
                    assert(self.roles@[k].name@ != name@);
                }
                lemma_assoc_push(old_pairs, name@, Set::empty());
            }
            self.roles.push(role);
            assert(self.role_pairs() =~= old_pairs.push((name@, Set::empty())));
        }
        Ok(())
    }

    /// Adds `perm` to the named role (a role holds at most 64 permissions).
    pub fn add_permission_to_role(&mut self, role_name: &str, perm: Permission) -> (r: Result<(), KcmError>)
        requires
            old(self).wf(),
        ensures
            final(self).wf(),
            !old(self).roles_view().contains_key(role_name@) ==> r matches Err(KcmError::NotFound(_)),
            old(self).roles_view().contains_key(role_name@) && old(self).roles_view()[role_name@].len() >= MAX_PERMISSIONS_PER_ROLE
                ==> r matches Err(KcmError::InvalidArgument(_)),
            old(self).roles_view().contains_key(role_name@) && old(self).roles_view()[role_name@].len() < MAX_PERMISSIONS_PER_ROLE
                ==> r is Ok,
            r is Ok ==> final(self).roles_view() == old(self).roles_view().insert(role_name@, old(self).roles_view()[role_name@].insert(perm)),
            r is Err ==> final(self).roles_view() == old(self).roles_view(),
            final(self).users_view() == old(self).users_view(),
            final(self).acl_view() == old(self).acl_view(),
    {
        let i = match self.find_role(role_name) {
            Some(i) => i,
            None => return Err(KcmError::NotFound(with_name("Role not found: ", role_name))),
        };
        proof {
            self.roles@[i as int].permissions@.unique_seq_to_set();
        }
        if self.roles[i].permissions.len() >= MAX_PERMISSIONS_PER_ROLE {
            return Err(KcmError::InvalidArgument(String::from_str("Role cannot have more than 64 permissions")));
        }
        let ghost old_pairs = self.role_pairs();
        let ghost old_roles = self.roles@;
        let mut role = Role { name: String::new(), permissions: Vec::new() };
        self.roles.set_and_swap(i, &mut role);
        if !contains_perm(&role.permissions, perm) {
            proof {
                lemma_push_no_dup(role.permissions@, perm);
            }
            role.permissions.push(perm);
        } else {
            assert(perm_set(role).insert(perm) =~= perm_set(role));
        }
        let ghost new_role = role;
        self.roles.set(i, role);
        proof {
            assert(self.roles@ == old_roles.update(i as int, new_role));
            lemma_assoc_update(old_pairs, i as int, perm_set(new_role));
            assert(self.role_pairs() =~= old_pairs.update(i as int, (old_pairs[i as int].0, perm_set(new_role))));
        }
        Ok(())
    }

    /// Removes `perm` from the named role.
    pub fn remove_permission_from_role(&mut self, role_name: &str, perm: Permission) -> (r: Result<(), KcmError>)
        requires
            old(self).wf(),
        ensures
            final(self).wf(),
            r is Ok <==> old(self).roles_view().contains_key(role_name@),
            r matches Err(e) ==> e is NotFound,
            r is Ok ==> final(self).roles_view() == old(self).roles_view().insert(role_name@, old(self).roles_view()[role_name@].remove(perm)),
            r is Err ==> final(self).roles_view() == old(self).roles_view(),
            final(self).users_view() == old(self).users_view(),
            final(self).acl_view() == old(self).acl_view(),
    {
        let i = match self.find_role(role_name) {
            Some(i) => i,
            None => return Err(KcmError::NotFound(with_name("Role not found: ", role_name))),
        };
        let ghost old_pairs = self.role_pairs();
        let ghost old_roles = self.roles@;
        let mut role = Role { name: String::new(), permissions: Vec::new() };
        self.roles.set_and_swap(i, &mut role);
        match index_of_perm(&role.permissions, perm) {
            Some(j) => {
                proof {
                    lemma_remove_to_set(role.permissions@, j as int);
                }
                role.permissions.remove(j);
            },
            None => {
                assert(perm_set(role).remove(perm) =~= perm_set(role));
            },
        }
        let ghost new_role = role;
        self.roles.set(i, role);
        proof {
            assert(self.roles@ == old_roles.update(i as int, new_role));
            lemma_assoc_update(old_pairs, i as int, perm_set(new_role));
            assert(self.role_pairs() =~= old_pairs.update(i as int, (old_pairs[i as int].0, perm_set(new_role))));
        }
        Ok(())
    }

    /// Gives the user the role; both must exist and the names be valid, and
    /// the user may hold at most 32 roles.
    pub fn assign_role(&mut self, user_id: &str, role_name: &str) -> (r: Result<(), KcmError>)
        requires
            old(self).wf(),
        ensures
            final(self).wf(),
            !valid_user_id(user_id) ==> r matches Err(KcmError::InvalidArgument(_)),
            valid_user_id(user_id) && !valid_role_name(role_name) ==> r matches Err(KcmError::InvalidArgument(_)),
            valid_user_id(user_id) && valid_role_name(role_name) && !old(self).roles_view().contains_key(role_name@)
                ==> r matches Err(KcmError::NotFound(_)),
            valid_user_id(user_id) && valid_role_name(role_name) && old(self).roles_view().contains_key(role_name@)
                && !old(self).users_view().contains_key(user_id@) ==> r matches Err(KcmError::NotFound(_)),
            valid_user_id(user_id) && valid_role_name(role_name) && old(self).roles_view().contains_key(role_name@)
                && old(self).users_view().contains_key(user_id@)
                ==> (r is Ok <==> old(self).users_view()[user_id@].len() < MAX_ROLES_PER_USER),
            r matches Err(e) ==> (e is NotFound || e is InvalidArgument),
            r is Ok ==> final(self).users_view() == old(self).users_view().insert(user_id@, old(self).users_view()[user_id@].insert(role_name@)),
            r is Err ==> final(self).users_view() == old(self).users_view(),
            final(self).roles_view() == old(self).roles_view(),
            final(self).acl_view() == old(self).acl_view(),
    {
        validate_user_id(user_id)?;
        validate_role_name(role_name)?;
        if self.find_role(role_name).is_none() {
            return Err(KcmError::NotFound(with_name("Role not found: ", role_name)));
        }
        let i = match self.find_user(user_id) {
            Some(i) => i,
            None => return Err(KcmError::NotFound(with_name("User not found: ", user_id))),
        };
        proof {
            views(self.users@[i as int].roles@).unique_seq_to_set();
        }
        if self.users[i].roles.len() >= MAX_ROLES_PER_USER {
            return Err(KcmError::InvalidArgument(String::from_str("User cannot have more than 32 roles")));
        }
        let ghost old_pairs = self.user_pairs();
        let ghost old_users = self.users@;
        let mut u = User { user_id: String::new(), roles: Vec::new() };
        self.users.set_and_swap(i, &mut u);
        let added = u.add_role(role_name);
        let ghost new_user = u;
        self.users.set(i, u);
        proof {
            assert(added is Ok);
            assert(self.users@ == old_users.update(i as int, new_user));
            lemma_assoc_update(old_pairs, i as int, role_set(new_user));
            assert(self.user_pairs() =~= old_pairs.update(i as int, (old_pairs[i as int].0, role_set(new_user))));
        }
        Ok(())
    }

    /// Takes the role away from the user, who must exist.
    pub fn remove_role(&mut self, user_id: &str, role_name: &str) -> (r: Result<(), KcmError>)
        requires
            old(self).wf(),
        ensures
            final(self).wf(),
            r is Ok <==> old(self).users_view().contains_key(user_id@),
            r matches Err(e) ==> e is NotFound,
            r is Ok ==> final(self).users_view() == old(self).users_view().insert(user_id@, old(self).users_view()[user_id@].remove(role_name@)),
            r is Err ==> final(self).users_view() == old(self).users_view(),
            final(self).roles_view() == old(self).roles_view(),
            final(self).acl_view() == old(self).acl_view(),
    {
        let i = match self.find_user(user_id) {
            Some(i) => i,
            None => return Err(KcmError::NotFound(with_name("User not found: ", user_id))),
        };
        let ghost old_pairs = self.user_pairs();
        let ghost old_users = self.users@;
        let mut u = User { user_id: String::new(), roles: Vec::new() };
        self.users.set_and_swap(i, &mut u);
        u.remove_role(role_name);
        let ghost new_user = u;
        self.users.set(i, u);
        proof {
            assert(self.users@ == old_users.update(i as int, new_user));
            lemma_assoc_update(old_pairs, i as int, role_set(new_user));
            assert(self.user_pairs() =~= old_pairs.update(i as int, (old_pairs[i as int].0, role_set(new_user))));
        }
        Ok(())
    }

    /// Grants `perm` on `context` to the user id (the id must be valid; a
    /// context holds at most 10000 grants). The context entry is created
    /// when missing.
    pub fn grant_context_permission(&mut self, user_id: &str, context: ContextID, perm: Permission) -> (r: Result<(), KcmError>)
        requires
            old(self).wf(),
        ensures
            final(self).wf(),
            !valid_user_id(user_id) ==> r matches Err(KcmError::InvalidArgument(_)),
            valid_user_id(user_id) && grants_in(old(self).acl_view(), context.0).len() >= MAX_ACL_ENTRIES
                ==> r matches Err(KcmError::InvalidArgument(_)),
            valid_user_id(user_id) && grants_in(old(self).acl_view(), context.0).len() < MAX_ACL_ENTRIES ==> r is Ok,
            r is Ok ==> final(self).acl_view() == old(self).acl_view().insert(
                context.0,
                grants_in(old(self).acl_view(), context.0).insert((user_id@, perm)),
            ),
            r is Err ==> final(self).acl_view() == old(self).acl_view(),
            final(self).users_view() == old(self).users_view(),
            final(self).roles_view() == old(self).roles_view(),
    {
        validate_user_id(user_id)?;
        let ghost old_pairs = self.acl_pairs();
        let ghost old_acl = self.context_acl@;
        match self.find_context(context) {
            None => {
                let mut grants: Vec<(String, Permission)> = Vec::new();
                grants.push((String::from_str(user_id), perm));
                let entry = ContextAcl { context, grants };
                proof {
                    assert(grant_views(entry.grants@) =~= seq![(user_id@, perm)]);
                    assert(grant_views(entry.grants@).to_set() =~= Set::empty().insert((user_id@, perm))) by {
                        assert(grant_views(entry.grants@)[0] == (user_id@, perm));
                    }
                    assert forall|k: int| 0 <= k < old_pairs.len() implies #[trigger] old_pairs[k].0 != context.0 by {
                        assert(old_acl[k].context.0 != context.0);
                    }
                    lemma_assoc_push(old_pairs, context.0, Set::empty().insert((user_id@, perm)));
                    assert(Set::<(Seq<char>, Permission)>::empty().len() == 0);
                }
                self.context_acl.push(entry);
                assert(self.acl_pairs() =~= old_pairs.push((context.0, Set::empty().insert((user_id@, perm)))));
            },
            Some(i) => {
                proof {
                    grant_views(self.context_acl@[i as int].grants@).unique_seq_to_set();
                }
                if self.context_acl[i].grants.len() >= MAX_ACL_ENTRIES {
                    return Err(KcmError::InvalidArgument(String::from_str("ACL for context cannot have more than 10000 entries")));
                }
                let mut entry = ContextAcl { context, grants: Vec::new() };
                self.context_acl.set_and_swap(i, &mut entry);
                let ghost before = grant_views(entry.grants@);
                if index_of_grant(&entry.grants, user_id, perm).is_none() {
                    entry.grants.push((String::from_str(user_id), perm));
                    proof {
                        assert(grant_views(entry.grants@) =~= before.push((user_id@, perm)));
                        lemma_push_no_dup(before, (user_id@, perm));
                    }
                } else {
                    assert(before.to_set().insert((user_id@, perm)) =~= before.to_set());
                }
                let ghost new_entry = entry;
                self.context_acl.set(i, entry);
                proof {
                    assert(self.context_acl@ == old_acl.update(i as int, new_entry));
                    lemma_assoc_update(old_pairs, i as int, grant_views(new_entry.grants@).to_set());
                    assert(self.acl_pairs() =~= old_pairs.update(i as int, (old_pairs[i as int].0, grant_views(new_entry.grants@).to_set())));
                }
            },
        }
        Ok(())
    }

    /// Withdraws the grant of `perm` on `context` from the user id.
    pub fn revoke_context_permission(&mut self, user_id: &str, context: ContextID, perm: Permission) -> (r: Result<(), KcmError>)
        requires
            old(self).wf(),
        ensures
            final(self).wf(),
            r is Ok,
            final(self).acl_view() == (if old(self).acl_view().contains_key(context.0) {
                old(self).acl_view().insert(context.0, old(self).acl_view()[context.0].remove((user_id@, perm)))
            } else {
                old(self).acl_view()
            }),
            final(self).users_view() == old(self).users_view(),
            final(self).roles_view() == old(self).roles_view(),
    {
        let ghost old_pairs = self.acl_pairs();
        let ghost old_acl = self.context_acl@;
        if let Some(i) = self.find_context(context) {
            let mut entry = ContextAcl { context, grants: Vec::new() };
            self.context_acl.set_and_swap(i, &mut entry);
            let ghost before = grant_views(entry.grants@);
            match index_of_grant(&entry.grants, user_id, perm) {
                Some(j) => {
                    entry.grants.remove(j);
                    proof {
                        assert(grant_views(entry.grants@) =~= before.remove(j as int));
                        lemma_remove_to_set(before, j as int);
                    }
                },
                None => {
                    assert(before.to_set().remove((user_id@, perm)) =~= before.to_set());
                },
            }
            let ghost new_entry = entry;
            self.context_acl.set(i, entry);
            proof {
                assert(self.context_acl@ == old_acl.update(i as int, new_entry));
                lemma_assoc_update(old_pairs, i as int, grant_views(new_entry.grants@).to_set());
                assert(self.acl_pairs() =~= old_pairs.update(i as int, (old_pairs[i as int].0, grant_views(new_entry.grants@).to_set())));
            }
        }
        Ok(())
    }

    /// Whether the user holds exactly `perm` on `context`, directly or
    /// through a role.
    pub fn check_permission(&self, user_id: &str, context: ContextID, perm: Permission) -> (r: bool)
        requires
            self.wf(),
        ensures
            r == permits(self.acl_view(), self.users_view(), self.roles_view(), user_id@, context.0, perm),
    {
        if let Some(i) = self.find_context(context) {
            if let Some(j) = index_of_grant(&self.context_acl[i].grants, user_id, perm) {
                assert(grant_views(self.context_acl@[i as int].grants@)[j as int] == (user_id@, perm));
                return true;
            }
        }
        if let Some(ui) = self.find_user(user_id) {
            let n = self.users[ui].roles.len();
            let ghost names = views(self.users@[ui as int].roles@);
            let mut j: usize = 0;
            while j < n
                invariant
                    self.wf(),
                    ui < self.users@.len(),
                    names == views(self.users@[ui as int].roles@),
                    self.users_view().contains_key(user_id@),
                    self.users_view()[user_id@] == role_set(self.users@[ui as int]),
                    n == names.len(),
                    j <= n,
                    forall|k: int| 0 <= k < j ==> !role_grants(self.roles_view(), #[trigger] names[k], perm),
                decreases n - j,
            {
                if let Some(ri) = self.find_role(self.users[ui].roles[j].as_str()) {
                    if self.roles[ri].has_permission(perm) {
                        assert(names[j as int] == self.users@[ui as int].roles@[j as int]@);
                        assert(self.users_view()[user_id@].contains(names[j as int]));
                        return true;
                    }
                }
                j = j + 1;
            }
            proof {
                if role_has(self.users_view(), self.roles_view(), user_id@, perm) {
                    let r = choose|r: Seq<char>| #[trigger] self.users_view()[user_id@].contains(r) && role_grants(self.roles_view(), r, perm);
                    let k = choose|k: int| 0 <= k < names.len() && names[k] == r;
                    assert(!role_grants(self.roles_view(), names[k], perm));
                }
            }
        }
        false
    }

    /// Whether the user holds a permission at least as high as `perm` on
    /// `context`, directly or through a role.
    pub fn check_permission_level(&self, user_id: &str, context: ContextID, perm: Permission) -> (r: bool)
        requires
            self.wf(),
        ensures
            r == permits_level(self.acl_view(), self.users_view(), self.roles_view(), user_id@, context.0, perm),
    {
        if let Some(i) = self.find_context(context) {
            if any_grant_at_level(&self.context_acl[i].grants, user_id, perm) {
                proof {
                    let g = grant_views(self.context_acl@[i as int].grants@).to_set();
                    let p = choose|p: Permission| #[trigger] g.contains((user_id@, p)) && perm_level(p) >= perm_level(perm);
                    assert(grants_in(self.acl_view(), context.0).contains((user_id@, p)));
                }
                return true;
            }
        }
        if let Some(ui) = self.find_user(user_id) {
            let n = self.users[ui].roles.len();
            let ghost names = views(self.users@[ui as int].roles@);
            let mut j: usize = 0;
            while j < n
                invariant
                    self.wf(),
                    ui < self.users@.len(),
                    names == views(self.users@[ui as int].roles@),
                    self.users_view().contains_key(user_id@),
                    self.users_view()[user_id@] == role_set(self.users@[ui as int]),
                    n == names.len(),
                    j <= n,
                    forall|k: int| 0 <= k < j ==> !role_grants_level(self.roles_view(), #[trigger] names[k], perm),
                decreases n - j,
            {
                if let Some(ri) = self.find_role(self.users[ui].roles[j].as_str()) {
                    if self.roles[ri].has_permission_level(perm) {
                        assert(names[j as int] == self.users@[ui as int].roles@[j as int]@);
                        assert(self.users_view()[user_id@].contains(names[j as int]));
                        return true;
                    }
                }
                j = j + 1;
            }
            proof {
                if role_has_level(self.users_view(), self.roles_view(), user_id@, perm) {
                    let r = choose|r: Seq<char>| #[trigger] self.users_view()[user_id@].contains(r) && role_grants_level(self.roles_view(), r, perm);
                    let k = choose|k: int| 0 <= k < names.len() && names[k] == r;
                    assert(!role_grants_level(self.roles_view(), names[k], perm));
                }
            }
        }
        false
    }

    pub fn user_exists(&self, user_id: &str) -> (r: bool)
        requires
            self.wf(),
        ensures
            r == self.users_view().contains_key(user_id@),
    {
        self.find_user(user_id).is_some()
    }

    pub fn role_exists(&self, role_name: &str) -> (r: bool)
        requires
            self.wf(),
        ensures
            r == self.roles_view().contains_key(role_name@),
    {
        self.find_role(role_name).is_some()
    }

    /// The role names of the user (in no particular order, each once).
    pub fn get_user_roles(&self, user_id: &str) -> (r: Result<Vec<String>, KcmError>)
        requires
            self.wf(),
        ensures
            r is Ok <==> self.users_view().contains_key(user_id@),
            r matches Err(e) ==> e is NotFound,
            r matches Ok(v) ==> views(v@).to_set() == self.users_view()[user_id@] && views(v@).no_duplicates(),
    {
        let i = match self.find_user(user_id) {
            Some(i) => i,
            None => return Err(KcmError::NotFound(with_name("User not found: ", user_id))),
        };
        let out = clone_strings(&self.users[i].roles);
        Ok(out)
    }

    /// The permissions of the role (in no particular order, each once).
    pub fn get_role_permissions(&self, role_name: &str) -> (r: Result<Vec<Permission>, KcmError>)
        requires
            self.wf(),
        ensures
            r is Ok <==> self.roles_view().contains_key(role_name@),
            r matches Err(e) ==> e is NotFound,
            r matches Ok(v) ==> v@.to_set() == self.roles_view()[role_name@] && v@.no_duplicates(),
    {
        let i = match self.find_role(role_name) {
            Some(i) => i,
            None => return Err(KcmError::NotFound(with_name("Role not found: ", role_name))),
        };
        let mut out: Vec<Permission> = Vec::new();
        let mut j: usize = 0;
        while j < self.roles[i].permissions.len()
            invariant
                i < self.roles@.len(),
                j <= self.roles@[i as int].permissions@.len(),
                out@ == self.roles@[i as int].permissions@.subrange(0, j as int),
            decreases self.roles@[i as int].permissions@.len() - j,
        {
            out.push(self.roles[i].permissions[j]);
            j = j + 1;
        }
        assert(out@ =~= self.roles@[i as int].permissions@);
        Ok(out)
    }

    /// Deletes the user and every grant made to its id.
    pub fn delete_user(&mut self, user_id: &str) -> (r: Result<(), KcmError>)
        requires
            old(self).wf(),
        ensures
            final(self).wf(),
            r is Ok <==> old(self).users_view().contains_key(user_id@),
            r matches Err(e) ==> e is NotFound,
            r is Ok ==> final(self).users_view() == old(self).users_view().remove(user_id@),
            r is Ok ==> final(self).acl_view() == old(self).acl_view().map_values(
                |gs: Set<(Seq<char>, Permission)>| gs.filter(|g: (Seq<char>, Permission)| g.0 != user_id@),
            ),
            r is Err ==> final(self).users_view() == old(self).users_view() && final(self).acl_view() == old(self).acl_view(),
            final(self).roles_view() == old(self).roles_view(),
    {
        let i = match self.find_user(user_id) {
            Some(i) => i,
            None => return Err(KcmError::NotFound(with_name("User not found: ", user_id))),
        };
        let ghost old_user_pairs = self.user_pairs();
        let ghost old_users = self.users@;
        let ghost old_roles0 = self.roles@;
        self.users.remove(i);
        proof {
            assert(self.user_pairs() =~= old_user_pairs.remove(i as int));
            lemma_assoc_remove(old_user_pairs, i as int);
            assert forall|k: int| 0 <= k < self.users@.len() implies views((#[trigger] self.users@[k]).roles@).no_duplicates() by {
                let k2 = if k < i { k } else { k + 1 };
                assert(self.users@[k] == old_users[k2]);
            }
        }
        let ghost f = |gs: Set<(Seq<char>, Permission)>| gs.filter(|g: (Seq<char>, Permission)| g.0 != user_id@);
        let ghost old_pairs = self.acl_pairs();
        let ghost old_acl = self.context_acl@;
        let mut c: usize = 0;
        while c < self.context_acl.len()
            invariant
                self.context_acl@.len() == old_acl.len(),
                old_pairs == old_acl.map_values(|e: ContextAcl| (e.context.0, grant_views(e.grants@).to_set())),
                c <= old_acl.len(),
                keys_unique(old_pairs),
                forall|k: int| 0 <= k < old_acl.len() ==> grant_views((#[trigger] old_acl[k]).grants@).no_duplicates(),
                forall|k: int| 0 <= k < old_acl.len() ==> grant_views((#[trigger] self.context_acl@[k]).grants@).no_duplicates(),
                forall|k: int| 0 <= k < old_acl.len() ==> (#[trigger] self.context_acl@[k]).context == old_acl[k].context,
                forall|k: int| 0 <= k < c ==> grant_views((#[trigger] self.context_acl@[k]).grants@).to_set() == f(grant_views(old_acl[k].grants@).to_set()),
                forall|k: int| c <= k < old_acl.len() ==> #[trigger] self.context_acl@[k] == old_acl[k],
                self.users@ == old_users.remove(i as int),
                self.roles@ == old_roles0,
                keys_unique(self.user_pairs()),
                keys_unique(self.role_pairs()),
                forall|k: int| 0 <= k < self.users@.len() ==> views((#[trigger] self.users@[k]).roles@).no_duplicates(),
                forall|k: int| 0 <= k < self.roles@.len() ==> (#[trigger] self.roles@[k]).permissions@.no_duplicates(),
                f == (|gs: Set<(Seq<char>, Permission)>| gs.filter(|g: (Seq<char>, Permission)| g.0 != user_id@)),
            decreases old_acl.len() - c,
        {
            let mut entry = ContextAcl { context: ContextID(0), grants: Vec::new() };
            self.context_acl.set_and_swap(c, &mut entry);
            let kept = grants_without_user(&entry.grants, user_id);
            let new_entry = ContextAcl { context: entry.context, grants: kept };
            self.context_acl.set(c, new_entry);
            c = c + 1;
        }
        proof {
            let new_pairs = self.acl_pairs();
            assert forall|k: int| 0 <= k < old_pairs.len() implies #[trigger] new_pairs[k] == (old_pairs[k].0, f(old_pairs[k].1)) by {
                assert(self.context_acl@[k].context == old_acl[k].context);
            }
            lemma_assoc_map_values(old_pairs, new_pairs, f);
            assert forall|a: int, b: int| 0 <= a < new_pairs.len() && 0 <= b < new_pairs.len() && a != b implies #[trigger] new_pairs[a].0 != #[trigger] new_pairs[b].0 by {
                assert(new_pairs[a].0 == old_pairs[a].0 && new_pairs[b].0 == old_pairs[b].0);
            }
        }
        Ok(())
    }

    /// Deletes the role and takes it away from every user.
    pub fn delete_role(&mut self, role_name: &str) -> (r: Result<(), KcmError>)
        requires
            old(self).wf(),
        ensures
            final(self).wf(),
            r is Ok <==> old(self).roles_view().contains_key(role_name@),
            r matches Err(e) ==> e is NotFound,
            r is Ok ==> final(self).roles_view() == old(self).roles_view().remove(role_name@),
            r is Ok ==> final(self).users_view() == old(self).users_view().map_values(
                |rs: Set<Seq<char>>| rs.remove(role_name@),
            ),
            r is Err ==> final(self).users_view() == old(self).users_view() && final(self).roles_view() == old(self).roles_view(),
            final(self).acl_view() == old(self).acl_view(),
    {
        let i = match self.find_role(role_name) {
            Some(i) => i,
            None => return Err(KcmError::NotFound(with_name("Role not found: ", role_name))),
        };
        let ghost old_role_pairs = self.role_pairs();
        let ghost old_roles = self.roles@;
        let ghost old_acl0 = self.context_acl@;
        self.roles.remove(i);
        proof {
            assert(self.role_pairs() =~= old_role_pairs.remove(i as int));
            lemma_assoc_remove(old_role_pairs, i as int);
            assert forall|k: int| 0 <= k < self.roles@.len() implies (#[trigger] self.roles@[k]).permissions@.no_duplicates() by {
                let k2 = if k < i { k } else { k + 1 };
                assert(self.roles@[k] == old_roles[k2]);
            }
        }
        let ghost f = |rs: Set<Seq<char>>| rs.remove(role_name@);
        let ghost old_pairs = self.user_pairs();
        let ghost old_users = self.users@;
        let mut c: usize = 0;
        while c < self.users.len()
            invariant
                self.users@.len() == old_users.len(),
                old_pairs == old_users.map_values(|u: User| (u.user_id@, role_set(u))),
                c <= old_users.len(),
                keys_unique(old_pairs),
                forall|k: int| 0 <= k < old_users.len() ==> views((#[trigger] old_users[k]).roles@).no_duplicates(),
                forall|k: int| 0 <= k < old_users.len() ==> views((#[trigger] self.users@[k]).roles@).no_duplicates(),
                forall|k: int| 0 <= k < old_users.len() ==> (#[trigger] self.users@[k]).user_id@ == old_users[k].user_id@,
                forall|k: int| 0 <= k < c ==> role_set(#[trigger] self.users@[k]) == f(role_set(old_users[k])),
                forall|k: int| c <= k < old_users.len() ==> #[trigger] self.users@[k] == old_users[k],
                self.roles@ == old_roles.remove(i as int),
                self.context_acl@ == old_acl0,
                keys_unique(self.role_pairs()),
                keys_unique(self.acl_pairs()),
                forall|k: int| 0 <= k < self.roles@.len() ==> (#[trigger] self.roles@[k]).permissions@.no_duplicates(),
                forall|k: int| 0 <= k < self.context_acl@.len() ==> grant_views((#[trigger] self.context_acl@[k]).grants@).no_duplicates(),
                f == (|rs: Set<Seq<char>>| rs.remove(role_name@)),
            decreases old_users.len() - c,
        {
            let mut u = User { user_id: String::new(), roles: Vec::new() };
            self.users.set_and_swap(c, &mut u);
            u.remove_role(role_name);
            self.users.set(c, u);
            c = c + 1;
        }
        proof {
            let new_pairs = self.user_pairs();
            assert forall|k: int| 0 <= k < old_pairs.len() implies #[trigger] new_pairs[k] == (old_pairs[k].0, f(old_pairs[k].1)) by {
                assert(self.users@[k].user_id@ == old_users[k].user_id@);
            }
            lemma_assoc_map_values(old_pairs, new_pairs, f);
            assert forall|a: int, b: int| 0 <= a < new_pairs.len() && 0 <= b < new_pairs.len() && a != b implies #[trigger] new_pairs[a].0 != #[trigger] new_pairs[b].0 by {
                assert(new_pairs[a].0 == old_pairs[a].0 && new_pairs[b].0 == old_pairs[b].0);
            }
        }
        Ok(())
    }
}

/// `prefix` followed by `name`.
fn with_name(prefix: &str, name: &str) -> (r: String)
    ensures
        r@ == prefix@ + name@,
{
    let mut msg = String::from_str(prefix);
    msg.append(name);
    msg
}


/// The index of the grant (`user_id`, `perm`) in `g`, if present.
fn index_of_grant(g: &Vec<(String, Permission)>, user_id: &str, perm: Permission) -> (r: Option<usize>)
    ensures
        r matches Some(j) ==> j < g@.len() && grant_views(g@)[j as int] == (user_id@, perm),
        r is None ==> !grant_views(g@).contains((user_id@, perm)),
{
    let mut j: usize = 0;
    while j < g.len()
        invariant
            j <= g@.len(),
            forall|k: int| 0 <= k < j ==> #[trigger] grant_views(g@)[k] != (user_id@, perm),
        decreases g@.len() - j,
    {
        if g[j].1 == perm && str_eq(g[j].0.as_str(), user_id) {
            return Some(j);
        }
        j = j + 1;
    }
    None
}

/// Whether `g` grants the user a permission at least as high as `perm`.
fn any_grant_at_level(g: &Vec<(String, Permission)>, user_id: &str, perm: Permission) -> (r: bool)
    ensures
        r == exists|p: Permission| #[trigger] grant_views(g@).to_set().contains((user_id@, p)) && perm_level(p) >= perm_level(perm),
{
    let required = perm.level();
    let mut j: usize = 0;
    while j < g.len()
        invariant
            j <= g@.len(),
            required == perm_level(perm),
            forall|k: int| 0 <= k < j ==> !((#[trigger] grant_views(g@)[k]).0 == user_id@ && perm_level(grant_views(g@)[k].1) >= required),
        decreases g@.len() - j,
    {
        if g[j].1.level() >= required && str_eq(g[j].0.as_str(), user_id) {
            assert(grant_views(g@)[j as int] == (user_id@, g@[j as int].1));
            assert(grant_views(g@).to_set().contains((user_id@, g@[j as int].1)));
            return true;
        }
        j = j + 1;
    }
    proof {
        if exists|p: Permission| #[trigger] grant_views(g@).to_set().contains((user_id@, p)) && perm_level(p) >= perm_level(perm) {
            let p = choose|p: Permission| #[trigger] grant_views(g@).to_set().contains((user_id@, p)) && perm_level(p) >= perm_level(perm);
            let k = choose|k: int| 0 <= k < grant_views(g@).len() && grant_views(g@)[k] == (user_id@, p);
            assert(!(grant_views(g@)[k].0 == user_id@ && perm_level(grant_views(g@)[k].1) >= required));
        }
    }
    false
}


/// Copies of the strings of `v`, in order.
fn clone_strings(v: &Vec<String>) -> (r: Vec<String>)
    ensures
        views(r@) == views(v@),
{
    let mut out: Vec<String> = Vec::new();
    let mut j: usize = 0;
    while j < v.len()
        invariant
            j <= v@.len(),
            views(out@) == views(v@.subrange(0, j as int)),
        decreases v@.len() - j,
    {
        let ghost before = out@;
        out.push(v[j].clone());
        proof {
            assert(out@ == before.push(v@[j as int]));
            assert(views(out@) =~= views(before).push(v@[j as int]@));
            assert(v@.subrange(0, j + 1) =~= v@.subrange(0, j as int).push(v@[j as int]));
            assert(views(v@.subrange(0, j + 1)) =~= views(v@.subrange(0, j as int)).push(v@[j as int]@));
        }
        j = j + 1;
    }
    assert(v@.subrange(0, v@.len() as int) =~= v@);
    out
}

/// The grants of `g` made to ids other than `user_id`.
fn grants_without_user(g: &Vec<(String, Permission)>, user_id: &str) -> (r: Vec<(String, Permission)>)
    requires
        grant_views(g@).no_duplicates(),
    ensures
        grant_views(r@).no_duplicates(),
        grant_views(r@).to_set() == grant_views(g@).to_set().filter(|x: (Seq<char>, Permission)| x.0 != user_id@),
{
    let ghost pred = |x: (Seq<char>, Permission)| x.0 != user_id@;
    let mut out: Vec<(String, Permission)> = Vec::new();
    let mut j: usize = 0;
    while j < g.len()
        invariant
            j <= g@.len(),
            grant_views(g@).no_duplicates(),
            grant_views(out@).no_duplicates(),
            grant_views(out@).to_set() == grant_views(g@.subrange(0, j as int)).to_set().filter(pred),
            pred == (|x: (Seq<char>, Permission)| x.0 != user_id@),
        decreases g@.len() - j,
    {
        let ghost prefix = grant_views(g@.subrange(0, j as int));
        let ghost item = grant_views(g@)[j as int];
        proof {
            assert(grant_views(g@.subrange(0, j + 1)) =~= prefix.push(item));
            prefix.lemma_push_to_set_commute(item);
        }
        if !str_eq(g[j].0.as_str(), user_id) {
            proof {
                if grant_views(out@).contains(item) {
                    assert(grant_views(out@).to_set().contains(item));
                    assert(prefix.to_set().contains(item));
                    let k = choose|k: int| 0 <= k < prefix.len() && prefix[k] == item;
                    assert(grant_views(g@)[k] == prefix[k]);
                }
            }
            let ghost before = grant_views(out@);
            out.push((g[j].0.clone(), g[j].1));
            proof {
                assert(grant_views(out@) =~= before.push(item));
                lemma_push_no_dup(before, item);
                assert(grant_views(out@).to_set() =~= prefix.push(item).to_set().filter(pred));
            }
        } else {
            assert(grant_views(out@).to_set() =~= prefix.push(item).to_set().filter(pred));
        }
        j = j + 1;
    }
    assert(g@.subrange(0, g@.len() as int) =~= g@);
    out
}

impl Default for ACLManager {
    fn default() -> (r: Self)
        ensures
            r.wf(),
            r.users_view() == Map::<Seq<char>, Set<Seq<char>>>::empty(),
            r.roles_view() == Map::<Seq<char>, Set<Permission>>::empty(),
            r.acl_view() == Map::<u8, Set<(Seq<char>, Permission)>>::empty(),
    {
        ACLManager::new()
    }
}


/// A permission's name reads back as that permission.
pub proof fn law_permission_name_roundtrip(p: Permission)
    ensures
        spec_perm_from_name(perm_name(p)) == Some(p),
{
    reveal_with_fuel(eq_ignore_case, 1);
    assert(eq_ignore_case(perm_name(p), perm_name(p)));
    match p {
        Permission::Read => {},
        Permission::Write => {
            assert(perm_name(p)[0] != 'r');
        },
        Permission::Delete => {
            assert(perm_name(p)[0] != 'r' && perm_name(p)[0] != 'w');
        },
        Permission::Execute => {
            assert(perm_name(p)[0] != 'r' && perm_name(p)[0] != 'w' && perm_name(p)[1] != 'e');
        },
        Permission::Admin => {
            assert(perm_name(p)[0] != 'r' && perm_name(p)[0] != 'w' && perm_name(p)[1] != 'e' && perm_name(p).len() != 7);
        },
    }
}

/// Once `perm` is granted on a context, the user holds it there.
pub proof fn law_grant_then_permits(
    acl: Map<u8, Set<(Seq<char>, Permission)>>,
    users: Map<Seq<char>, Set<Seq<char>>>,
    roles: Map<Seq<char>, Set<Permission>>,
    uid: Seq<char>,
    ctx: u8,
    perm: Permission,
)
    ensures
        permits(acl.insert(ctx, grants_in(acl, ctx).insert((uid, perm))), users, roles, uid, ctx, perm),
{
}

/// After a grant is revoked, the user holds `perm` on the context exactly
/// when one of its roles holds it.
pub proof fn law_revoke_leaves_roles(
    acl: Map<u8, Set<(Seq<char>, Permission)>>,
    users: Map<Seq<char>, Set<Seq<char>>>,
    roles: Map<Seq<char>, Set<Permission>>,
    uid: Seq<char>,
    ctx: u8,
    perm: Permission,
)
    ensures
        ({
            let after = if acl.contains_key(ctx) {
                acl.insert(ctx, acl[ctx].remove((uid, perm)))
            } else {
                acl
            };
            permits(after, users, roles, uid, ctx, perm) == role_has(users, roles, uid, perm)
        }),
{
}

/// Holding a permission exactly implies holding it by level.
pub proof fn law_exact_implies_level(
    acl: Map<u8, Set<(Seq<char>, Permission)>>,
    users: Map<Seq<char>, Set<Seq<char>>>,
    roles: Map<Seq<char>, Set<Permission>>,
    uid: Seq<char>,
    ctx: u8,
    perm: Permission,
)
    ensures
        permits(acl, users, roles, uid, ctx, perm) ==> permits_level(acl, users, roles, uid, ctx, perm),
{
    if grants_in(acl, ctx).contains((uid, perm)) {
        assert(grants_in(acl, ctx).contains((uid, perm)) && perm_level(perm) >= perm_level(perm));
    } else if role_has(users, roles, uid, perm) {
        let r = choose|r: Seq<char>| #[trigger] users[uid].contains(r) && role_grants(roles, r, perm);
        assert(roles[r].contains(perm));
        assert(role_grants_level(roles, r, perm));
    }
}

/// Assigning a role that holds `perm` gives the user `perm` on every context.
pub proof fn law_assigned_role_permits(
    acl: Map<u8, Set<(Seq<char>, Permission)>>,
    users: Map<Seq<char>, Set<Seq<char>>>,
    roles: Map<Seq<char>, Set<Permission>>,
    uid: Seq<char>,
    role: Seq<char>,
    ctx: u8,
    perm: Permission,
)
    requires
        users.contains_key(uid),
        roles.contains_key(role),
        roles[role].contains(perm),
    ensures
        permits(acl, users.insert(uid, users[uid].insert(role)), roles, uid, ctx, perm),
{
    let after = users.insert(uid, users[uid].insert(role));
    assert(after[uid].contains(role));
    assert(role_grants(roles, role, perm));
}

/// A deleted user holds no permission anywhere.
pub proof fn law_deleted_user_denied(
    acl: Map<u8, Set<(Seq<char>, Permission)>>,
    users: Map<Seq<char>, Set<Seq<char>>>,
    roles: Map<Seq<char>, Set<Permission>>,
    uid: Seq<char>,
    ctx: u8,
    perm: Permission,
)
    ensures
        !permits_level(
            acl.map_values(|gs: Set<(Seq<char>, Permission)>| gs.filter(|g: (Seq<char>, Permission)| g.0 != uid)),
            users.remove(uid),
            roles,
            uid,
            ctx,
            perm,
        ),
{
}

/// After a role is deleted no user holds it.
pub proof fn law_deleted_role_unassigned(users: Map<Seq<char>, Set<Seq<char>>>, role: Seq<char>, uid: Seq<char>)
    requires
        users.contains_key(uid),
    ensures
        !users.map_values(|rs: Set<Seq<char>>| rs.remove(role))[uid].contains(role),
{
}

} // verus!
