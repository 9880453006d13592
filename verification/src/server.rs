//! The decisions of the HTTP middlewares: which requests need
//! authentication, how a token is read from headers, which permission a
//! method needs, what cross-origin requests are answered, and how a client
//! is named for rate limiting.
use crate::fmt::lemma_ascii_str_len;
use crate::rbac::{contains_string, perm_name, permits_level, str_eq, valid_role_name, views, ACLManager, Permission};
use crate::types::{ContextID, KcmError};
use vstd::prelude::*;
use vstd::string::*;
use vstd::utf8::is_ascii_chars;

verus! {

/// Whether `char::is_whitespace` holds of a non-ASCII character.
pub uninterp spec fn spec_non_ascii_whitespace(c: char) -> bool;

/// An ASCII whitespace character: space, tab, line feed, vertical tab,
/// form feed, carriage return.
pub open spec fn ascii_whitespace(c: char) -> bool {
    c == ' ' || c == '\t' || c == '\n' || c == '\x0B' || c == '\x0C' || c == '\r'
}

/// Whether `char::is_whitespace` holds of `c`.
pub open spec fn spec_is_whitespace(c: char) -> bool {
    if (c as u32) < 128 {
        ascii_whitespace(c)
    } else {
        spec_non_ascii_whitespace(c)
    }
}

/// Calls `char::is_whitespace`: on ASCII it holds exactly of the six
/// whitespace characters; on other characters its outcome is named
/// `spec_non_ascii_whitespace`.
#[verifier::external_body]
fn char_is_whitespace(c: char) -> (r: bool)
    ensures
        r == (if (c as u32) < 128 {
            ascii_whitespace(c)
        } else {
            spec_non_ascii_whitespace(c)
        }),
{
    c.is_whitespace()
}

/// The characters of `s` without leading whitespace.
pub open spec fn trim_start(s: Seq<char>) -> Seq<char>
    decreases s.len(),
{
    if s.len() > 0 && spec_is_whitespace(s[0]) {
        trim_start(s.drop_first())
    } else {
        s
    }
}

/// The characters of `s` without trailing whitespace.
pub open spec fn trim_end(s: Seq<char>) -> Seq<char>
    decreases s.len(),
{
    if s.len() > 0 && spec_is_whitespace(s.last()) {
        trim_end(s.drop_last())
    } else {
        s
    }
}

/// `str::trim`: the characters without leading or trailing whitespace.
pub open spec fn trimmed(s: Seq<char>) -> Seq<char> {
    trim_end(trim_start(s))
}

proof fn lemma_trim_start(s: Seq<char>, i: int)
    requires
        0 <= i <= s.len(),
        forall|k: int| 0 <= k < i ==> spec_is_whitespace(#[trigger] s[k]),
        i == s.len() || !spec_is_whitespace(s[i]),
    ensures
        trim_start(s) == s.subrange(i, s.len() as int),
    decreases i,
{
    if i > 0 {
        assert forall|k: int| 0 <= k < i - 1 implies spec_is_whitespace(#[trigger] s.drop_first()[k]) by {
            assert(s.drop_first()[k] == s[k + 1]);
        }
        if i < s.len() {
            assert(s.drop_first()[i - 1] == s[i]);
        }
        lemma_trim_start(s.drop_first(), i - 1);
        assert(s.drop_first().subrange(i - 1, s.len() - 1) =~= s.subrange(i, s.len() as int));
    } else {
        assert(s.subrange(0, s.len() as int) =~= s);
    }
}

proof fn lemma_trim_end(s: Seq<char>, j: int)
    requires
        0 <= j <= s.len(),
        forall|k: int| j <= k < s.len() ==> spec_is_whitespace(#[trigger] s[k]),
        j == 0 || !spec_is_whitespace(s[j - 1]),
    ensures
        trim_end(s) == s.subrange(0, j),
    decreases s.len() - j,
{
    if j < s.len() {
        assert(spec_is_whitespace(s[s.len() - 1]));
        assert forall|k: int| j <= k < s.drop_last().len() implies spec_is_whitespace(#[trigger] s.drop_last()[k]) by {
            assert(s.drop_last()[k] == s[k]);
        }
        if j > 0 {
            assert(s.drop_last()[j - 1] == s[j - 1]);
        }
        lemma_trim_end(s.drop_last(), j);
        assert(s.drop_last().subrange(0, j) =~= s.subrange(0, j));
    } else {
        assert(s.subrange(0, j) =~= s);
    }
}

/// `s` with leading and trailing whitespace removed.
pub fn trim(s: &str) -> (r: &str)
    ensures
        r@ == trimmed(s@),
{
    let n = s.unicode_len();
    let mut i: usize = 0;
    while i < n && char_is_whitespace(s.get_char(i))
        invariant
            n == s@.len(),
            i <= n,
            forall|k: int| 0 <= k < i ==> spec_is_whitespace(#[trigger] s@[k]),
        decreases n - i,
    {
        i = i + 1;
    }
    let mut j: usize = n;
    while j > i && char_is_whitespace(s.get_char(j - 1))
        invariant
            n == s@.len(),
            i <= j <= n,
            forall|k: int| j <= k < n ==> spec_is_whitespace(#[trigger] s@[k]),
        decreases j,
    {
        j = j - 1;
    }
    proof {
        lemma_trim_start(s@, i as int);
        let t = s@.subrange(i as int, n as int);
        assert forall|k: int| j - i <= k < t.len() implies spec_is_whitespace(#[trigger] t[k]) by {
            assert(t[k] == s@[i + k]);
        }
        if j > i {
            assert(t[j - i - 1] == s@[j - 1]);
        }
        lemma_trim_end(t, j - i);
        assert(t.subrange(0, j - i) =~= s@.subrange(i as int, j as int));
    }
    s.substring_char(i, j)
}

/// Whether `s` starts with `p`.
pub open spec fn starts_with(s: Seq<char>, p: Seq<char>) -> bool {
    p.len() <= s.len() && s.subrange(0, p.len() as int) == p
}

fn has_prefix(s: &str, p: &str) -> (r: bool)
    ensures
        r == starts_with(s@, p@),
{
    let n = s.unicode_len();
    let m = p.unicode_len();
    if m > n {
        return false;
    }
    let mut i: usize = 0;
    while i < m
        invariant
            n == s@.len(),
            m == p@.len(),
            m <= n,
            i <= m,
            forall|k: int| 0 <= k < i ==> s@[k] == p@[k],
        decreases m - i,
    {
        if s.get_char(i) != p.get_char(i) {
            assert(s@.subrange(0, m as int)[i as int] != p@[i as int]);
            return false;
        }
        i = i + 1;
    }
    assert(s@.subrange(0, m as int) =~= p@);
    true
}

/// Paths under the fact endpoints need authentication.
pub open spec fn spec_requires_auth(path: Seq<char>) -> bool {
    starts_with(path, "/api/v1/facts"@) || starts_with(path, "/facts"@)
}

pub fn requires_auth(path: &str) -> (r: bool)
    ensures
        r == spec_requires_auth(path@),
{
    has_prefix(path, "/api/v1/facts") || has_prefix(path, "/facts")
}

/// The token of a request: the trimmed text after `Bearer ` in the
/// authorization header when non-empty, else the trimmed API key header
/// when non-empty.
pub open spec fn spec_token(authorization: Option<Seq<char>>, api_key: Option<Seq<char>>) -> Option<Seq<char>> {
    let bearer = match authorization {
        Some(a) => if starts_with(a, "Bearer "@) && trimmed(a.subrange(7, a.len() as int)).len() > 0 {
            Some(trimmed(a.subrange(7, a.len() as int)))
        } else {
            None
        },
        None => None,
    };
    match bearer {
        Some(t) => Some(t),
        None => match api_key {
            Some(k) => if trimmed(k).len() > 0 {
                Some(trimmed(k))
            } else {
                None
            },
            None => None,
        },
    }
}

/// Reads the token from the authorization and API key headers (each given
/// when present and readable as text).
pub fn extract_token(authorization: Option<&str>, api_key: Option<&str>) -> (r: Option<String>)
    ensures
        match r {
            Some(t) => spec_token(
                match authorization {
                    Some(a) => Some(a@),
                    None => None,
                },
                match api_key {
                    Some(k) => Some(k@),
                    None => None,
                },
            ) == Some(t@),
            None => spec_token(
                match authorization {
                    Some(a) => Some(a@),
                    None => None,
                },
                match api_key {
                    Some(k) => Some(k@),
                    None => None,
                },
            ) is None,
        },
{
    proof {
        reveal_strlit("Bearer ");
    }
    if let Some(a) = authorization {
        if has_prefix(a, "Bearer ") {
            let n = a.unicode_len();
            let rest = a.substring_char(7, n);
            let t = trim(rest);
            if t.unicode_len() > 0 {
                return Some(String::from_str(t));
            }
        }
    }
    if let Some(k) = api_key {
        let t = trim(k);
        if t.unicode_len() > 0 {
            return Some(String::from_str(t));
        }
    }
    None
}

/// Reading methods need `Read`; every other method needs `Write`.
pub open spec fn spec_required_permission(method: Seq<char>) -> Permission {
    if method == "GET"@ || method == "HEAD"@ || method == "OPTIONS"@ {
        Permission::Read
    } else {
        Permission::Write
    }
}

pub fn required_permission(method: &str) -> (r: Permission)
    ensures
        r == spec_required_permission(method@),
{
    if str_eq(method, "GET") || str_eq(method, "HEAD") || str_eq(method, "OPTIONS") {
        Permission::Read
    } else {
        Permission::Write
    }
}

/// Authentication is on unless the setting reads `false` or `0`.
pub fn auth_enabled(setting: Option<&str>) -> (r: bool)
    ensures
        r == match setting {
            Some(v) => v@ != "false"@ && v@ != "0"@,
            None => true,
        },
{
    match setting {
        Some(v) => !str_eq(v, "false") && !str_eq(v, "0"),
        None => true,
    }
}

/// What the authentication guard does with a request.
#[derive(Clone, Debug, PartialEq, Eq)]
pub enum AuthVerdict {
    /// Hand the request on.
    Forward,
    /// 401: no credentials were given.
    MissingCredentials,
    /// 401: the token names no user.
    InvalidKey,
    /// 403: the user lacks the permission.
    Forbidden(Permission),
}

/// The first decision: before any token is looked up. `Ok(token)` means the
/// token must be looked up.
pub fn auth_precheck(enabled: bool, path: &str, authorization: Option<&str>, api_key: Option<&str>) -> (r: Result<
    String,
    AuthVerdict,
>)
    ensures
        !enabled ==> r == Err::<String, AuthVerdict>(AuthVerdict::Forward),
        enabled && !spec_requires_auth(path@) ==> r == Err::<String, AuthVerdict>(AuthVerdict::Forward),
        enabled && spec_requires_auth(path@) ==> match r {
            Ok(t) => spec_token(
                match authorization {
                    Some(a) => Some(a@),
                    None => None,
                },
                match api_key {
                    Some(k) => Some(k@),
                    None => None,
                },
            ) == Some(t@),
            Err(v) => v == AuthVerdict::MissingCredentials && spec_token(
                match authorization {
                    Some(a) => Some(a@),
                    None => None,
                },
                match api_key {
                    Some(k) => Some(k@),
                    None => None,
                },
            ) is None,
        },
{
    if !enabled {
        return Err(AuthVerdict::Forward);
    }
    if !requires_auth(path) {
        return Err(AuthVerdict::Forward);
    }
    match extract_token(authorization, api_key) {
        Some(t) => Ok(t),
        None => Err(AuthVerdict::MissingCredentials),
    }
}

/// The second decision, given the user the token names (if any): the user
/// must hold, in the default context, a permission at least as high as the
/// method needs.
pub fn auth_verdict(user: Option<&str>, method: &str, acl: &ACLManager) -> (r: AuthVerdict)
    requires
        acl.wf(),
    ensures
        match user {
            None => r == AuthVerdict::InvalidKey,
            Some(u) => if permits_level(
                acl.acl_view(),
                acl.users_view(),
                acl.roles_view(),
                u@,
                0,
                spec_required_permission(method@),
            ) {
                r == AuthVerdict::Forward
            } else {
                r == AuthVerdict::Forbidden(spec_required_permission(method@))
            },
        },
{
    match user {
        None => AuthVerdict::InvalidKey,
        Some(u) => {
            let required = required_permission(method);
            if acl.check_permission_level(u, ContextID(0), required) {
                AuthVerdict::Forward
            } else {
                AuthVerdict::Forbidden(required)
            }
        },
    }
}

/// The JSON body of a 403 for a missing permission.
pub fn forbidden_body(required: Permission) -> (r: String)
    ensures
        r@ == "{\"error\":\"Insufficient permissions: requires "@ + perm_name(required) + " access\",\"status\":403}"@,
{
    let mut s = String::from_str("{\"error\":\"Insufficient permissions: requires ");
    s.append(required.name());
    s.append(" access\",\"status\":403}");
    s
}

/// The access-control state the guard starts from: the roles `reader`
/// (read), `writer` (read, write) and `admin` (every permission), and each
/// credential's user with its roles. Refusals (invalid names, missing
/// roles, limits) are skipped.
pub fn init_acl_manager(credentials: &Vec<(String, Vec<String>)>) -> (r: ACLManager)
    ensures
        r.wf(),
        r.roles_view().contains_key("reader"@) && r.roles_view()["reader"@] == Set::empty().insert(Permission::Read),
        r.roles_view().contains_key("writer"@) && r.roles_view()["writer"@] == Set::empty().insert(Permission::Read).insert(
            Permission::Write,
        ),
        r.roles_view().contains_key("admin"@) && r.roles_view()["admin"@] == Set::empty().insert(Permission::Read).insert(
            Permission::Write,
        ).insert(Permission::Delete).insert(Permission::Execute).insert(Permission::Admin),
{
    let mut acl = ACLManager::new();
    proof {
        reveal_strlit("reader");
        reveal_strlit("writer");
        reveal_strlit("admin");
        assert(is_ascii_chars("reader"@));
        assert(is_ascii_chars("writer"@));
        assert(is_ascii_chars("admin"@));
        lemma_ascii_str_len("reader");
        lemma_ascii_str_len("writer");
        lemma_ascii_str_len("admin");
        assert(valid_role_name("reader"));
        assert(valid_role_name("writer"));
        assert(valid_role_name("admin"));
    }
    let _ = acl.create_role("reader");
    let _ = acl.add_permission_to_role("reader", Permission::Read);
    let _ = acl.create_role("writer");
    let _ = acl.add_permission_to_role("writer", Permission::Read);
    let _ = acl.add_permission_to_role("writer", Permission::Write);
    let _ = acl.create_role("admin");
    let _ = acl.add_permission_to_role("admin", Permission::Read);
    let _ = acl.add_permission_to_role("admin", Permission::Write);
    let _ = acl.add_permission_to_role("admin", Permission::Delete);
    let _ = acl.add_permission_to_role("admin", Permission::Execute);
    let _ = acl.add_permission_to_role("admin", Permission::Admin);
    let ghost roles0 = acl.roles_view();
    let mut i: usize = 0;
    while i < credentials.len()
        invariant
            acl.wf(),
            acl.roles_view() == roles0,
            i <= credentials@.len(),
        decreases credentials@.len() - i,
    {
        let user = credentials[i].0.as_str();
        let _ = acl.create_user(user);
        let roles = &credentials[i].1;
        let mut j: usize = 0;
        while j < roles.len()
            invariant
                acl.wf(),
                acl.roles_view() == roles0,
                j <= roles@.len(),
            decreases roles@.len() - j,
        {
            let _ = acl.assign_role(user, roles[j].as_str());
            j = j + 1;
        }
        i = i + 1;
    }
    acl
}

/// What the cross-origin middleware does with a request.
#[derive(Clone, Debug, PartialEq, Eq)]
pub enum CorsAction {
    /// No `Origin` header: hand the request on untouched.
    PassThrough,
    /// 403: the origin is not allowed.
    Forbidden,
    /// Answer a preflight request with the cross-origin headers.
    Preflight,
    /// Hand the request on and add the cross-origin headers to the answer.
    Forward,
}

/// An empty allow-list allows every origin.
pub open spec fn origin_allowed(origin: Seq<char>, allowed: Seq<String>) -> bool {
    allowed.len() == 0 || views(allowed).contains(origin)
}

pub fn cors_action(origin: Option<&str>, allowed_origins: &Vec<String>, is_options: bool) -> (r: CorsAction)
    ensures
        r == match origin {
            None => CorsAction::PassThrough,
            Some(o) => if !origin_allowed(o@, allowed_origins@) {
                CorsAction::Forbidden
            } else if is_options {
                CorsAction::Preflight
            } else {
                CorsAction::Forward
            },
        },
{
    match origin {
        None => CorsAction::PassThrough,
        Some(o) => {
            if allowed_origins.len() > 0 && !contains_string(allowed_origins, o) {
                CorsAction::Forbidden
            } else if is_options {
                CorsAction::Preflight
            } else {
                CorsAction::Forward
            }
        },
    }
}

/// The cross-origin guard's configuration: the origins it allows; an empty
/// list allows every origin.
pub struct CorsMiddleware {
    pub allowed_origins: Vec<String>,
}

impl CorsMiddleware {
    /// The guard for the `KCM_CORS_ORIGINS` setting, which the caller reads:
    /// its comma-separated origins, trimmed, empty ones dropped; without the
    /// setting every origin is allowed.
    pub fn new(setting: Option<&str>) -> (r: CorsMiddleware)
        ensures
            views(r.allowed_origins@) == match setting {
                Some(s) => comma_pieces(s@).map_values(|p: Seq<char>| trimmed(p)).filter(|p: Seq<char>| p.len() > 0),
                None => Seq::<Seq<char>>::empty(),
            },
    {
        match setting {
            Some(s) => CorsMiddleware { allowed_origins: parse_origins(s) },
            None => {
                let v: Vec<String> = Vec::new();
                assert(views(v@) =~= Seq::<Seq<char>>::empty());
                CorsMiddleware { allowed_origins: v }
            },
        }
    }

    /// What the guard does with a request from `origin`.
    pub fn action(&self, origin: Option<&str>, is_options: bool) -> (r: CorsAction)
        ensures
            r == match origin {
                None => CorsAction::PassThrough,
                Some(o) => if !origin_allowed(o@, self.allowed_origins@) {
                    CorsAction::Forbidden
                } else if is_options {
                    CorsAction::Preflight
                } else {
                    CorsAction::Forward
                },
            },
    {
        cors_action(origin, &self.allowed_origins, is_options)
    }
}

/// The rate-limiting guard; the limiter it consults is the server's.
pub struct RateLimitGuard;

impl RateLimitGuard {
    pub fn new() -> RateLimitGuard {
        RateLimitGuard
    }
}

impl Default for RateLimitGuard {
    fn default() -> RateLimitGuard {
        RateLimitGuard::new()
    }
}

/// The cross-origin headers for an allowed origin, in the order they are
/// set.
pub fn cors_headers(origin: &str) -> (r: Vec<(String, String)>)
    ensures
        r@.len() == 4,
        r@[0].0@ == "access-control-allow-origin"@ && r@[0].1@ == origin@,
        r@[1].0@ == "access-control-allow-methods"@ && r@[1].1@ == "GET, POST, PUT, DELETE, OPTIONS"@,
        r@[2].0@ == "access-control-allow-headers"@ && r@[2].1@ == "Content-Type, Authorization, X-Request-ID"@,
        r@[3].0@ == "access-control-max-age"@ && r@[3].1@ == "3600"@,
{
    let mut v: Vec<(String, String)> = Vec::new();
    v.push((String::from_str("access-control-allow-origin"), String::from_str(origin)));
    v.push((String::from_str("access-control-allow-methods"), String::from_str("GET, POST, PUT, DELETE, OPTIONS")));
    v.push((String::from_str("access-control-allow-headers"), String::from_str("Content-Type, Authorization, X-Request-ID")));
    v.push((String::from_str("access-control-max-age"), String::from_str("3600")));
    v
}

/// The text of `s` up to its first `,` (all of it when there is none).
pub open spec fn before_comma(s: Seq<char>) -> Seq<char>
    decreases s.len(),
{
    if s.len() == 0 {
        s
    } else if s[0] == ',' {
        Seq::empty()
    } else {
        seq![s[0]] + before_comma(s.drop_first())
    }
}

/// The pieces of `s` between commas.
pub open spec fn comma_pieces(s: Seq<char>) -> Seq<Seq<char>>
    decreases s.len(),
{
    if before_comma(s).len() == s.len() {
        seq![s]
    } else {
        proof {
            lemma_before_comma(s);
        }
        seq![before_comma(s)] + comma_pieces(s.subrange(before_comma(s).len() + 1int, s.len() as int))
    }
}

pub proof fn lemma_before_comma(s: Seq<char>)
    ensures
        before_comma(s).len() <= s.len(),
        s.subrange(0, before_comma(s).len() as int) == before_comma(s),
        forall|k: int| 0 <= k < before_comma(s).len() ==> s[k] != ',',
        before_comma(s).len() < s.len() ==> s[before_comma(s).len() as int] == ',',
    decreases s.len(),
{
    if s.len() > 0 && s[0] != ',' {
        lemma_before_comma(s.drop_first());
        let b = before_comma(s.drop_first());
        assert forall|k: int| 0 <= k < before_comma(s).len() implies s[k] != ',' by {
            if k > 0 {
                assert(s[k] == s.drop_first()[k - 1]);
            }
        }
        assert(s.subrange(0, b.len() + 1int) =~= seq![s[0]] + s.drop_first().subrange(0, b.len() as int));
    } else if s.len() > 0 {
        assert(s.subrange(0, 0) =~= Seq::<char>::empty());
    }
}

/// The index of the first `,` in `s` at or after `from`, or its length.
fn next_comma(s: &str, from: usize) -> (r: usize)
    requires
        from <= s@.len(),
    ensures
        from <= r <= s@.len(),
        forall|k: int| from <= k < r ==> s@[k] != ',',
        r < s@.len() ==> s@[r as int] == ',',
{
    let n = s.unicode_len();
    let mut i = from;
    while i < n && s.get_char(i) != ','
        invariant
            n == s@.len(),
            from <= i <= n,
            forall|k: int| from <= k < i ==> s@[k] != ',',
        decreases n - i,
    {
        i = i + 1;
    }
    i
}

proof fn lemma_before_comma_at(s: Seq<char>, from: int, r: int)
    requires
        0 <= from <= r <= s.len(),
        forall|k: int| from <= k < r ==> s[k] != ',',
        r < s.len() ==> s[r] == ',',
    ensures
        before_comma(s.subrange(from, s.len() as int)) == s.subrange(from, r),
    decreases r - from,
{
    let t = s.subrange(from, s.len() as int);
    if from < r {
        assert(t[0] == s[from]);
        assert(t.drop_first() =~= s.subrange(from + 1, s.len() as int));
        lemma_before_comma_at(s, from + 1, r);
        assert(s.subrange(from, r) =~= seq![s[from]] + s.subrange(from + 1, r));
    } else if from < s.len() {
        assert(t[0] == ',');
        assert(s.subrange(from, r) =~= Seq::<char>::empty());
    } else {
        assert(t =~= Seq::<char>::empty());
        assert(s.subrange(from, r) =~= Seq::<char>::empty());
    }
}

/// The client a rate limit applies to: the authenticated user when known,
/// else `ip:` and the first address of `X-Forwarded-For`, else `ip:` and
/// `X-Real-IP`, else `ip:` and the peer address, else `unknown`.
pub open spec fn spec_client_id(
    user: Option<Seq<char>>,
    forwarded_for: Option<Seq<char>>,
    real_ip: Option<Seq<char>>,
    peer_ip: Option<Seq<char>>,
) -> Seq<char> {
    if user matches Some(u) && u.len() > 0 {
        user.unwrap()
    } else if forwarded_for matches Some(f) && trimmed(before_comma(f)).len() > 0 {
        "ip:"@ + trimmed(before_comma(forwarded_for.unwrap()))
    } else if real_ip matches Some(x) && trimmed(x).len() > 0 {
        "ip:"@ + trimmed(real_ip.unwrap())
    } else {
        match peer_ip {
            Some(p) => "ip:"@ + p,
            None => "unknown"@,
        }
    }
}

pub fn extract_client_id(user: Option<&str>, forwarded_for: Option<&str>, real_ip: Option<&str>, peer_ip: Option<&str>) -> (r: String)
    ensures
        r@ == spec_client_id(
            match user {
                Some(u) => Some(u@),
                None => None,
            },
            match forwarded_for {
                Some(f) => Some(f@),
                None => None,
            },
            match real_ip {
                Some(x) => Some(x@),
                None => None,
            },
            match peer_ip {
                Some(p) => Some(p@),
                None => None,
            },
        ),
{
    if let Some(u) = user {
        if u.unicode_len() > 0 {
            return String::from_str(u);
        }
    }
    if let Some(f) = forwarded_for {
        let end = next_comma(f, 0);
        let first = f.substring_char(0, end);
        proof {
            lemma_before_comma_at(f@, 0, end as int);
            assert(f@.subrange(0, f@.len() as int) =~= f@);
        }
        let ip = trim(first);
        if ip.unicode_len() > 0 {
            let mut s = String::from_str("ip:");
            s.append(ip);
            return s;
        }
    }
    if let Some(x) = real_ip {
        let ip = trim(x);
        if ip.unicode_len() > 0 {
            let mut s = String::from_str("ip:");
            s.append(ip);
            return s;
        }
    }
    match peer_ip {
        Some(p) => {
            let mut s = String::from_str("ip:");
            s.append(p);
            s
        },
        None => String::from_str("unknown"),
    }
}

/// The allowed origins of a comma-separated setting: each piece trimmed,
/// empty ones dropped.
pub fn parse_origins(setting: &str) -> (r: Vec<String>)
    ensures
        views(r@) == comma_pieces(setting@).map_values(|p: Seq<char>| trimmed(p)).filter(|p: Seq<char>| p.len() > 0),
{
    let n = setting.unicode_len();
    let mut out: Vec<String> = Vec::new();
    let mut start: usize = 0;
    let ghost pred = |p: Seq<char>| p.len() > 0;
    let ghost f = |p: Seq<char>| trimmed(p);
    let ghost target = comma_pieces(setting@).map_values(f).filter(pred);
    assert(setting@.subrange(0, n as int) =~= setting@);
    assert(views(out@) =~= Seq::<Seq<char>>::empty());
    assert(target =~= views(out@) + comma_pieces(setting@.subrange(0, n as int)).map_values(f).filter(pred));
    loop
        invariant_except_break
            n == setting@.len(),
            start <= n,
            pred == (|p: Seq<char>| p.len() > 0),
            f == (|p: Seq<char>| trimmed(p)),
            target == views(out@) + comma_pieces(setting@.subrange(start as int, n as int)).map_values(f).filter(pred),
        ensures
            views(out@) == target,
        decreases n - start,
    {
        let end = next_comma(setting, start);
        let piece = setting.substring_char(start, end);
        let t = trim(piece);
        let ghost rest = setting@.subrange(start as int, n as int);
        let ghost before = views(out@);
        proof {
            lemma_before_comma_at(setting@, start as int, end as int);
            assert(before_comma(rest) == piece@);
            reveal_with_fuel(Seq::filter, 2);
            assert(seq![t@] =~= Seq::<Seq<char>>::empty().push(t@));
            assert(Seq::<Seq<char>>::empty().filter(pred) =~= Seq::<Seq<char>>::empty());
        }
        if t.unicode_len() > 0 {
            out.push(String::from_str(t));
            assert(views(out@) =~= before.push(t@));
        }
        if end == n {
            proof {
                assert(rest =~= piece@);
                assert(comma_pieces(rest) == seq![rest]);
                assert(seq![rest].map_values(f) =~= seq![t@]);
                if t@.len() > 0 {
                    assert(views(out@) =~= before + seq![t@]);
                } else {
                    assert(views(out@) =~= before + Seq::<Seq<char>>::empty());
                }
            }
            break;
        }
        proof {
            let next = setting@.subrange(end + 1, n as int);
            lemma_before_comma(rest);
            assert(rest.subrange(piece@.len() + 1int, rest.len() as int) =~= next);
            assert(comma_pieces(rest) == seq![piece@] + comma_pieces(next));
            assert((seq![piece@] + comma_pieces(next)).map_values(f) =~= seq![t@] + comma_pieces(next).map_values(f));
            Seq::<Seq<char>>::filter_distributes_over_add(seq![t@], comma_pieces(next).map_values(f), pred);
            if t@.len() > 0 {
                assert(views(out@) + comma_pieces(next).map_values(f).filter(pred) =~= before + (seq![t@]
                    + comma_pieces(next).map_values(f).filter(pred)));
            } else {
                assert(seq![t@].filter(pred) =~= Seq::<Seq<char>>::empty());
                assert(views(out@) + comma_pieces(next).map_values(f).filter(pred) =~= before + (seq![t@].filter(pred)
                    + comma_pieces(next).map_values(f).filter(pred)));
            }
        }
        start = end + 1;
    }
    out
}

} // verus!
