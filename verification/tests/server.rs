use kcm::rbac::Permission;
use kcm::server::{
    auth_enabled, auth_precheck, auth_verdict, cors_action, cors_headers, extract_client_id, extract_token,
    forbidden_body, init_acl_manager, parse_origins, required_permission, requires_auth, trim, AuthVerdict,
    CorsAction, CorsMiddleware, RateLimitGuard,
};
use kcm::types::ContextID;

#[test]
fn paths_needing_auth() {
    assert!(requires_auth("/api/v1/facts"));
    assert!(requires_auth("/facts/3"));
    assert!(!requires_auth("/health"));
    assert!(!requires_auth("/api/v1/stats"));
}

#[test]
fn token_extraction() {
    assert_eq!(extract_token(Some("Bearer  abc "), None), Some("abc".to_string()));
    assert_eq!(extract_token(Some("Basic abc"), Some(" key ")), Some("key".to_string()));
    assert_eq!(extract_token(Some("Bearer   "), None), None);
    assert_eq!(extract_token(None, Some("   ")), None);
    assert_eq!(extract_token(None, None), None);
    assert_eq!(trim("  x y \t"), "x y");
}

#[test]
fn permissions_by_method() {
    assert_eq!(required_permission("GET"), Permission::Read);
    assert_eq!(required_permission("HEAD"), Permission::Read);
    assert_eq!(required_permission("OPTIONS"), Permission::Read);
    assert_eq!(required_permission("POST"), Permission::Write);
    assert_eq!(required_permission("DELETE"), Permission::Write);
}

#[test]
fn auth_setting() {
    assert!(auth_enabled(None));
    assert!(auth_enabled(Some("true")));
    assert!(!auth_enabled(Some("false")));
    assert!(!auth_enabled(Some("0")));
}

#[test]
fn guard_decisions() {
    let creds = vec![
        ("alice".to_string(), vec!["reader".to_string()]),
        ("bob".to_string(), vec!["writer".to_string(), "nosuchrole".to_string()]),
        ("carol".to_string(), vec!["admin".to_string()]),
    ];
    let acl = init_acl_manager(&creds);
    assert!(acl.check_permission("carol", ContextID(0), Permission::Admin));
    assert_eq!(auth_precheck(false, "/facts", None, None), Err(AuthVerdict::Forward));
    assert_eq!(auth_precheck(true, "/health", None, None), Err(AuthVerdict::Forward));
    assert_eq!(auth_precheck(true, "/facts", None, None), Err(AuthVerdict::MissingCredentials));
    assert_eq!(auth_precheck(true, "/facts", Some("Bearer t1"), None), Ok("t1".to_string()));
    assert_eq!(auth_verdict(None, "GET", &acl), AuthVerdict::InvalidKey);
    assert_eq!(auth_verdict(Some("alice"), "GET", &acl), AuthVerdict::Forward);
    assert_eq!(auth_verdict(Some("alice"), "POST", &acl), AuthVerdict::Forbidden(Permission::Write));
    assert_eq!(auth_verdict(Some("bob"), "POST", &acl), AuthVerdict::Forward);
    assert_eq!(auth_verdict(Some("carol"), "DELETE", &acl), AuthVerdict::Forward);
    assert_eq!(auth_verdict(Some("dave"), "GET", &acl), AuthVerdict::Forbidden(Permission::Read));
    assert_eq!(
        forbidden_body(Permission::Write),
        "{\"error\":\"Insufficient permissions: requires write access\",\"status\":403}"
    );
}

#[test]
fn cors_decisions() {
    let allowed = parse_origins(" https://a.example , ,https://b.example");
    assert_eq!(allowed, vec!["https://a.example".to_string(), "https://b.example".to_string()]);
    assert_eq!(cors_action(None, &allowed, false), CorsAction::PassThrough);
    assert_eq!(cors_action(Some("https://c.example"), &allowed, false), CorsAction::Forbidden);
    assert_eq!(cors_action(Some("https://a.example"), &allowed, true), CorsAction::Preflight);
    assert_eq!(cors_action(Some("https://b.example"), &allowed, false), CorsAction::Forward);
    assert_eq!(cors_action(Some("https://any.example"), &Vec::new(), false), CorsAction::Forward);
    let headers = cors_headers("https://a.example");
    assert_eq!(headers[0], ("access-control-allow-origin".to_string(), "https://a.example".to_string()));
    assert_eq!(headers[3], ("access-control-max-age".to_string(), "3600".to_string()));
    assert_eq!(headers.len(), 4);
}

#[test]
fn client_identity() {
    assert_eq!(extract_client_id(Some("alice"), Some("1.2.3.4"), None, None), "alice");
    assert_eq!(extract_client_id(Some(""), Some(" 1.2.3.4 , 5.6.7.8"), None, None), "ip:1.2.3.4");
    assert_eq!(extract_client_id(None, Some(" ,9.9.9.9"), Some(" 10.0.0.1 "), None), "ip:10.0.0.1");
    assert_eq!(extract_client_id(None, None, None, Some("127.0.0.1")), "ip:127.0.0.1");
    assert_eq!(extract_client_id(None, None, None, None), "unknown");
}

#[test]
fn unicode_whitespace_is_trimmed() {
    assert_eq!(trim("\u{2003}tok\u{00A0}"), "tok");
    assert_eq!(extract_token(Some("Bearer \u{2003}abc\u{2003}"), None), Some("abc".to_string()));
}

#[test]
fn cors_guard_reads_its_setting() {
    let guard = CorsMiddleware::new(Some(" https://a.com , ,https://b.com"));
    assert_eq!(guard.allowed_origins, vec!["https://a.com".to_string(), "https://b.com".to_string()]);
    assert_eq!(guard.action(None, false), CorsAction::PassThrough);
    assert_eq!(guard.action(Some("https://c.com"), false), CorsAction::Forbidden);
    assert_eq!(guard.action(Some("https://a.com"), true), CorsAction::Preflight);
    assert_eq!(guard.action(Some("https://b.com"), false), CorsAction::Forward);
}

#[test]
fn cors_guard_without_setting_allows_any_origin() {
    let guard = CorsMiddleware::new(None);
    assert!(guard.allowed_origins.is_empty());
    assert_eq!(guard.action(Some("https://anywhere.example"), false), CorsAction::Forward);
    let empty = CorsMiddleware::new(Some(""));
    assert!(empty.allowed_origins.is_empty());
    let _guard = RateLimitGuard::new();
    let _other = RateLimitGuard::default();
}
