use cxporter::auth::{
    export_auth, export_text, find_token, inspect_auth, is_sensitive_header,
    is_signed_in_by_runtime, AuthFailure, AuthWarning, HeaderFormat, HttpAuth, ServerTransport,
    StoreMode, StoredEntry, StoredToken,
};

fn pair(name: &str, value: &str) -> (String, String) {
    (name.to_string(), value.to_string())
}

fn http() -> HttpAuth {
    HttpAuth {
        bearer_token_env_var: None,
        http_headers: Vec::new(),
        env_http_headers: Vec::new(),
        mcp_oauth: None,
        store_mode: StoreMode::Keyring,
        codex_runtime: false,
    }
}

#[test]
fn sensitive_headers_are_known() {
    for name in ["Authorization", "cookie", "X-API-Key", "My-Token", "client-SECRET"] {
        assert!(is_sensitive_header(name));
    }
    for name in ["Accept", "Token", "X-Token-Id", "", "Secret"] {
        assert!(!is_sensitive_header(name));
    }
}

#[test]
fn inspection_tells_names_and_no_values() {
    let auth = HttpAuth {
        bearer_token_env_var: Some("DD_TOKEN".to_string()),
        http_headers: vec![pair("X-Api-Key", "hidden"), pair("Accept", "also hidden")],
        env_http_headers: vec![pair("X-Org", "ORG")],
        mcp_oauth: Some(StoredToken { access_token: "hidden".to_string(), expires_at: Some(10) }),
        codex_runtime: true,
        ..http()
    };
    let report = inspect_auth("dd", &ServerTransport::Http(auth), 10).unwrap();
    assert_eq!(report.bearer_token_env_var.as_deref(), Some("DD_TOKEN"));
    assert_eq!(report.http_headers[0].name, "X-Api-Key");
    assert!(report.http_headers[0].sensitive);
    assert!(!report.http_headers[1].sensitive);
    assert_eq!(report.env_http_headers, vec![pair("X-Org", "ORG")]);
    assert_eq!(report.oauth_expires_at, Some(Some(10)));
    assert_eq!(report.store_mode, StoreMode::Keyring);
    assert_eq!(report.warnings, vec![AuthWarning::TokenExpired, AuthWarning::RuntimeAuth]);
    assert!(!format!("{report:?}").contains("hidden"));
}

#[test]
fn stdio_servers_are_not_supported() {
    let inspected = inspect_auth("s", &ServerTransport::Stdio, 0).unwrap_err();
    assert_eq!(
        inspected.message(),
        "MCP server 's' uses stdio; auth commands support streamable HTTP servers only"
    );
    assert!(matches!(
        export_auth("s", &ServerTransport::Stdio, true, &Vec::new(), 0),
        Err(AuthFailure::StdioUnsupported { .. })
    ));
}

#[test]
fn export_wants_to_be_told_to_reveal() {
    let refused = export_auth("s", &ServerTransport::Http(http()), false, &Vec::new(), 0);
    assert_eq!(
        refused.unwrap_err().message(),
        "auth export prints secret header values; pass --reveal to confirm"
    );
}

#[test]
fn export_resolves_every_source() {
    let auth = HttpAuth {
        bearer_token_env_var: Some("TOKEN".to_string()),
        http_headers: vec![pair("A", "1")],
        env_http_headers: vec![pair("B", "VAR")],
        ..http()
    };
    let environment = vec![pair("TOKEN", "secret"), pair("VAR", "2")];
    let export =
        export_auth("s", &ServerTransport::Http(auth), true, &environment, 0).unwrap();
    assert_eq!(
        export.headers,
        vec![pair("A", "1"), pair("B", "2"), pair("Authorization", "Bearer secret")]
    );
    assert!(export.warnings.is_empty());
}

#[test]
fn export_hands_out_the_stored_token() {
    let token = |expires_at| {
        ServerTransport::Http(HttpAuth {
            mcp_oauth: Some(StoredToken { access_token: "abc".to_string(), expires_at }),
            ..http()
        })
    };
    let fresh = export_auth("s", &token(Some(11)), true, &Vec::new(), 10).unwrap();
    assert_eq!(fresh.headers, vec![pair("Authorization", "Bearer abc")]);
    assert!(fresh.warnings.is_empty());
    let old = export_auth("s", &token(Some(9)), true, &Vec::new(), 10).unwrap();
    assert_eq!(old.warnings, vec![AuthWarning::TokenExpired]);
    let endless = export_auth("s", &token(None), true, &Vec::new(), 10).unwrap();
    assert!(endless.warnings.is_empty());
}

#[test]
fn export_names_what_is_missing() {
    let bearer = HttpAuth { bearer_token_env_var: Some("TOKEN".to_string()), ..http() };
    assert_eq!(
        export_auth("s", &ServerTransport::Http(bearer), true, &Vec::new(), 0)
            .unwrap_err()
            .message(),
        "environment variable TOKEN is not set"
    );
    let header = HttpAuth {
        env_http_headers: vec![pair("A", "ONE"), pair("B", "TWO")],
        ..http()
    };
    assert!(matches!(
        export_auth("s", &ServerTransport::Http(header), true, &vec![pair("TWO", "2")], 0),
        Err(AuthFailure::MissingEnvVar { name }) if name == "ONE"
    ));
}

#[test]
fn export_of_runtime_auth_is_not_supported() {
    let auth = HttpAuth { codex_runtime: true, ..http() };
    assert_eq!(
        export_auth("s", &ServerTransport::Http(auth), true, &Vec::new(), 0)
            .unwrap_err()
            .message(),
        "MCP server 's' is signed in by the Codex runtime; its auth cannot be exported"
    );
}

#[test]
fn headers_are_written_for_shells_and_curl() {
    let headers = vec![pair("X-Api-Key", "it's"), pair("Authorization", "Bearer a b")];
    assert_eq!(
        export_text(&headers, HeaderFormat::Env),
        "X_API_KEY='it'\\''s'\nAUTHORIZATION='Bearer a b'\n"
    );
    assert_eq!(
        export_text(&headers, HeaderFormat::Curl),
        "-H 'X-Api-Key: it'\\''s'\n-H 'Authorization: Bearer a b'\n"
    );
    assert_eq!(export_text(&Vec::new(), HeaderFormat::Curl), "");
}

#[test]
fn stored_tokens_are_found_by_name_and_address() {
    let entry = |name: &str, url: &str, token: &str| StoredEntry {
        server_name: name.to_string(),
        server_url: url.to_string(),
        access_token: token.to_string(),
        expires_at: Some(7),
    };
    let entries = vec![entry("a", "u1", "one"), entry("a", "u2", "two"), entry("a", "u2", "three")];
    let token = find_token(&entries, "a", "u2").unwrap();
    assert_eq!(token.access_token, "two");
    assert_eq!(token.expires_at, Some(7));
    assert!(find_token(&entries, "b", "u1").is_none());
}

#[test]
fn servers_that_nobody_configured_are_signed_in_by_the_runtime() {
    let configured = vec!["datadog".to_string()];
    assert!(!is_signed_in_by_runtime(&configured, "datadog"));
    assert!(is_signed_in_by_runtime(&configured, "codex_apps"));
}

#[test]
fn warnings_are_put_in_words() {
    assert_eq!(
        AuthWarning::TokenExpired.message(),
        "the stored access token has expired; the provider will reject it with 401"
    );
    assert_eq!(
        AuthWarning::RuntimeAuth.message(),
        "the Codex runtime signs requests in; the auth cannot be exported"
    );
}
