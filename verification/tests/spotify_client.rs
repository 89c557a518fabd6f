use music_library::catalog::CatalogError;
use music_library::spotify_catalog::{failure, sanitize, token_lifetime, Config, FailureBody};

fn secrets() -> Vec<String> {
    vec!["private-secret".into(), "private-client".into(), "private-token".into()]
}

#[test]
fn explicit_market_and_credentials_are_required() {
    assert!(Config::new("id".into(), "secret".into(), "".into()).is_err());
    assert!(Config::new("".into(), "secret".into(), "US".into()).is_err());
    assert!(Config::new("id".into(), "  ".into(), "US".into()).is_err());
    assert!(Config::new("id".into(), "secret".into(), "USA".into()).is_err());
    assert!(Config::new("id".into(), "secret".into(), "u1".into()).is_err());
    assert_eq!(Config::new("id".into(), "secret".into(), "us".into()).unwrap().market(), "US");
    match Config::new("".into(), "secret".into(), "US".into()) {
        Err(CatalogError::Configuration { status: 0, message }) => {
            assert_eq!(message, "Set SPOTIFY_CLIENT_ID and SPOTIFY_CLIENT_SECRET")
        }
        _ => panic!("expected a configuration error"),
    }
}

#[test]
fn errors_classify_quota_service_configuration_and_request_failures() {
    for (status, unavailable) in [(429, true), (503, true), (500, true), (403, false), (400, false)] {
        let body = FailureBody {
            reason: "QUOTA_EXCEEDED".into(),
            message: Some("private-secret private-token".into()),
        };
        let error = failure(status, false, &body, Some("30".into()), &secrets());
        assert_eq!(error.is_provider_unavailable(), unavailable);
        assert!(error.message().contains(&status.to_string()));
        assert!(!format!("{error:?}").contains("private-secret"));
        assert!(!format!("{error:?}").contains("private-token"));
        if status == 429 {
            assert!(
                matches!(&error, CatalogError::RateLimited { retry_after: Some(r), message, .. } if r == "30" && message.contains("QUOTA_EXCEEDED"))
            );
        }
    }
    let body = FailureBody { reason: String::new(), message: None };
    assert!(matches!(failure(400, true, &body, None, &secrets()), CatalogError::Configuration { status: 400, .. }));
    assert!(matches!(failure(401, false, &body, None, &secrets()), CatalogError::Configuration { status: 401, .. }));
    assert_eq!(
        failure(404, false, &body, None, &secrets()),
        CatalogError::Other("Spotify HTTP 404: Catalog request failed; reason=".into())
    );
    assert_eq!(
        failure(400, true, &body, None, &secrets()).message(),
        "Spotify HTTP 400: Check client credentials, app access and Premium eligibility; reason="
    );
}

#[test]
fn redaction_replaces_every_secret_and_bounds_the_text() {
    assert_eq!(
        sanitize("a private-secret b private-client private-secret", &secrets()),
        "a [REDACTED] b [REDACTED] [REDACTED]"
    );
    let long = "x".repeat(1000);
    assert_eq!(sanitize(&long, &secrets()).chars().count(), 400);
    assert_eq!(sanitize("aaa", &vec!["aa".into()]), "[REDACTED]a");
}

#[test]
fn token_lifetimes_are_capped_and_used_early() {
    assert_eq!(token_lifetime("t", "Bearer", 3600), Ok(3570));
    assert_eq!(token_lifetime("t", "bearer", 100), Ok(90));
    assert_eq!(token_lifetime("t", "bearer", 1_000_000), Ok(86370));
    assert!(token_lifetime("", "bearer", 100).is_err());
    assert!(token_lifetime("t", "mac", 100).is_err());
    assert!(token_lifetime("t", "bearer", 0).is_err());
}

#[test]
fn an_empty_secret_is_replaced_as_str_replace_does() {
    assert_eq!(sanitize("ab", &vec![String::new()]), "ab".replace("", "[REDACTED]"));
    assert_eq!(sanitize("", &vec![String::new()]), "[REDACTED]");
}
