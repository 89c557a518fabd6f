use music_library::domain::ExternalIdentity;
use music_library::spotify_playback::{
    authorization_url, body_verdict, callback, challenge, command_path, random, status_verdict,
    token_form, token_grant, BodyVerdict, Error,
    ErrorBody, Song, StatusVerdict, TokenReply,
};

fn id(provider: &str, kind: &str, value: &str) -> ExternalIdentity {
    ExternalIdentity {
        provider: provider.into(),
        kind: kind.into(),
        external_id: value.into(),
    }
}

#[test]
fn pkce_s256_rfc_vector_and_randomness() {
    assert_eq!(
        challenge("dBjftJeZ4CVP-mB92K27uhbUJU1p1r_wW1gFWFOEjXk"),
        "E9Melhoa2OwvFrEMTJguCHaoeK1t8URWbuGJSstw-cM"
    );
    let a = random().unwrap();
    let b = random().unwrap();
    assert_ne!(a, b);
    assert_eq!(a.len(), 43);
    assert!(a.bytes().all(|b| b.is_ascii_alphanumeric() || b == b'-' || b == b'_'));
}

#[test]
fn callback_validates_state_denial_path_and_duplicates() {
    assert_eq!(callback("/callback?state=expected&code=ok", "expected"), Ok("ok".into()));
    for target in [
        "/callback?state=wrong&code=ok",
        "/callback?code=ok",
        "/callback?state=expected&state=expected&code=ok",
        "/other?state=expected&code=ok",
    ] {
        assert_eq!(callback(target, "expected"), Err(Error::InvalidState));
    }
    assert_eq!(
        callback("/callback?state=expected&error=access_denied", "expected"),
        Err(Error::Denied)
    );
}

#[test]
fn callback_decodes_values_and_requires_one_nonempty_code() {
    assert_eq!(callback("/callback?state=a%20b&code=x%2By", "a b"), Ok("x+y".into()));
    assert_eq!(callback("/callback?state=s&code=", "s"), Err(Error::InvalidState));
    assert_eq!(callback("/callback?state=s&code=a&code=b", "s"), Err(Error::InvalidState));
    assert_eq!(callback("/callback?state=wrong&error=denied", "s"), Err(Error::InvalidState));
}

#[test]
fn no_association_and_recording_ids_cannot_construct_playback_request() {
    let track = "4uLU6hMCjMI75M1A2tKUQC";
    assert_eq!(Song::from_associations(&[]), Err(Error::NoAssociation));
    assert_eq!(
        Song::from_associations(&[id("spotify", "recording", track)]),
        Err(Error::NoAssociation)
    );
    let song = Song::from_associations(&[
        id("musicbrainz", "recording", "00000000-0000-4000-8000-000000000002"),
        id("spotify", "track", track),
        id("spotify", "track", track),
    ])
    .unwrap();
    assert_eq!(song.uri(), format!("spotify:track:{track}"));
    assert_eq!(
        Song::from_associations(&[
            id("spotify", "track", track),
            id("spotify", "track", "6rqhFgbbKwnb9MLmUQDhG6"),
        ]),
        Err(Error::NoAssociation)
    );
    assert_eq!(
        Song::from_associations(&[id("spotify", "track", "short")]),
        Err(Error::NoAssociation)
    );
    assert_eq!(
        Song::from_associations(&[id("spotify", "track", "4uLU6hMCjMI75M1A2tKU-C")]),
        Err(Error::NoAssociation)
    );
}

#[test]
fn rate_limits_and_service_failures_pause_requests() {
    assert_eq!(
        status_verdict(429, Some("7")),
        StatusVerdict::Fail { error: Error::RateLimited(7), pause: 7 }
    );
    assert_eq!(
        status_verdict(429, None),
        StatusVerdict::Fail { error: Error::RateLimited(30), pause: 30 }
    );
    assert_eq!(
        status_verdict(429, Some("0")),
        StatusVerdict::Fail { error: Error::RateLimited(1), pause: 1 }
    );
    assert_eq!(
        status_verdict(429, Some("1000000")),
        StatusVerdict::Fail { error: Error::RateLimited(1000000), pause: 86400 }
    );
    assert_eq!(
        status_verdict(503, None),
        StatusVerdict::Fail { error: Error::ServiceUnavailable, pause: 30 }
    );
    assert_eq!(status_verdict(204, None), StatusVerdict::NoContent);
    assert_eq!(status_verdict(200, None), StatusVerdict::ReadBody);
    assert_eq!(status_verdict(403, Some("5")), StatusVerdict::ReadBody);
}

fn body(error: Option<&str>, reason: &str, message: &str) -> ErrorBody {
    ErrorBody {
        error: error.map(str::to_owned),
        reason: reason.into(),
        message: message.into(),
    }
}

#[test]
fn capability_scope_and_grant_errors_are_classified() {
    assert_eq!(body_verdict(200, &body(None, "", "")), BodyVerdict::Accept);
    assert_eq!(body_verdict(400, &body(Some("invalid_grant"), "", "")), BodyVerdict::Invalidate);
    assert_eq!(
        body_verdict(200, &body(Some("unauthorized_client"), "", "")),
        BodyVerdict::Fail(Error::Configuration)
    );
    assert_eq!(body_verdict(401, &body(None, "", "")), BodyVerdict::Fail(Error::AuthorizationRequired));
    assert_eq!(
        body_verdict(403, &body(None, "PREMIUM_REQUIRED", "")),
        BodyVerdict::Fail(Error::CapabilityUnavailable)
    );
    assert_eq!(
        body_verdict(403, &body(None, "UNKNOWN", "Player command failed: Premium required")),
        BodyVerdict::Fail(Error::CapabilityUnavailable)
    );
    assert_eq!(
        body_verdict(403, &body(None, "", "Insufficient client SCOPE")),
        BodyVerdict::Fail(Error::InsufficientScope)
    );
    assert_eq!(
        body_verdict(403, &body(None, "RESTRICTION_VIOLATED", "Restricted")),
        BodyVerdict::Fail(Error::RestrictedDevice)
    );
    assert_eq!(body_verdict(403, &body(None, "", "")), BodyVerdict::Fail(Error::ApiRejected(403)));
    assert_eq!(body_verdict(404, &body(None, "", "")), BodyVerdict::Fail(Error::DeviceUnavailable));
    assert_eq!(body_verdict(418, &body(None, "", "")), BodyVerdict::Fail(Error::ApiRejected(418)));
}

fn reply(access: Option<&str>, refresh: Option<&str>, kind: Option<&str>, expires: Option<u64>, scope: Option<&str>) -> TokenReply {
    TokenReply {
        access_token: access.map(String::from),
        expires_in: expires,
        token_type: kind.map(String::from),
        scope: scope.map(String::from),
        refresh_token: refresh.map(String::from),
    }
}

#[test]
fn refresh_preserves_refresh_token_and_original_authorization_time() {
    let token = reply(Some("private-access"), Some("private-refresh"), Some("Bearer"), Some(3600), None);
    let first = token_grant(&token, true, None, "client", 1_000).unwrap();
    assert_eq!(first.refresh_token, "private-refresh");
    assert_eq!(first.authorized_at, 1_000);
    assert_eq!(first.access_expires_at, 1_000 + 3600 - 30);
    let refresh = reply(Some("renewed-access"), None, Some("Bearer"), Some(3600), None);
    let renewed = token_grant(&refresh, false, Some(&first), "client", 5_000).unwrap();
    assert_eq!(renewed.access_token, "renewed-access");
    assert_eq!(renewed.refresh_token, "private-refresh");
    assert_eq!(renewed.authorized_at, 1_000);
    assert_eq!(renewed.access_expires_at, 5_000 + 3600 - 30);
    assert_eq!(renewed.client_id, "client");
}

#[test]
fn token_replies_are_checked_field_by_field() {
    let ok = |r: &TokenReply| token_grant(r, true, None, "c", 100);
    assert_eq!(ok(&reply(None, Some("r"), Some("bearer"), Some(60), None)), Err(Error::InvalidResponse));
    assert_eq!(ok(&reply(Some(""), Some("r"), Some("bearer"), Some(60), None)), Err(Error::InvalidResponse));
    assert_eq!(ok(&reply(Some("a"), Some("r"), Some("bearer"), Some(0), None)), Err(Error::InvalidResponse));
    assert_eq!(ok(&reply(Some("a"), Some("r"), Some("mac"), Some(60), None)), Err(Error::InvalidResponse));
    assert_eq!(ok(&reply(Some("a"), Some("r"), None, Some(60), None)), Err(Error::InvalidResponse));
    assert_eq!(
        ok(&reply(Some("a"), Some("r"), Some("BEARER"), Some(60), Some("user-read-playback-state"))),
        Err(Error::InsufficientScope)
    );
    assert_eq!(ok(&reply(Some("a"), None, Some("bearer"), Some(60), None)), Err(Error::InvalidResponse));
    let granted = ok(&reply(
        Some("a"),
        Some("r"),
        Some("BeArEr"),
        Some(60),
        Some("streaming user-modify-playback-state  user-read-playback-state"),
    ))
    .unwrap();
    // A tenth of a short lifetime is given up early.
    assert_eq!(granted.access_expires_at, 100 + 60 - 6);
    assert_eq!(
        token_grant(&reply(Some("a"), Some("r"), Some("bearer"), Some(5), None), false, None, "c", 100),
        Err(Error::AuthorizationRequired)
    );
    assert_eq!(
        token_grant(&reply(Some("a"), None, Some("bearer"), Some(5), None), false, None, "c", 100),
        Err(Error::InvalidResponse)
    );
}

#[test]
fn authorization_url_carries_the_pkce_request() {
    let mut expected = url::Url::parse("https://accounts.spotify.com/authorize").unwrap();
    expected.query_pairs_mut().extend_pairs([
        ("client_id", "client"),
        ("response_type", "code"),
        ("redirect_uri", "http://127.0.0.1:43821/callback"),
        ("scope", "user-read-playback-state user-modify-playback-state"),
        ("state", "st&te"),
        ("code_challenge_method", "S256"),
        ("code_challenge", "abc"),
    ]);
    assert_eq!(authorization_url("client", "st&te", "abc"), String::from(expected));
}

#[test]
fn token_forms_and_command_queries_are_form_encoded() {
    let fields = vec![("grant_type".to_string(), "refresh_token".to_string()), ("refresh_token".to_string(), "a b".to_string())];
    assert_eq!(token_form("client", &fields), "client_id=client&grant_type=refresh_token&refresh_token=a+b");
    assert_eq!(command_path("play", "dev 1", &None), "me/player/play?device_id=dev+1");
    assert_eq!(
        command_path("volume", "d", &Some(("volume_percent".to_string(), "50".to_string()))),
        "me/player/volume?device_id=d&volume_percent=50"
    );
}
