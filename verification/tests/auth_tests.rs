use meetingtime::auth::{
    check_token, consent_request, Freshness, expiry_after, expiry_representable, grant_token, needs_refresh, parse_code,
    redirect_response, renew_token, AuthError, Lifetime, Token,
};
use meetingtime::text::decimal;
use meetingtime::time::Instant;

const T0: i64 = 1_714_557_600; // 2024-05-01T10:00:00Z

fn at(secs: i64, nanos: u32) -> Instant {
    Instant { secs, nanos }
}

#[test]
fn parse_code_from_http_request() {
    let req = "GET /?state=xyz&code=4/0AbCd-ef&scope=https://www.googleapis.com/auth/calendar.readonly HTTP/1.1\r\nHost: localhost:8080\r\n\r\n";
    assert_eq!(parse_code(req), Ok("4/0AbCd-ef".to_string()));
}

#[test]
fn parse_code_from_pasted_url_at_end() {
    assert_eq!(parse_code("http://localhost:8080/?code=xyz"), Ok("xyz".to_string()));
}

#[test]
fn parse_code_stops_at_space() {
    assert_eq!(parse_code("GET /?code=abc HTTP/1.1"), Ok("abc".to_string()));
}

#[test]
fn parse_code_trims_white_space() {
    assert_eq!(parse_code("code=\tabc\r\n"), Ok("abc".to_string()));
    assert_eq!(parse_code("code=\u{3000}abc\u{85}"), Ok("abc".to_string()));
}

#[test]
fn parse_code_empty_code() {
    assert_eq!(parse_code("code= abc"), Ok(String::new()));
    assert_eq!(parse_code("code=&x=1"), Ok(String::new()));
}

#[test]
fn parse_code_uses_first_marker() {
    assert_eq!(parse_code("a=1&code=first&code=second"), Ok("first".to_string()));
}

#[test]
fn parse_code_non_ascii_prefix() {
    assert_eq!(parse_code("héllo code=ünï&x"), Ok("ünï".to_string()));
}

#[test]
fn parse_code_missing() {
    assert_eq!(parse_code("GET /?error=access_denied HTTP/1.1"), Err(AuthError::NoCode));
    assert_eq!(parse_code(""), Err(AuthError::NoCode));
    assert_eq!(parse_code("cod"), Err(AuthError::NoCode));
    assert_eq!(parse_code("code"), Err(AuthError::NoCode));
}

#[test]
fn redirect_response_is_exact() {
    let body = "<html><body><h2>Authorization successful!</h2><p>You can close this tab and return to the terminal.</p></body></html>";
    let expected = format!(
        "HTTP/1.1 200 OK\r\nContent-Type: text/html\r\nContent-Length: {}\r\nConnection: close\r\n\r\n{}",
        body.len(),
        body
    );
    assert_eq!(redirect_response(), expected);
    assert!(redirect_response().contains("Content-Length: 117\r\n"));
}

#[test]
fn decimal_writes_numbers() {
    assert_eq!(decimal(0), "0");
    assert_eq!(decimal(7), "7");
    assert_eq!(decimal(10), "10");
    assert_eq!(decimal(117), "117");
    assert_eq!(decimal(u64::MAX), u64::MAX.to_string());
}

fn token(expires_at: Instant) -> Token {
    Token {
        access_token: "old-access".to_string(),
        refresh_token: "old-refresh".to_string(),
        expires_at,
    }
}

#[test]
fn token_needs_refresh_at_five_minutes() {
    let now = at(T0, 0);
    assert!(needs_refresh(&token(at(T0 + 300, 0)), &now));
    assert!(!needs_refresh(&token(at(T0 + 300, 1)), &now));
    assert!(!needs_refresh(&token(at(T0 + 3600, 0)), &now));
    assert!(needs_refresh(&token(at(T0 - 10, 0)), &now));
}

#[test]
fn token_refresh_leap_second_counts_back() {
    // A leap second at 23:59:60 of the previous day, read at 00:05:00.5 of the next.
    let day_end = 1_483_228_799; // 2016-12-31T23:59:59Z
    let leap = at(day_end, 1_500_000_000);
    let now = at(day_end + 1, 0);
    // The leap second lies half a second after `now` by chrono's measure.
    assert!(needs_refresh(&token(leap), &now));
    let later = at(day_end + 1000, 0);
    assert!(!needs_refresh(&token(later), &now));
}

#[test]
fn expiry_defaults_to_one_hour() {
    let now = at(T0, 250);
    assert_eq!(expiry_after(&now, None), Ok(at(T0 + 3600, 250)));
    assert_eq!(
        expiry_after(&now, Some(Lifetime { secs: 10, nanos: 999_999_900 })),
        Ok(at(T0 + 11, 150))
    );
}

#[test]
fn expiry_rejects_lifetime_beyond_time_delta() {
    let now = at(T0, 0);
    let too_long = Lifetime { secs: 9_223_372_036_854_775, nanos: 808_000_000 };
    assert!(expiry_representable(&now, Some(too_long)));
    assert_eq!(expiry_after(&now, Some(too_long)), Err(AuthError::LifetimeOutOfRange));
    let longest = Lifetime { secs: 9_223_372_036_854_775, nanos: 807_000_000 };
    assert!(!expiry_representable(&now, Some(longest)));
    let ok = Lifetime { secs: 3_599, nanos: 0 };
    assert!(expiry_representable(&now, Some(ok)));
}

#[test]
fn grant_requires_refresh_token() {
    let now = at(T0, 0);
    let r = grant_token(&now, "acc".to_string(), None, Some(Lifetime { secs: 3599, nanos: 0 }));
    assert_eq!(r.unwrap_err(), AuthError::NoRefreshToken);
    let t = grant_token(&now, "acc".to_string(), Some("ref".to_string()), None).unwrap();
    assert_eq!(t.access_token, "acc");
    assert_eq!(t.refresh_token, "ref");
    assert_eq!(t.expires_at, at(T0 + 3600, 0));
    assert!(!needs_refresh(&t, &now));
}

#[test]
fn grant_reports_lifetime_error_first() {
    let now = at(T0, 0);
    let too_long = Lifetime { secs: u64::MAX, nanos: 0 };
    let r = grant_token(&now, "acc".to_string(), None, Some(too_long));
    assert_eq!(r.unwrap_err(), AuthError::LifetimeOutOfRange);
}

#[test]
fn renewal_keeps_refresh_token_when_omitted() {
    let now = at(T0, 0);
    let t = renew_token(token(at(T0 + 10, 0)), &now, "new-access".to_string(), None, None).unwrap();
    assert_eq!(t.access_token, "new-access");
    assert_eq!(t.refresh_token, "old-refresh");
    assert_eq!(t.expires_at, at(T0 + 3600, 0));
    let t2 = renew_token(
        token(at(T0 + 10, 0)),
        &now,
        "a2".to_string(),
        Some("r2".to_string()),
        Some(Lifetime { secs: 60, nanos: 0 }),
    )
    .unwrap();
    assert_eq!(t2.refresh_token, "r2");
    assert_eq!(t2.expires_at, at(T0 + 60, 0));
    assert!(needs_refresh(&t2, &now));
}

#[test]
fn error_messages() {
    assert_eq!(AuthError::NoCode.message(), "no code= found — did you paste the right URL?");
    assert_eq!(
        AuthError::NoRefreshToken.message(),
        "no refresh_token in response — ensure access_type=offline and prompt=consent were set"
    );
    assert_eq!(
        AuthError::LifetimeOutOfRange.message(),
        "Source duration value is out of range for the target type"
    );
    assert_eq!(
        parse_code("nothing here").unwrap_err().message(),
        "no code= found — did you paste the right URL?"
    );
}

#[test]
fn fresh_token_is_kept_stale_is_renewed() {
    let now = at(T0, 0);
    match check_token(token(at(T0 + 301, 0)), &now) {
        Freshness::Fresh(t) => {
            assert_eq!(t.access_token, "old-access");
            assert_eq!(t.refresh_token, "old-refresh");
            assert_eq!(t.expires_at, at(T0 + 301, 0));
        }
        Freshness::Stale(_) => panic!("token with more than five minutes left was stale"),
    }
    assert!(matches!(check_token(token(at(T0 + 300, 0)), &now), Freshness::Stale(_)));
}

#[test]
fn renewed_token_is_kept_by_next_check() {
    let now = at(T0, 0);
    let renewed = renew_token(token(at(T0, 0)), &now, "a".to_string(), None, None).unwrap();
    match check_token(renewed, &at(T0 + 3299, 0)) {
        Freshness::Fresh(t) => assert_eq!(t.expires_at, at(T0 + 3600, 0)),
        Freshness::Stale(_) => panic!("a renewed token was renewed again"),
    }
}

#[test]
fn consent_request_asks_offline_access() {
    let (scope, params) = consent_request();
    assert_eq!(scope, "https://www.googleapis.com/auth/calendar.readonly");
    assert_eq!(
        params,
        vec![
            ("access_type".to_string(), "offline".to_string()),
            ("prompt".to_string(), "consent".to_string()),
        ]
    );
}
