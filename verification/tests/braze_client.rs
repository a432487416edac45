use braze_sync::braze::error::{show_status, BrazeApiError};
use braze_sync::braze::{
    accept_pagination_url, backoff_wait, check_duplicate_names, check_pagination,
    classify_info_message, compute_backoff, next_step, parse_next_link, parse_retry_after,
    secs_until_date, BrazeClient, Call, InfoMessageClass, Method, NextStep, RetryState,
    BACKOFF_CAP_MS, RETRY_BUDGET_MS, RETRY_MAX_ATTEMPTS,
};
use braze_sync::endpoint::Endpoint;
use braze_sync::resource::Tag;
use chrono::{DateTime, Duration as ChronoDuration, Utc};

fn client() -> BrazeClient {
    BrazeClient::new(Endpoint::parse("https://rest.fra-02.braze.eu").unwrap())
}

fn header_date(t: DateTime<Utc>) -> String {
    t.format("%a, %d %b %Y %H:%M:%S GMT").to_string()
}

#[test]
fn retry_after_parses_integer_seconds() {
    assert_eq!(parse_retry_after(Some("5"), 0), Some(5));
}

#[test]
fn retry_after_parses_http_date() {
    let now = Utc::now();
    let future = now + ChronoDuration::seconds(10);
    let d = parse_retry_after(Some(&header_date(future)), now.timestamp())
        .expect("should parse HTTP-date");
    assert!((8..=12).contains(&d), "expected ~10s, got {d:?}");
}

#[test]
fn retry_after_past_http_date_clamps_to_zero() {
    let now = Utc::now();
    let past = now - ChronoDuration::seconds(30);
    assert_eq!(
        parse_retry_after(Some(&header_date(past)), now.timestamp()),
        Some(0)
    );
}

#[test]
fn retry_after_unparseable_returns_none() {
    assert_eq!(parse_retry_after(Some("not a date"), 0), None);
    assert_eq!(parse_retry_after(None, 0), None);
}

#[test]
fn retry_after_reads_the_date_itself() {
    assert_eq!(
        parse_retry_after(Some("Thu, 01 Jan 1970 00:01:40 GMT"), 30),
        Some(70)
    );
}

#[test]
fn dates_far_away_do_not_overflow() {
    assert_eq!(secs_until_date(5, 5), 0);
    assert_eq!(secs_until_date(4, 5), 0);
    assert_eq!(secs_until_date(i64::MAX, i64::MIN), i64::MAX as u64);
}

#[test]
fn backoff_without_header_falls_back_to_exponential_jitter() {
    for _ in 0..20 {
        let w = compute_backoff(None, 0, 60_000);
        assert!(w <= 500, "attempt=0 bound: {w:?}");
    }
    for _ in 0..20 {
        let w = compute_backoff(None, 10, 60_000);
        assert!(w <= BACKOFF_CAP_MS, "attempt=10 cap: {w:?}");
    }
    assert!((0..200).any(|_| compute_backoff(None, 10, 60_000) != 0));
}

#[test]
fn backoff_clamped_to_remaining_budget() {
    assert_eq!(compute_backoff(Some(30), 0, 5_000), 5_000);
    assert_eq!(compute_backoff(Some(3), 0, 5_000), 3_000);
    assert_eq!(compute_backoff(Some(u64::MAX), 0, 5_000), 5_000);
    assert_eq!(backoff_wait(None, 400, 5_000), 400);
    assert_eq!(backoff_wait(None, 400, 100), 100);
}

fn link(headers: &[&str]) -> Option<String> {
    parse_next_link(&headers.iter().map(|h| h.to_string()).collect())
}

#[test]
fn parse_next_link_single_rel() {
    assert_eq!(
        link(&[r#"<https://rest.example/custom_attributes/?cursor=abc>; rel="next""#]),
        Some("https://rest.example/custom_attributes/?cursor=abc".to_string())
    );
}

#[test]
fn parse_next_link_multiple_rels_picks_next() {
    assert_eq!(
        link(&[
            r#"<https://rest.example/?cursor=prev>; rel="prev", <https://rest.example/?cursor=next>; rel="next""#
        ]),
        Some("https://rest.example/?cursor=next".to_string())
    );
}

#[test]
fn parse_next_link_absent_returns_none() {
    assert_eq!(link(&[]), None);
}

#[test]
fn parse_next_link_without_next_rel_returns_none() {
    assert_eq!(
        link(&[r#"<https://rest.example/?cursor=prev>; rel="prev""#]),
        None
    );
}

#[test]
fn parse_next_link_scans_multiple_link_header_fields() {
    assert_eq!(
        link(&[
            r#"<https://rest.example/?cursor=prev>; rel="prev""#,
            r#"<https://rest.example/?cursor=next>; rel="next""#
        ]),
        Some("https://rest.example/?cursor=next".to_string())
    );
}

#[test]
fn parse_next_link_matches_space_delimited_rel_list() {
    assert_eq!(
        link(&[r#"<https://rest.example/?cursor=n>; rel="prev next""#]),
        Some("https://rest.example/?cursor=n".to_string())
    );
}

#[test]
fn get_absolute_rejects_cross_origin() {
    let err = client()
        .get_absolute("https://attacker.example/custom_attributes/?cursor=x")
        .unwrap_err();
    let msg = err.to_string();
    assert!(msg.contains("cross-origin"), "got {msg:?}");
}

#[test]
fn get_absolute_accepts_same_origin() {
    let url = "https://rest.fra-02.braze.eu/custom_attributes/?cursor=abc";
    assert_eq!(
        client()
            .get_absolute(url)
            .expect("same-origin URL should be accepted"),
        url
    );
}

#[test]
fn get_absolute_rejects_malformed_url() {
    let err = client().get_absolute("not a url").unwrap_err();
    let msg = err.to_string();
    assert!(msg.contains("malformed"), "got {msg:?}");
}

#[test]
fn another_port_is_another_origin() {
    let base = Endpoint::parse("https://rest.fra-02.braze.eu").unwrap();
    let same = "https://rest.fra-02.braze.eu:443/x";
    let other = "https://rest.fra-02.braze.eu:8443/x";
    assert!(accept_pagination_url(&base, same, Endpoint::parse(same)).is_ok());
    assert!(accept_pagination_url(&base, other, Endpoint::parse(other)).is_err());
}

#[test]
fn retries_attempt_cap_fires_on_degenerate_zero_retry_after() {
    let mut state = RetryState::start();
    let mut sent = 1;
    let err = loop {
        match next_step(state, 429, "") {
            NextStep::Retry => {
                let wait =
                    compute_backoff(Some(0), state.attempt, state.remaining_ms());
                assert_eq!(wait, 0);
                state = state.after_wait(wait);
                sent += 1;
            }
            NextStep::Fail(e) => break e,
            NextStep::Accept => panic!("a refusal was accepted"),
        }
    };
    assert!(
        matches!(err, BrazeApiError::RateLimitExhausted),
        "expected RateLimitExhausted, got {err:?}"
    );
    assert_eq!(sent, RETRY_MAX_ATTEMPTS + 1);
}

#[test]
fn retries_end_with_the_budget() {
    let mut state = RetryState::start();
    let mut waited = 0;
    while let NextStep::Retry = next_step(state, 429, "") {
        let wait = compute_backoff(Some(7), state.attempt, state.remaining_ms());
        waited += wait;
        state = state.after_wait(wait);
    }
    assert_eq!(waited, RETRY_BUDGET_MS);
    assert_eq!(state.remaining_ms(), 0);
}

#[test]
fn retries_on_429_and_succeeds() {
    let state = RetryState::start();
    assert_eq!(next_step(state, 429, ""), NextStep::Retry);
    let state = state.after_wait(compute_backoff(Some(0), 0, state.remaining_ms()));
    assert_eq!(next_step(state, 200, ""), NextStep::Accept);
}

#[test]
fn retries_exhausted_returns_rate_limit_exhausted() {
    let spent = RetryState {
        attempt: RETRY_MAX_ATTEMPTS,
        elapsed_ms: 0,
    };
    assert_eq!(
        next_step(spent, 429, ""),
        NextStep::Fail(BrazeApiError::RateLimitExhausted)
    );
    let late = RetryState {
        attempt: 1,
        elapsed_ms: RETRY_BUDGET_MS,
    };
    assert_eq!(
        next_step(late, 429, ""),
        NextStep::Fail(BrazeApiError::RateLimitExhausted)
    );
}

#[test]
fn unauthorized_returns_typed_error() {
    assert_eq!(
        next_step(RetryState::start(), 401, "invalid api key"),
        NextStep::Fail(BrazeApiError::Unauthorized)
    );
}

#[test]
fn server_error_carries_status_and_body() {
    match next_step(RetryState::start(), 500, "internal explosion") {
        NextStep::Fail(BrazeApiError::Http { status, body }) => {
            assert_eq!(status, 500);
            assert!(body.contains("internal explosion"));
        }
        other => panic!("expected Http, got {other:?}"),
    }
}

#[test]
fn every_error_has_its_text() {
    assert_eq!(
        BrazeApiError::Unauthorized.to_string(),
        "authentication failed (invalid api key)"
    );
    assert_eq!(
        BrazeApiError::Http {
            status: 500,
            body: "oops".into()
        }
        .to_string(),
        "HTTP 500 Internal Server Error: oops"
    );
    assert_eq!(
        BrazeApiError::Http {
            status: 42,
            body: "odd".into()
        }
        .to_string(),
        "HTTP 42: odd"
    );
    assert_eq!(
        BrazeApiError::RateLimitExhausted.to_string(),
        "rate limit retries exhausted"
    );
    assert_eq!(
        BrazeApiError::NotFound {
            resource: "catalog 'x'".into()
        }
        .to_string(),
        "Braze resource not found: catalog 'x'"
    );
    assert_eq!(
        BrazeApiError::Network("refused".into()).to_string(),
        "network error: refused"
    );
    assert_eq!(
        BrazeApiError::DuplicateNameInListResponse {
            endpoint: "/content_blocks/list",
            name: "a\"b".into(),
        }
        .to_string(),
        r#"Braze /content_blocks/list: duplicate name "a\"b" in list response"#
    );
    assert_eq!(
        BrazeApiError::PaginationNotImplemented {
            endpoint: "/catalogs",
            detail: "one page".into(),
        }
        .to_string(),
        "Braze /catalogs: pagination not implemented in v0.2.0 (one page); \
         aborting to prevent duplicate-create or silent orphan loss"
    );
    assert_eq!(
        BrazeApiError::UnexpectedApiMessage {
            endpoint: "/content_blocks/info",
            message: "hiccup".into(),
        }
        .to_string(),
        "Braze /content_blocks/info: unexpected message in 200 response: hiccup"
    );
}

#[test]
fn statuses_without_a_notation_are_numbers() {
    assert_eq!(
        show_status(404, Some("404 Not Found".into())),
        "404 Not Found"
    );
    assert_eq!(show_status(42, None), "42");
}

#[test]
fn pages_that_may_go_on_are_refused() {
    assert!(check_pagination(Some(3), 3, 100, "/x").is_ok());
    assert!(check_pagination(None, 99, 100, "/x").is_ok());
    assert!(check_pagination(Some(4), 3, 100, "/x").is_err());
    assert!(check_pagination(None, 100, 100, "/x").is_err());
    assert!(check_pagination(Some(100), 100, 100, "/x").is_ok());
}

#[test]
fn the_first_repeated_name_is_reported() {
    let tag = |n: &str| Tag {
        name: n.into(),
        description: None,
    };
    assert!(check_duplicate_names(&vec![tag("a"), tag("b")], "/x").is_ok());
    match check_duplicate_names(&vec![tag("a"), tag("b"), tag("b"), tag("a")], "/x") {
        Err(BrazeApiError::DuplicateNameInListResponse { endpoint, name }) => {
            assert_eq!(endpoint, "/x");
            assert_eq!(name, "b");
        }
        other => panic!("expected DuplicateNameInListResponse, got {other:?}"),
    }
}

#[test]
fn info_messages_are_told_apart() {
    let class = |m: Option<&str>| classify_info_message(m, "no content block");
    assert_eq!(class(None), InfoMessageClass::Success);
    assert_eq!(class(Some(" Success ")), InfoMessageClass::Success);
    assert_eq!(
        class(Some("No content block with id 'x' found")),
        InfoMessageClass::NotFound
    );
    assert_eq!(class(Some("Not found")), InfoMessageClass::NotFound);
    assert!(matches!(
        class(Some("Internal hiccup")),
        InfoMessageClass::Unexpected(_)
    ));
}

#[test]
fn paths_are_built_segment_by_segment() {
    let segments = vec!["catalogs".to_string(), "a/b c".to_string()];
    assert_eq!(
        client().url_for(&segments).unwrap(),
        "https://rest.fra-02.braze.eu/catalogs/a%2Fb%20c"
    );
    let call = Call::new(Method::Get, segments).with_query("limit", "100");
    assert_eq!(call.query, vec![("limit".to_string(), "100".to_string())]);
}
