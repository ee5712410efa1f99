use vesper::fetch::{
    backoff_delay, host_of, is_retryable_status, jitter, jitter_from, parse_retry_after,
    split_curl_output, CurlGet, Duration, Get, HostDelays, Verdict,
};
use vesper::{is_not_found, CurlFetcher, FetchConfig};

#[test]
fn extracts_host() {
    assert_eq!(
        host_of("https://novgo.net/x/chapter-1.html").as_deref(),
        Some("novgo.net")
    );
    assert_eq!(host_of("not a url"), None);
}

#[test]
fn retryable_statuses() {
    for code in [429, 500, 502, 503, 504] {
        assert!(is_retryable_status(code), "{code} should retry");
    }
    for code in [200, 301, 400, 403, 404] {
        assert!(!is_retryable_status(code), "{code} should not retry");
    }
}

#[test]
fn backoff_grows_and_caps() {
    let base = Duration::from_millis(1000);
    let max = Duration::from_secs(30);
    assert_eq!(backoff_delay(base, 0, max), Duration::from_secs(2));
    assert_eq!(backoff_delay(base, 1, max), Duration::from_secs(4));
    assert_eq!(backoff_delay(base, 2, max), Duration::from_secs(8));
    // Caps at max rather than overflowing.
    assert_eq!(backoff_delay(base, 20, max), max);
}

#[test]
fn parses_retry_after_seconds() {
    assert_eq!(parse_retry_after("30"), Some(Duration::from_secs(30)));
    assert_eq!(parse_retry_after("  5 "), Some(Duration::from_secs(5)));
    // HTTP-date form is not parsed.
    assert_eq!(parse_retry_after("Wed, 21 Oct 2026 07:28:00 GMT"), None);
}

#[test]
fn jitter_stays_within_bounds() {
    let base = Duration::from_millis(1000);
    for _ in 0..100 {
        let j = jitter(base);
        assert!(j <= Duration::from_millis(400), "jitter {j:?} exceeded 40%");
    }
}

#[test]
fn jitter_follows_the_clock() {
    let base = Duration::from_millis(1000);
    assert_eq!(jitter_from(base, 0), Duration::zero());
    assert!(jitter_from(base, 999_999_999) > jitter_from(base, 1));
}

fn config() -> FetchConfig {
    FetchConfig::new(Duration::from_millis(1000))
}

#[test]
fn defaults_follow_the_base_delay() {
    let c = config();
    assert_eq!(c.base_delay, Duration::from_secs(1));
    assert_eq!(c.max_delay, Duration::from_secs(30));
    assert_eq!(FetchConfig::new(Duration::from_secs(10)).max_delay, Duration::from_secs(160));
    assert_eq!(CurlFetcher::new(Duration::from_secs(1)).config.max_retries, 4);
}

#[test]
fn spacing_backs_off_and_settles() {
    let mut delays = HostDelays::new(config());
    let base = Duration::from_secs(1);
    assert_eq!(delays.current_delay("a"), base);
    delays.bump_delay("a");
    let bumped = delays.current_delay("a");
    assert!(bumped > base);
    assert_eq!(delays.current_delay("b"), base, "hosts are paced apart");
    for _ in 0..50 {
        delays.bump_delay("a");
    }
    assert!(delays.current_delay("a") <= Duration::from_secs(30));
    for _ in 0..200 {
        delays.relax_delay("a");
    }
    assert_eq!(delays.current_delay("a"), base);
}

#[test]
fn a_refused_request_is_retried_a_bounded_number_of_times() {
    let mut delays = HostDelays::new(config());
    let mut get = Get::new("https://example.com/a", config());
    let mut tries = 0;
    loop {
        match get.on_response(&mut delays, 503, "503", None) {
            Verdict::Retry { .. } => tries += 1,
            Verdict::Fail(f) => {
                assert!(!is_not_found(&f));
                break;
            }
            Verdict::Accept => panic!("a 503 is not an answer"),
        }
        assert!(tries <= 10);
    }
    assert_eq!(tries, 4);
}

#[test]
fn the_server_may_say_how_long_to_wait() {
    let mut delays = HostDelays::new(config());
    let mut get = Get::new("https://example.com/a", config());
    match get.on_response(&mut delays, 429, "429 Too Many Requests", Some("7")) {
        Verdict::Retry { wait, attempt } => {
            assert_eq!(wait, Duration::from_secs(7));
            assert_eq!(attempt, 1);
        }
        other => panic!("{other:?}"),
    }
    assert_eq!(get.spacing(&delays), Duration::from_secs(2), "the host is paced slower now");
    match get.on_response(&mut delays, 429, "429 Too Many Requests", Some("soon")) {
        Verdict::Retry { wait, .. } => assert_eq!(wait, Duration::from_secs(4)),
        other => panic!("{other:?}"),
    }
}

#[test]
fn a_final_refusal_is_told_as_the_server_put_it() {
    let mut delays = HostDelays::new(config());
    let mut get = Get::new("https://example.com/a", config());
    match get.on_response(&mut delays, 403, "403 Forbidden", None) {
        Verdict::Fail(f) => {
            assert_eq!(f.message, "GET https://example.com/a returned HTTP 403 Forbidden")
        }
        other => panic!("{other:?}"),
    }
}

#[test]
fn only_a_missing_page_counts_as_not_found() {
    let mut delays = HostDelays::new(config());
    let mut get = Get::new("https://example.com/a", config());
    match get.on_response(&mut delays, 404, "404", None) {
        Verdict::Fail(f) => assert!(is_not_found(&f)),
        other => panic!("{other:?}"),
    }
    let mut get = Get::new("https://example.com/a", config());
    match get.on_response(&mut delays, 403, "403", None) {
        Verdict::Fail(f) => assert!(!is_not_found(&f)),
        other => panic!("{other:?}"),
    }
    let mut get = Get::new("https://example.com/a", config());
    assert!(matches!(get.on_response(&mut delays, 200, "200", None), Verdict::Accept));
}

#[test]
fn a_broken_connection_is_retried_and_a_bad_request_is_not() {
    let mut get = Get::new("https://example.com/a", config());
    assert!(matches!(get.on_error(true), Verdict::Retry { .. }));
    let mut get = Get::new("https://example.com/a", config());
    assert!(matches!(get.on_error(false), Verdict::Fail(_)));
}

#[test]
fn curl_appends_its_status() {
    let (body, code) = split_curl_output("line one\nline two\n200");
    assert_eq!(body, "line one\nline two");
    assert_eq!(code, 200);
    let mut get = CurlGet::new("https://example.com/a", config());
    assert!(matches!(get.on_exit(200, ""), Verdict::Accept));
    assert_eq!(split_curl_output("no status"), ("no status".to_string(), 0));
    let mut dead = CurlGet::new("https://example.com/a", config());
    for _ in 0..4 {
        assert!(matches!(dead.on_exit(0, "timeout"), Verdict::Retry { .. }));
    }
    match dead.on_exit(0, " timeout\n") {
        Verdict::Fail(f) => {
            assert_eq!(f.message, "curl failed for https://example.com/a: timeout")
        }
        other => panic!("{other:?}"),
    }
    match CurlGet::new("https://example.com/a", config()).on_exit(404, "") {
        Verdict::Fail(f) => assert!(is_not_found(&f)),
        other => panic!("{other:?}"),
    }
}

#[test]
fn backoff_doubles_until_the_ceiling() {
    let base = Duration::from_secs(1);
    let max = Duration::from_secs(200_000);
    assert_eq!(backoff_delay(base, 15, max), Duration::from_secs(65_536));
    assert_eq!(backoff_delay(base, 16, max), Duration::from_secs(131_072));
    assert_eq!(backoff_delay(base, 17, max), max);
    assert_eq!(backoff_delay(base, u32::MAX, max), max);
    assert_eq!(backoff_delay(Duration::zero(), u32::MAX, max), Duration::zero());
}
