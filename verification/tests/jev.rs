use tocsin::jev::{
    accept, after_reply, backoff, fingerprint_of, fnv1a, retryable, Jev, Next, Reply, MAX_ATTEMPTS,
};
use tocsin::judge::Verdict;
use tocsin::order::Score;

const POLICY: &str = r#"{"page":["checkout is down"],"do_not_page":["cron output"]}"#;

fn score(value: f32) -> Score {
    Score { bits: value.to_bits() }
}

fn jev(endpoint: &str, policy: &str) -> Jev {
    Jev::new("test-key".into(), "jev-latest".into(), endpoint, policy)
}

fn answers(pageable: f32) -> Verdict {
    Verdict {
        pageable: score(pageable),
        detail: score(0.1),
        severity: score(2.5),
        area: "storage".into(),
        attention: score(pageable * (1.0 - 0.1)),
    }
}

#[test]
fn policy_and_endpoint_are_part_of_the_cache_fingerprint() {
    let default = jev("http://localhost", POLICY).fingerprint();
    assert_ne!(
        default,
        jev("http://localhost", "Page only when checkout is down.").fingerprint()
    );
    assert_ne!(
        default,
        jev("http://staging.local", POLICY).fingerprint()
    );
}

#[test]
fn fingerprints_ignore_the_key_and_what_is_stripped() {
    let default = jev("http://localhost", POLICY).fingerprint();
    let other = Jev::new(
        "another-key".into(),
        "jev-latest".into(),
        "http://localhost/",
        &format!(" \r\n{POLICY}\t\n"),
    );
    assert_eq!(other.fingerprint(), default);
    let (model, hash) = default.split_once(':').unwrap();
    assert_eq!(model, "jev-latest");
    assert_eq!(hash.len(), 16);
    assert!(hash.chars().all(|c| c.is_ascii_digit() || ('a'..='f').contains(&c)));
    let newer = Jev::new("k".into(), "jev-2".into(), "http://localhost", POLICY);
    assert_ne!(newer.fingerprint(), default);
}

#[test]
fn a_policy_in_other_white_space_is_text() {
    let spaced = jev("http://localhost", &format!("\u{a0}{POLICY}"));
    let body: serde_json::Value = serde_json::from_str(&spaced.request("t")).unwrap();
    assert_eq!(body["state"]["policy"], POLICY);
}

#[test]
fn a_policy_in_words_ignores_all_white_space_around_it() {
    let words = "Page only when checkout is down.";
    assert_eq!(
        jev("http://localhost", &format!("\u{a0}\n{words}\u{3000} ")).fingerprint(),
        jev("http://localhost", words).fingerprint()
    );
}

#[test]
fn fingerprints_tell_endpoints_and_each_byte() {
    for policy in [POLICY, "Page only when checkout is down.", "", "{}"] {
        let name = jev("http://localhost", policy).fingerprint();
        assert_ne!(name, jev("http://staging.local", policy).fingerprint());
        assert_ne!(name, jev("http://localhosu", policy).fingerprint());
        assert_ne!(name, jev("https://localhost", policy).fingerprint());
    }
    let name = jev("http://localhost", "Page only when checkout is down.").fingerprint();
    for other in ["Page only when checkout is down!", "page only when checkout is down."] {
        assert_ne!(name, jev("http://localhost", other).fingerprint());
    }
}

#[test]
fn fingerprints_are_stable() {
    assert_eq!(
        jev("http://localhost", POLICY).fingerprint(),
        "jev-latest:3ed8b311b07996f4"
    );
    assert_eq!(
        jev("http://localhost//", "  Page only when checkout is down.\n").fingerprint(),
        "jev-latest:0a0679b19032a282"
    );
    assert_eq!(
        jev("http://staging.local", POLICY).fingerprint(),
        "jev-latest:df0bb92f96aef0fd"
    );
}

#[test]
fn requests_hold_template_policy_and_questions() {
    let jev = jev("http://localhost/", POLICY);
    assert_eq!(jev.url(), "http://localhost/v1/systemone");
    assert_eq!(jev.api_key(), "test-key");
    let text = jev.request("disk <*> failed");
    let body: serde_json::Value = serde_json::from_str(&text).unwrap();
    assert_eq!(body["model"], "jev-latest");
    assert_eq!(body["state"]["log"]["template"], "disk <*> failed");
    assert!(body["state"]["policy"]["page"].is_array());
    assert_eq!(body["questions"]["pageable"]["type"], "noul");
    assert_eq!(body["questions"]["severity"]["criteria"].as_array().unwrap().len(), 4);
    assert!(body["questions"]["area"]["criteria"]["other"].is_null());
    assert_eq!(body.as_object().unwrap().len(), 3);
    assert_eq!(body.to_string(), text);
}

#[test]
fn retries_rate_limits_and_parses_answers() {
    let limited = Reply::Answered { status: 429, retry_after: Some(0) };
    assert_eq!(after_reply(1, limited), Next::Retry { nanos: 0 });
    let overloaded = Reply::Answered { status: 529, retry_after: None };
    assert_eq!(after_reply(2, overloaded), Next::Retry { nanos: 1_000_000_000 });
    let answered = Reply::Answered { status: 200, retry_after: None };
    assert_eq!(after_reply(3, answered), Next::Read);

    let judged = accept(answers(0.9), 321, "jev-test".into()).unwrap();
    let expected = Verdict {
        pageable: score(0.9),
        detail: score(0.1),
        severity: score(2.5),
        area: "storage".into(),
        attention: score(0.9 * (1.0 - 0.1)),
    };
    assert_eq!(judged.verdict, expected);
    assert_eq!(
        (judged.input_tokens, judged.model.as_str()),
        (321, "jev-test")
    );
}

#[test]
fn does_not_retry_invalid_requests() {
    let invalid = Reply::Answered { status: 422, retry_after: None };
    assert_eq!(after_reply(1, invalid), Next::Refused);
}

#[test]
fn rejects_out_of_range_verdicts() {
    let refused = accept(answers(1e100f64 as f32), 321, "jev-test".into()).unwrap_err();
    assert_eq!(refused.pageable, score(f32::INFINITY));
}

#[test]
fn lost_requests_are_sent_again_and_unmade_ones_are_not() {
    assert_eq!(after_reply(1, Reply::Lost), Next::Retry { nanos: 500_000_000 });
    assert_eq!(after_reply(MAX_ATTEMPTS, Reply::Lost), Next::Failed);
    assert_eq!(after_reply(1, Reply::Unmade), Next::Failed);
    let busy = Reply::Answered { status: 503, retry_after: Some(1) };
    assert_eq!(after_reply(MAX_ATTEMPTS, busy), Next::Refused);
}

#[test]
fn pauses_double_up_to_ten_seconds() {
    let pauses: Vec<u64> = (0..8).map(backoff).collect();
    assert_eq!(pauses, vec![250, 500, 1_000, 2_000, 4_000, 8_000, 10_000, 10_000]);
}

#[test]
fn some_statuses_are_worth_a_retry() {
    let again: Vec<u16> = (100..600).filter(|s| retryable(*s)).collect();
    assert_eq!(again, vec![408, 429, 500, 502, 503, 504, 529]);
}

#[test]
fn fingerprints_hash_place_questions_and_policy() {
    assert_eq!(fingerprint_of("m", "foo", "ba", "r"), "m:85944171f73967e8");
}

#[test]
fn hashes_match_known_values() {
    assert_eq!(fnv1a(b""), 0xcbf29ce484222325);
    assert_eq!(fnv1a(b"foobar"), 0x85944171f73967e8);
}
