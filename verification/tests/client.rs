use std::time::Duration;

use clearly_cached::client::{check_status, malformed_body, read_body, Client};
use clearly_cached::coordinate::Coordinate;
use clearly_cached::definition::Definition;
use clearly_cached::fault::FetchError;

const SECOND: u128 = 1_000_000_000;

fn lodash() -> Coordinate {
    Coordinate::parse("npm", "npmjs", "-", "lodash", "4.17.21").unwrap()
}

fn nothing_found() -> Definition {
    Definition {
        declared: None,
        parties: Vec::new(),
        homepage: None,
        source_url: None,
        harvested: false,
        score: 0,
    }
}

fn stall() -> FetchError {
    FetchError::Transient("stalled".into())
}

#[test]
fn asks_upstream_under_the_cache_key() {
    let client = Client::new("https://api.clearlydefined.io".into(), 3, Duration::from_secs(25));
    let fetch = client.fetch(&lodash());
    assert_eq!(
        fetch.url(),
        "https://api.clearlydefined.io/definitions/npm/npmjs/-/lodash/4.17.21"
    );
}

#[test]
fn a_stall_is_retried_until_the_attempts_run_out() {
    let client = Client::new("u".into(), 3, Duration::from_secs(25));
    let mut fetch = client.fetch(&lodash());
    assert_eq!(fetch.pause(0), 0);
    assert!(fetch.answered(Err(stall())).is_none());
    assert_eq!(fetch.pause(SECOND), 250_000_000);
    assert!(fetch.answered(Err(stall())).is_none());
    assert_eq!(fetch.pause(SECOND), 500_000_000);
    let over = fetch.answered(Err(FetchError::Transient("last".into())));
    assert!(matches!(over, Some(Err(FetchError::Transient(m))) if m == "last"));
}

#[test]
fn an_answer_ends_the_fetch() {
    let client = Client::new("u".into(), 3, Duration::from_secs(25));
    let mut fetch = client.fetch(&lodash());
    assert!(fetch.answered(Err(stall())).is_none());
    assert!(matches!(fetch.answered(Ok(nothing_found())), Some(Ok(_))));

    let mut fetch = client.fetch(&lodash());
    let over = fetch.answered(Err(FetchError::Upstream(404)));
    assert!(matches!(over, Some(Err(FetchError::Upstream(404)))));

    let mut fetch = client.fetch(&lodash());
    let over = fetch.answered(Err(FetchError::Rejected("no")));
    assert!(matches!(over, Some(Err(FetchError::Rejected("no")))));
}

#[test]
fn no_attempts_means_one() {
    let client = Client::new("u".into(), 0, Duration::from_secs(25));
    let mut fetch = client.fetch(&lodash());
    assert!(fetch.answered(Err(stall())).is_some());
}

#[test]
fn an_attempt_gets_only_what_is_left() {
    let client = Client::new("u".into(), 3, Duration::new(2, 5));
    let fetch = client.fetch(&lodash());
    assert_eq!(fetch.budget(0), Some(2 * SECOND + 5));
    assert_eq!(fetch.budget(SECOND), Some(SECOND + 5));
    assert_eq!(fetch.budget(2 * SECOND + 4), Some(1));
    assert_eq!(fetch.budget(2 * SECOND + 5), None);
    assert_eq!(fetch.budget(60 * SECOND), None);
}

#[test]
fn a_stalling_upstream_is_bounded_by_the_deadline() {
    // Attempts alone do not bound the wait, and a caller that has already given
    // up is not helped by an answer arriving later. Every attempt would take a
    // minute here, and the clock is advanced by what each is allowed.
    let client = Client::new("u".into(), 3, Duration::from_secs(2));
    let mut fetch = client.fetch(&lodash());
    let mut elapsed: u128 = 0;
    let outcome = loop {
        elapsed += fetch.pause(elapsed);
        let Some(budget) = fetch.budget(elapsed) else {
            break Client::expired("2", "2.0");
        };
        let takes = 60 * SECOND;
        if takes > budget {
            elapsed += budget;
            break Client::expired("2", "2.0");
        }
        elapsed += takes;
        match fetch.answered(Ok(nothing_found())) {
            Some(_) => panic!("answered"),
            None => {}
        }
    };
    assert!(elapsed <= 2 * SECOND, "waited {elapsed:?} on a 2s deadline");
    assert_eq!(
        outcome.to_string(),
        "transient upstream failure: no answer within 2s (spent 2.0s)"
    );
}

#[test]
fn a_deadline_inside_a_pause_cuts_it_short() {
    // The first attempt fails a tenth of a second before the deadline, and the
    // pause that is due would be a quarter of one.
    let client = Client::new("u".into(), 3, Duration::from_secs(2));
    let mut fetch = client.fetch(&lodash());
    let mut elapsed: u128 = fetch.pause(0);
    assert_eq!(fetch.budget(elapsed), Some(2 * SECOND));
    elapsed += 1_900_000_000;
    assert!(fetch.answered(Err(stall())).is_none());

    assert_eq!(fetch.pause(elapsed), 100_000_000);
    elapsed += fetch.pause(elapsed);
    assert_eq!(elapsed, 2 * SECOND);
    // Nothing is left, so no second request is made.
    assert_eq!(fetch.budget(elapsed), None);
    assert_eq!(fetch.pause(elapsed), 0);
    assert_eq!(fetch.pause(elapsed + 1), 0);

    // A pause that fits exactly is not cut.
    assert_eq!(fetch.pause(1_750_000_000), 250_000_000);
    assert_eq!(fetch.pause(1_750_000_001), 249_999_999);
}

#[test]
fn a_deadline_of_nothing_makes_no_request() {
    let client = Client::new("u".into(), 3, Duration::ZERO);
    let fetch = client.fetch(&lodash());
    assert_eq!(fetch.pause(0), 0);
    assert_eq!(fetch.budget(0), None);
    assert!(matches!(Client::expired("0", "0.0"), FetchError::Transient(_)));
}

#[test]
fn a_status_says_whether_to_ask_again() {
    assert!(check_status(200).is_ok());
    for transient in [429, 500, 502, 503, 599] {
        let e = check_status(transient).unwrap_err();
        assert_eq!(
            e.to_string(),
            format!("transient upstream failure: HTTP {transient}")
        );
    }
    for definitive in [100, 201, 204, 301, 400, 404, 428, 430, 499, 600, 65535] {
        let e = check_status(definitive).unwrap_err();
        assert!(matches!(e, FetchError::Upstream(code) if code == definitive));
        assert_eq!(e.to_string(), format!("upstream returned {definitive}"));
    }
}

#[test]
fn a_body_is_projected() {
    let d = read_body(br#"{"licensed": {"declared": "MIT"}, "described": {"tools": ["t"]}}"#)
        .unwrap();
    assert_eq!(d.declared.as_deref(), Some("MIT"));
    assert!(d.harvested);
}

#[test]
fn a_broken_body_is_worth_asking_again_for() {
    for body in ["", "{", "not json", "{} trailing"] {
        let e = read_body(body.as_bytes()).unwrap_err();
        assert!(matches!(e, FetchError::Transient(_)));
        assert_eq!(
            e.to_string(),
            "transient upstream failure: malformed body: error decoding response body"
        );
    }
    assert_eq!(
        malformed_body("connection reset").to_string(),
        "transient upstream failure: malformed body: connection reset"
    );
}
