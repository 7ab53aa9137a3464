use std::time::Duration;

use clearly_cached::cache::Cache;
use clearly_cached::definition::Definition;
use clearly_cached::fault::FetchError;
use clearly_cached::flight::{Arrival, Inflight};
use clearly_cached::reply::{
    answer, answer_hit, answer_poisoned, error, open, serve, Body, Failure, Reply, Shared, Source,
    Waited,
};
use clearly_cached::resolve::{
    judge, look, remember, Looked, Verdict, TTL_HARVESTED, TTL_UNHARVESTED,
};
use clearly_cached::stats::{Counter, Stats};

fn definition(harvested: bool) -> Definition {
    Definition {
        declared: Some("MIT".into()),
        parties: vec!["Copyright X".into()],
        homepage: None,
        source_url: None,
        harvested,
        score: 80,
    }
}

fn error_in(reply: &Reply) -> &str {
    match &reply.body {
        Body::Error(message) => message,
        Body::Definition(_) => panic!("served {reply:?}"),
    }
}

fn found(looked: Looked) -> Verdict {
    match looked {
        Looked::Found(verdict) => verdict,
        Looked::Missing(_) => panic!("missing"),
    }
}

#[test]
fn concurrent_requests_for_one_coordinate_cause_one_fetch() {
    let mut inflight: Inflight<u32> = Inflight::new();
    let mut leads = 0;
    for i in 0..30 {
        match inflight.arrive::<()>("npm/npmjs/-/lodash/4.17.21", None, i) {
            Arrival::Lead => leads += 1,
            Arrival::Follow(channel) => assert_eq!(channel, 0),
            Arrival::Cached(()) => panic!("nothing is cached"),
        }
    }
    assert_eq!(leads, 1, "collapsing did not hold");
    // The one channel gets the answer, and is then out of the way.
    assert_eq!(inflight.take("npm/npmjs/-/lodash/4.17.21"), Some(0));
    assert_eq!(inflight.take("npm/npmjs/-/lodash/4.17.21"), None);
}

#[test]
fn a_request_after_the_answer_starts_afresh() {
    let mut inflight: Inflight<u32> = Inflight::new();
    assert!(matches!(inflight.arrive::<()>("a", None, 1), Arrival::Lead));
    assert!(matches!(inflight.arrive::<()>("b", None, 2), Arrival::Lead));
    assert_eq!(inflight.take("a"), Some(1));
    assert!(matches!(inflight.arrive::<()>("b", None, 3), Arrival::Follow(2)));
    assert!(matches!(inflight.arrive::<()>("a", None, 4), Arrival::Lead));
    // What the cache holds by now is served, whatever is in flight.
    assert!(matches!(inflight.arrive("a", Some("c"), 5), Arrival::Cached("c")));
    assert_eq!(inflight.take("a"), Some(4));
    assert!(matches!(inflight.arrive("a", Some("c"), 6), Arrival::Cached("c")));
    assert_eq!(inflight.take("a"), None);
}

#[test]
fn an_evicted_coordinate_comes_back_from_disk_not_upstream() {
    // Capacity of one, so the second coordinate evicts the first.
    let mut cache: Cache<Definition> = Cache::new(1);
    let first = judge(Ok(definition(true)));
    remember(&mut cache, "npm/npmjs/-/lodash/4.17.21".into(), &first);
    let (reply, _) = answer(Waited::Told(&first.outcome));
    assert_eq!(reply.x_cache, Some("MISS"));

    let second = judge(Ok(definition(true)));
    remember(&mut cache, "pypi/pypi/-/requests/2.32.3".into(), &second);
    let (reply, _) = answer(Waited::Told(&second.outcome));
    assert_eq!(reply.x_cache, Some("MISS"));
    assert!(cache.get("npm/npmjs/-/lodash/4.17.21").is_none());

    let evicted = found(look(Some((definition(true), Duration::from_secs(77)))));
    remember(&mut cache, "npm/npmjs/-/lodash/4.17.21".into(), &evicted);
    let (reply, _) = answer(Waited::Told(&evicted.outcome));
    assert_eq!(reply.x_cache, Some("HIT-DISK"));
    assert_eq!(
        reply.cache_control,
        "public, max-age=77, stale-if-error=86400"
    );
    assert_eq!(evicted.counted, Some(Counter::DiskHits));
    assert_eq!(evicted.persist, None);
    let (def, left) = cache.get("npm/npmjs/-/lodash/4.17.21").unwrap();
    assert_eq!(def, definition(true));
    assert!(left <= Duration::from_secs(77));
}

#[test]
fn what_is_not_on_disk_is_asked_for_upstream() {
    assert!(matches!(look(None), Looked::Missing(Counter::Misses)));
}

#[test]
fn a_slow_resolve_answers_the_client_before_the_upstream_deadline() {
    let mut inflight: Inflight<u32> = Inflight::new();
    let mut stats = Stats::new();
    let key = "npm/npmjs/-/lodash/4.17.21";
    assert!(matches!(inflight.arrive::<()>(key, None, 1), Arrival::Lead));

    let (reply, counted) = answer(Waited::TooLong);
    assert_eq!(reply.status, 504);
    assert_eq!(reply.cache_control, "no-store");
    assert_eq!(
        error_in(&reply),
        "still resolving upstream; the fetch continues and a retry should be served from cache"
    );
    stats.count(counted.unwrap());
    assert_eq!(stats.slow_resolves, 1);

    // The abandoned wait must not cause a second upstream fetch.
    assert!(matches!(inflight.arrive::<()>(key, None, 2), Arrival::Follow(1)));
}

#[test]
fn a_prompt_resolve_is_served_normally() {
    let verdict = judge(Ok(definition(true)));
    let (reply, counted) = answer(Waited::Told(&verdict.outcome));
    assert_eq!(reply.status, 200);
    assert_eq!(counted, None);
    assert!(matches!(reply.body, Body::Definition(def) if def == definition(true)));
}

#[test]
fn a_definitive_upstream_rejection_is_not_reported_as_a_timeout() {
    // 504 means "try again", and nothing here is cached, so a client that
    // retries on 5xx would loop on a coordinate upstream always rejects.
    let verdict = judge(Err(FetchError::Upstream(404)));
    let (reply, _) = answer(Waited::Told(&verdict.outcome));
    assert_eq!(reply.status, 404);
    assert_eq!(error_in(&reply), "upstream returned 404");
    assert_eq!(verdict.counted, Some(Counter::UpstreamErrors));

    for code in [400, 403, 410, 301] {
        let verdict = judge(Err(FetchError::Upstream(code)));
        let (reply, _) = answer(Waited::Told(&verdict.outcome));
        assert_eq!(reply.status, 502);
        assert_eq!(error_in(&reply), format!("upstream returned {code}"));
    }
}

#[test]
fn a_stall_is_reported_as_one_and_never_held() {
    let mut cache: Cache<Definition> = Cache::new(10);
    for (fault, words) in [
        (
            FetchError::Transient("HTTP 503".into()),
            "transient upstream failure: HTTP 503",
        ),
        (FetchError::Rejected("no"), "no"),
    ] {
        let verdict = judge(Err(fault));
        assert_eq!(verdict.remember, None);
        assert_eq!(verdict.persist, None);
        assert_eq!(verdict.to_persist(), None);
        assert_eq!(verdict.counted, Some(Counter::UpstreamErrors));
        remember(&mut cache, "k".into(), &verdict);
        let (reply, counted) = answer(Waited::Told(&verdict.outcome));
        assert_eq!(reply.status, 504);
        assert_eq!(reply.cache_control, "no-store");
        assert_eq!(reply.x_cache, None);
        assert_eq!(error_in(&reply), words);
        assert_eq!(counted, None);
    }
    assert_eq!(cache.len(), 0);
}

#[test]
fn the_ttl_is_split_by_harvest_state() {
    assert_eq!(TTL_HARVESTED, 2_592_000);
    assert_eq!(TTL_UNHARVESTED, 21_600);
    for (harvested, ttl) in [(true, TTL_HARVESTED), (false, TTL_UNHARVESTED)] {
        let verdict = judge(Ok(definition(harvested)));
        assert_eq!(verdict.remember, Some(Duration::from_secs(ttl)));
        assert_eq!(verdict.persist, Some(Duration::from_secs(ttl)));
        assert_eq!(
            verdict.to_persist(),
            Some((&definition(harvested), Duration::from_secs(ttl)))
        );
        assert_eq!(verdict.counted, None);
        let (reply, _) = answer(Waited::Told(&verdict.outcome));
        assert_eq!(
            reply.cache_control,
            format!("public, max-age={ttl}, stale-if-error=86400")
        );
    }
}

#[test]
fn a_hit_does_not_re_arm_the_full_max_age() {
    let max_age = |reply: &Reply| -> u64 {
        reply
            .cache_control
            .split(',')
            .find_map(|p| p.trim().strip_prefix("max-age="))
            .and_then(|n| n.parse().ok())
            .unwrap()
    };
    let mut cache: Cache<Definition> = Cache::new(100);
    let ttl = u128::from(TTL_HARVESTED) * 1_000_000_000;
    cache.insert_at("k".into(), definition(true), ttl, 0);

    let mut ages = Vec::new();
    for now in [1, 1_100_000_001] {
        let (def, left) = cache.get_at("k", now).unwrap();
        let (reply, counted) = answer_hit(def, clearly_cached::time::span_of(left));
        assert_eq!(reply.x_cache, Some("HIT"));
        assert_eq!(counted, Counter::Hits);
        ages.push(max_age(&reply));
    }
    assert!(ages[0] <= TTL_HARVESTED);
    assert!(
        ages[1] < ages[0],
        "max-age was re-armed on a hit: {} then {}",
        ages[0],
        ages[1]
    );
    assert_eq!(ages, [TTL_HARVESTED - 1, TTL_HARVESTED - 2]);
}

#[test]
fn a_request_names_a_coordinate_or_is_refused() {
    let (coord, key) = open("npm", "npmjs", "-", "lodash", "4.17.21").unwrap();
    assert_eq!(key, "npm/npmjs/-/lodash/4.17.21");
    assert_eq!(coord.cache_key(), key);

    let reply = open("npm", "evil", "-", "lodash", "1").unwrap_err();
    assert_eq!(reply.status, 400);
    assert_eq!(reply.cache_control, "no-store");
    assert_eq!(error_in(&reply), "unsupported type/provider");

    let reply = open("npm", "npmjs", "-", "..", "1").unwrap_err();
    assert_eq!(reply.status, 400);
    assert_eq!(error_in(&reply), "invalid coordinate segment");
}

#[test]
fn a_resolve_that_dies_is_reported() {
    let (reply, counted) = answer(Waited::Ended);
    assert_eq!(reply.status, 502);
    assert_eq!(error_in(&reply), "resolve task ended unexpectedly");
    assert_eq!(counted, None);

    let reply = answer_poisoned();
    assert_eq!(reply.status, 500);
    assert_eq!(error_in(&reply), "inflight lock poisoned");
}

#[test]
fn the_reply_says_where_it_came_from() {
    assert_eq!(Source::Memory.as_str(), "HIT");
    assert_eq!(Source::Disk.as_str(), "HIT-DISK");
    assert_eq!(Source::Upstream.as_str(), "MISS");
    let reply = serve(definition(false), Duration::from_millis(1_999), Source::Memory);
    assert_eq!(reply.status, 200);
    assert_eq!(reply.cache_control, "public, max-age=1, stale-if-error=86400");
    assert_eq!(reply.x_cache, Some("HIT"));
    assert_eq!(error_in(&error(418, "teapot")), "teapot");

    let told: Shared = Err(Failure {
        status: 404,
        message: "gone".into(),
    });
    let (reply, _) = answer(Waited::Told(&told));
    assert_eq!(reply.status, 404);
    assert_eq!(error_in(&reply), "gone");
}

#[test]
fn each_counter_counts_its_own() {
    let mut stats = Stats::new();
    for (n, counter) in [
        Counter::Hits,
        Counter::DiskHits,
        Counter::Misses,
        Counter::UpstreamErrors,
        Counter::SlowResolves,
    ]
    .into_iter()
    .enumerate()
    {
        for _ in 0..=n {
            stats.count(counter);
        }
    }
    assert_eq!(
        stats,
        Stats {
            hits: 1,
            disk_hits: 2,
            misses: 3,
            upstream_errors: 4,
            slow_resolves: 5,
        }
    );
    stats.hits = u64::MAX;
    stats.count(Counter::Hits);
    assert_eq!(stats.hits, 0);
}

#[test]
fn spans_convert_to_nanoseconds_and_back() {
    use_span(Duration::new(3, 7), 3_000_000_007);
    use_span(Duration::ZERO, 0);
    use_span(Duration::MAX, clearly_cached::time::LONGEST);
    assert_eq!(clearly_cached::time::span_of(u128::MAX), Duration::MAX);
    assert_eq!(clearly_cached::time::epoch_seconds(None), 0);
    assert_eq!(
        clearly_cached::time::epoch_seconds(Some(Duration::from_millis(2_900))),
        2
    );
}

fn use_span(span: Duration, nanos: u128) {
    assert_eq!(clearly_cached::time::nanos_of(span), nanos);
    assert_eq!(clearly_cached::time::span_of(nanos), span);
}
