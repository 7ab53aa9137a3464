use clearly_cached::config::{
    cache_path, deadline_warning, env_u64, parse_u64, settings, Variables,
};

fn unset() -> Variables {
    Variables {
        listen_addr: None,
        upstream: None,
        cache_path: None,
        cache_capacity: None,
        cache_disk_max_entries: None,
        upstream_attempts: None,
        upstream_timeout_secs: None,
        upstream_deadline_secs: None,
        client_deadline_secs: None,
    }
}

#[test]
fn reads_numbers_as_the_standard_library_does() {
    for text in [
        "0",
        "7",
        "007",
        "+7",
        "+",
        "",
        "-0",
        "-7",
        "++7",
        " 7",
        "7 ",
        "7a",
        "1_000",
        "0x7",
        "7.0",
        "٣",
        "18446744073709551615",
        "+18446744073709551615",
        "18446744073709551616",
        "18446744073709551625",
        "99999999999999999999999",
        "99999999999999999999999x",
        "00000000000000000000000000001",
    ] {
        assert_eq!(parse_u64(text), text.parse::<u64>().ok(), "read {text:?}");
    }
    assert_eq!(parse_u64("200000"), Some(200_000));
}

#[test]
fn what_holds_no_number_is_the_default() {
    assert_eq!(env_u64(&None, 5), 5);
    assert_eq!(env_u64(&Some("".into()), 5), 5);
    assert_eq!(env_u64(&Some("soon".into()), 5), 5);
    assert_eq!(env_u64(&Some("12".into()), 5), 12);
}

#[test]
fn an_empty_path_means_memory_only() {
    assert_eq!(cache_path(Some(String::new())), None);
    assert_eq!(cache_path(Some("./x.redb".into())), Some("./x.redb".into()));
    assert_eq!(
        cache_path(None),
        Some("/var/cache/clearly-cached/definitions.redb".into())
    );
}

#[test]
fn the_defaults_are_documented_ones() {
    let s = settings(unset());
    assert_eq!(s.listen_addr, "0.0.0.0:8080");
    assert_eq!(s.upstream, "https://api.clearlydefined.io");
    assert_eq!(
        s.cache_path.as_deref(),
        Some("/var/cache/clearly-cached/definitions.redb")
    );
    assert_eq!(s.capacity, 200_000);
    assert_eq!(s.disk_max_entries, 2_000_000);
    assert_eq!(s.attempts, 3);
    assert_eq!(s.timeout, 8);
    assert_eq!(s.deadline, 25);
    assert_eq!(s.client_deadline, 5);
}

#[test]
fn each_variable_sets_its_own() {
    let s = settings(Variables {
        listen_addr: Some("[::]:1".into()),
        upstream: Some("http://localhost".into()),
        cache_path: Some("".into()),
        cache_capacity: Some("1".into()),
        cache_disk_max_entries: Some("2".into()),
        upstream_attempts: Some("4294967300".into()),
        upstream_timeout_secs: Some("4".into()),
        upstream_deadline_secs: Some("5".into()),
        client_deadline_secs: Some("6".into()),
    });
    assert_eq!(s.listen_addr, "[::]:1");
    assert_eq!(s.upstream, "http://localhost");
    assert_eq!(s.cache_path, None);
    assert_eq!(s.capacity, 1);
    assert_eq!(s.disk_max_entries, 2);
    assert_eq!(s.attempts, 4);
    assert_eq!(s.timeout, 4);
    assert_eq!(s.deadline, 5);
    assert_eq!(s.client_deadline, 6);
}

#[test]
fn a_client_deadline_that_bounds_nothing_is_said() {
    assert_eq!(deadline_warning(5, 25), None);
    assert_eq!(
        deadline_warning(30, 25).unwrap(),
        "config: CLIENT_DEADLINE_SECS (30s) is not below UPSTREAM_DEADLINE_SECS (25s), \
         so callers will wait out the resolve instead of being told to retry"
    );
    assert!(deadline_warning(25, 25).is_some());
    assert!(deadline_warning(0, 0).is_some());
}
