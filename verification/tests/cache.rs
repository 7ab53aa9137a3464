use std::time::Duration;

use clearly_cached::cache::Cache;

const MILLI: u128 = 1_000_000;
const SECOND: u128 = 1_000_000_000;

#[test]
fn returns_a_live_entry() {
    let mut c: Cache<u32> = Cache::new(10);
    c.insert("k".into(), 1, Duration::from_secs(60));
    assert_eq!(c.get("k").map(|(v, _)| v), Some(1));
}

#[test]
fn reports_remaining_lifetime_not_the_original_ttl() {
    // This is what ends up in Cache-Control, so a hit late in an entry's life
    // must not hand a CDN a fresh full TTL.
    let mut c: Cache<u32> = Cache::new(10);
    c.insert_at("k".into(), 1, 60 * MILLI, 0);
    let (_, remaining) = c.get_at("k", 20 * MILLI).expect("entry expired early");
    assert!(remaining < 60 * MILLI, "TTL did not decay: {remaining:?}");
    assert_eq!(remaining, 40 * MILLI);
}

#[test]
fn does_not_return_an_expired_entry() {
    let mut c: Cache<u32> = Cache::new(10);
    c.insert_at("k".into(), 1, MILLI, 0);
    assert_eq!(c.get_at("k", 5 * MILLI), None);
    assert_eq!(c.get_at("k", MILLI), None);
    assert_eq!(c.get_at("k", MILLI - 1), Some((1, 1)));
}

#[test]
fn an_entry_without_a_life_is_never_returned() {
    let mut c: Cache<u32> = Cache::new(10);
    c.insert("k".into(), 1, Duration::from_secs(0));
    assert_eq!(c.get("k"), None);
    assert_eq!(c.len(), 1);
}

#[test]
fn the_clock_never_extends_a_life() {
    let mut c: Cache<u32> = Cache::new(10);
    c.insert("k".into(), 1, Duration::from_secs(60));
    let (_, first) = c.get("k").unwrap();
    let (_, second) = c.get("k").unwrap();
    assert!(first <= Duration::from_secs(60));
    assert!(first > Duration::from_secs(40));
    assert!(second <= first);
}

#[test]
fn expiry_is_per_entry_not_global() {
    // The whole point of the split TTL: an unharvested definition must be able
    // to expire while a harvested one is still held.
    let mut c: Cache<u32> = Cache::new(10);
    c.insert_at("short".into(), 1, MILLI, 0);
    c.insert_at("long".into(), 2, 60 * SECOND, 0);
    assert!(c.get_at("short", 5 * MILLI).is_none());
    assert_eq!(c.get_at("long", 5 * MILLI).map(|(v, _)| v), Some(2));
}

#[test]
fn stays_within_capacity() {
    let mut c: Cache<u32> = Cache::new(16);
    for i in 0..200 {
        c.insert(format!("k{i}"), i, Duration::from_secs(60));
    }
    assert!(c.len() <= 16, "cache grew to {}", c.len());
}

#[test]
fn a_full_cache_drops_the_oldest_tenth() {
    let mut c: Cache<u32> = Cache::new(20);
    for i in 0..20 {
        c.insert_at(format!("k{i}"), i, SECOND, 0);
    }
    assert_eq!(c.len(), 20);
    c.insert_at("k20".into(), 20, SECOND, 0);
    // A tenth and one: three of twenty make room for the one.
    assert_eq!(c.len(), 18);
    for i in 0..3 {
        assert!(c.get_at(&format!("k{i}"), 0).is_none(), "kept k{i}");
    }
    for i in 3..21 {
        assert_eq!(c.get_at(&format!("k{i}"), 0), Some((i, SECOND)), "lost k{i}");
    }
}

#[test]
fn expired_entries_go_before_live_ones() {
    let mut c: Cache<u32> = Cache::new(4);
    c.insert_at("a".into(), 1, SECOND, 0);
    c.insert_at("b".into(), 2, MILLI, 0);
    c.insert_at("c".into(), 3, SECOND, 0);
    c.insert_at("d".into(), 4, MILLI, 0);
    c.insert_at("e".into(), 5, SECOND, 2 * MILLI);
    assert_eq!(c.len(), 3);
    assert_eq!(c.get_at("a", 2 * MILLI).map(|(v, _)| v), Some(1));
    assert_eq!(c.get_at("c", 2 * MILLI).map(|(v, _)| v), Some(3));
    assert_eq!(c.get_at("e", 2 * MILLI), Some((5, SECOND)));
}

#[test]
fn a_stored_key_takes_the_place_of_the_older_one() {
    let mut c: Cache<u32> = Cache::new(10);
    for round in 0..50 {
        c.insert_at("k".into(), round, SECOND, 0);
        c.insert_at("other".into(), 7, SECOND, 0);
    }
    assert_eq!(c.len(), 2);
    assert_eq!(c.get_at("k", 0).map(|(v, _)| v), Some(49));
    assert_eq!(c.get_at("other", 0).map(|(v, _)| v), Some(7));
}

#[test]
fn storing_again_makes_an_entry_the_newest() {
    let mut c: Cache<u32> = Cache::new(3);
    c.insert_at("a".into(), 1, SECOND, 0);
    c.insert_at("b".into(), 2, SECOND, 0);
    c.insert_at("a".into(), 3, SECOND, 0);
    c.insert_at("c".into(), 4, SECOND, 0);
    c.insert_at("d".into(), 5, SECOND, 0);
    assert!(c.get_at("b", 0).is_none());
    assert_eq!(c.get_at("a", 0).map(|(v, _)| v), Some(3));
    assert_eq!(c.get_at("c", 0).map(|(v, _)| v), Some(4));
    assert_eq!(c.get_at("d", 0).map(|(v, _)| v), Some(5));
}

#[test]
fn a_capacity_of_nothing_holds_the_last_one() {
    let mut c: Cache<u32> = Cache::new(0);
    c.insert_at("a".into(), 1, SECOND, 0);
    c.insert_at("b".into(), 2, SECOND, 0);
    assert_eq!(c.len(), 1);
    assert!(c.get_at("a", 0).is_none());
    assert_eq!(c.get_at("b", 0).map(|(v, _)| v), Some(2));
}

#[test]
fn a_missing_key_is_a_miss() {
    let c: Cache<u32> = Cache::new(10);
    assert_eq!(c.get("k"), None);
    assert_eq!(c.len(), 0);
}
