use std::borrow::Cow;

use clearly_cached::coordinate::{encode_slashes, is_safe_segment, Coordinate};
use clearly_cached::fault::FetchError;

#[test]
fn rejects_unknown_type_provider_pairs() {
    assert!(Coordinate::parse("pypi", "evil", "-", "x", "1").is_err());
    assert!(Coordinate::parse("pypi", "pypi", "-", "x", "1").is_ok());
}

#[test]
fn rejects_traversal_and_separators() {
    // The allow-list is what stops this becoming an open proxy. A bare slash is
    // absent from this list on purpose -- see go_module_paths.
    for bad in ["..", ".", "a?b", "a#b", "", "a b", "a\\b", "a:b"] {
        assert!(
            Coordinate::parse("pypi", "pypi", "-", bad, "1").is_err(),
            "accepted {bad:?}"
        );
    }
}

#[test]
fn rejects_percent_encoded_traversal() {
    // These are what a double-encoded probe looks like after one decode. A
    // leftover % means the caller encoded twice, and forwarding it would let
    // upstream decode it again into a different path.
    for bad in [
        "%2e%2e%2fcurations",
        "a%00b",
        "%2e%2e",
        "%2fetc%2fpasswd",
        // Traversal in the decoded form, part by part.
        "a/../b",
        "../curations",
        "/etc/passwd",
        "a//b",
    ] {
        assert!(
            Coordinate::parse("pypi", "pypi", "-", bad, "1").is_err(),
            "accepted {bad:?}"
        );
    }
}

#[test]
fn go_module_paths_survive() {
    let coord = Coordinate::parse("go", "golang", "github.com/pkg", "errors", "v0.9.1")
        .expect("rejected a real Go coordinate");

    // Re-encoded on the way out, so the upstream path is the one upstream
    // expects and the cache key is stable.
    assert_eq!(
        coord.cache_key(),
        "go/golang/github.com%2fpkg/errors/v0.9.1"
    );

    assert!(Coordinate::parse("go", "golang", "gopkg.in/yaml.v3", "yaml.v3", "v3.0.1").is_ok());
}

#[test]
fn every_known_pair_is_forwarded() {
    for (kind, provider) in [
        ("pypi", "pypi"),
        ("npm", "npmjs"),
        ("crate", "cratesio"),
        ("maven", "mavencentral"),
        ("gem", "rubygems"),
        ("nuget", "nuget"),
        ("go", "golang"),
        ("deb", "debian"),
        ("composer", "packagist"),
        ("pod", "cocoapods"),
    ] {
        let coord = Coordinate::parse(kind, provider, "-", "x", "1").unwrap();
        assert_eq!(coord.cache_key(), format!("{kind}/{provider}/-/x/1"));
    }
    assert!(Coordinate::parse("npm", "pypi", "-", "x", "1").is_err());
    assert!(Coordinate::parse("PYPI", "pypi", "-", "x", "1").is_err());
    assert!(Coordinate::parse("", "", "-", "x", "1").is_err());
}

#[test]
fn says_what_it_rejects() {
    let pair = Coordinate::parse("pypi", "evil", "..", "x", "1").unwrap_err();
    assert!(matches!(pair, FetchError::Rejected("unsupported type/provider")));
    assert_eq!(pair.to_string(), "unsupported type/provider");

    let segment = Coordinate::parse("pypi", "pypi", "-", "..", "1").unwrap_err();
    assert!(matches!(segment, FetchError::Rejected("invalid coordinate segment")));
    assert_eq!(segment.to_string(), "invalid coordinate segment");
}

#[test]
fn every_segment_is_looked_at() {
    assert!(Coordinate::parse("npm", "npmjs", "..", "x", "1").is_err());
    assert!(Coordinate::parse("npm", "npmjs", "-", "x", "..").is_err());
    assert!(Coordinate::parse("npm", "npmjs", "@scope", "x", "1.0.0-rc.1+b~2_").is_ok());
}

#[test]
fn a_segment_is_bounded_in_bytes() {
    assert!(is_safe_segment(&"a".repeat(256)));
    assert!(!is_safe_segment(&"a".repeat(257)));
    assert!(!is_safe_segment("naïve"));
    assert!(!is_safe_segment("a/"));
}

#[test]
fn distinct_coordinates_have_distinct_keys() {
    let one = Coordinate::parse("go", "golang", "a/b", "c", "1").unwrap();
    let two = Coordinate::parse("go", "golang", "a", "b/c", "1").unwrap();
    assert_eq!(one.cache_key(), "go/golang/a%2fb/c/1");
    assert_eq!(two.cache_key(), "go/golang/a/b%2fc/1");
    assert_ne!(one.cache_key(), two.cache_key());
    assert_eq!(one.cache_key().matches('/').count(), 4);
    assert_eq!(one.clone(), one);
}

#[test]
fn slashes_are_encoded_and_nothing_else_is_touched() {
    assert!(matches!(encode_slashes("v0.9.1"), Cow::Borrowed("v0.9.1")));
    assert_eq!(encode_slashes("/a//b/"), "%2fa%2f%2fb%2f");
}
