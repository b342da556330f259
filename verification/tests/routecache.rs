use routecache::Cmp;
use routecache::cache::{build_index, redirect_target, RouteCache, SyncError};
use routecache::config::{ConfigError, ConfigField, RouteConfig};
use routecache::keys::parse_key;
use routecache::shared::SharedCache;
use routecache::version::version_cmp;

fn config() -> RouteConfig {
    RouteConfig::new(
        "pkg-bucket".to_string(),
        "AKIDEXAMPLE".to_string(),
        "SECRET-REDACTED".to_string(),
        "https://pkg.example.com".to_string(),
        Some(60),
    )
    .ok()
    .expect("valid configuration")
}

fn listing(keys: &[&str]) -> Vec<String> {
    keys.iter().map(|k| k.to_string()).collect()
}

#[test]
fn ordering_ascending_chain() {
    assert_eq!(version_cmp("1.2", "1.2.0"), Cmp::Lt);
    assert_eq!(version_cmp("1.2.0", "1.2.9"), Cmp::Lt);
    assert_eq!(version_cmp("1.2.9", "1.2.10"), Cmp::Lt);
    assert_eq!(version_cmp("1.2", "1.2.9"), Cmp::Lt);
    assert_eq!(version_cmp("1.2", "1.2.10"), Cmp::Lt);
    assert_eq!(version_cmp("1.2.0", "1.2.10"), Cmp::Lt);
}

#[test]
fn ordering_flips_and_equality() {
    assert_eq!(version_cmp("1.2.10", "1.2.9"), Cmp::Gt);
    assert_eq!(version_cmp("1.2.0", "1.2"), Cmp::Gt);
    assert_eq!(version_cmp("1.2.10", "1.2.10"), Cmp::Eq);
    assert_eq!(version_cmp("", ""), Cmp::Eq);
}

#[test]
fn ordering_numeric_not_textual() {
    assert_eq!(version_cmp("2", "10"), Cmp::Lt);
    assert_eq!(version_cmp("0.9.0", "0.10.0"), Cmp::Lt);
    assert_eq!(version_cmp("1.007", "1.8"), Cmp::Lt);
}

#[test]
fn ordering_identifiers_equal_only_when_identical() {
    // "1.02" and "1.2" agree in every component's value but are distinct
    // identifiers, so they are ordered (lexicographically as strings).
    assert_eq!(version_cmp("1.02", "1.2"), Cmp::Lt);
    assert_eq!(version_cmp("1.2", "1.02"), Cmp::Gt);
}

#[test]
fn ordering_mixed_components() {
    // A numeric component sorts before a non-numeric one.
    assert_eq!(version_cmp("10", "alpha"), Cmp::Lt);
    assert_eq!(version_cmp("1.beta", "1.10"), Cmp::Gt);
    // Non-numeric components compare lexicographically.
    assert_eq!(version_cmp("alpha", "beta"), Cmp::Lt);
    assert_eq!(version_cmp("1.0.alpha", "1.0.beta"), Cmp::Lt);
}

#[test]
fn parse_key_well_formed() {
    let t = parse_key("stable/amd64/1.0.0/pkg.deb").expect("well-formed");
    assert_eq!(t.0, "stable".to_string());
    assert_eq!(t.1, "amd64".to_string());
    assert_eq!(t.2, "1.0.0".to_string());
    // The remainder may hold further slashes, or be empty.
    assert!(parse_key("stable/amd64/1.0.0/deep/path/pkg.deb").is_some());
    assert!(parse_key("stable/amd64/1.0.0").is_some());
}

#[test]
fn parse_key_malformed() {
    assert!(parse_key("stable/amd64").is_none());
    assert!(parse_key("").is_none());
    assert!(parse_key("stable").is_none());
    assert!(parse_key("//1.0.0/pkg.deb").is_none());
    assert!(parse_key("stable//1.0.0/pkg.deb").is_none());
    assert!(parse_key("stable/amd64//pkg.deb").is_none());
}

#[test]
fn end_to_end_scenario() {
    let mut cache = RouteCache::new(config());
    let keys = listing(&[
        "stable/amd64/1.0.0/pkg.deb",
        "stable/amd64/1.2.0/pkg.deb",
        "beta/arm64/0.9.0/pkg.deb",
    ]);
    assert!(cache.sync(Ok(keys), 1000).is_ok());
    assert_eq!(cache.branches(), vec!["beta".to_string(), "stable".to_string()]);
    assert_eq!(cache.architectures("stable"), vec!["amd64".to_string()]);
    assert_eq!(
        cache.versions("stable", "amd64"),
        vec!["1.0.0".to_string(), "1.2.0".to_string()]
    );
    assert_eq!(cache.latest_version("stable", "amd64"), Some("1.2.0".to_string()));
    assert_eq!(
        cache.current_redirect("stable", "amd64", "pkg.deb"),
        Some("https://pkg.example.com/stable/amd64/1.2.0/pkg.deb".to_string())
    );
    // An unknown pair resolves to no redirect: the request layer turns
    // this into a 404.
    assert_eq!(cache.current_redirect("missing", "arch", "x"), None);
}

#[test]
fn absence_is_safe() {
    let mut cache = RouteCache::new(config());
    // Before any sync every query answers empty.
    assert!(cache.branches().is_empty());
    assert!(cache.versions("stable", "amd64").is_empty());
    assert_eq!(cache.latest_version("stable", "amd64"), None);
    let keys = listing(&["stable/amd64/1.0.0/pkg.deb"]);
    assert!(cache.sync(Ok(keys), 1).is_ok());
    // Unknown branch, unknown architecture under a known branch.
    assert!(cache.versions("nightly", "amd64").is_empty());
    assert!(cache.versions("stable", "arm64").is_empty());
    assert!(cache.architectures("nightly").is_empty());
    assert_eq!(cache.latest_version("nightly", "amd64"), None);
    assert_eq!(cache.latest_version("stable", "arm64"), None);
}

#[test]
fn failure_isolates_state() {
    let mut cache = RouteCache::new(config());
    let keys = listing(&["stable/amd64/1.0.0/pkg.deb", "beta/arm64/0.9.0/pkg.deb"]);
    assert!(cache.sync(Ok(keys), 10).is_ok());
    let branches_before = cache.branches();
    let versions_before = cache.versions("stable", "amd64");
    let success_before = cache.last_success;
    let r = cache.sync(Err(SyncError::Timeout), 20);
    assert_eq!(r, Err(SyncError::Timeout));
    assert_eq!(cache.branches(), branches_before);
    assert_eq!(cache.versions("stable", "amd64"), versions_before);
    assert_eq!(cache.last_success, success_before);
    assert_eq!(cache.last_attempt, Some(20));
}

#[test]
fn failure_while_unsynced_stays_unsynced() {
    let mut cache = RouteCache::new(config());
    let r = cache.sync(Err(SyncError::AuthFailure), 5);
    assert_eq!(r, Err(SyncError::AuthFailure));
    assert!(cache.branches().is_empty());
    assert_eq!(cache.last_success, None);
    assert_eq!(cache.last_attempt, Some(5));
}

#[test]
fn sync_is_idempotent() {
    let keys = [
        "stable/amd64/1.0.0/pkg.deb",
        "stable/amd64/1.2.0/pkg.deb",
        "stable/arm64/1.1.0/pkg.deb",
        "beta/arm64/0.9.0/pkg.deb",
    ];
    let mut c1 = RouteCache::new(config());
    assert!(c1.sync(Ok(listing(&keys)), 1).is_ok());
    let mut c2 = RouteCache::new(config());
    assert!(c2.sync(Ok(listing(&keys)), 2).is_ok());
    // A second sync of c2 against the unchanged store.
    assert!(c2.sync(Ok(listing(&keys)), 3).is_ok());
    assert_eq!(c1.branches(), c2.branches());
    for b in c1.branches() {
        assert_eq!(c1.architectures(&b), c2.architectures(&b));
        for a in c1.architectures(&b) {
            assert_eq!(c1.versions(&b, &a), c2.versions(&b, &a));
            assert_eq!(c1.latest_version(&b, &a), c2.latest_version(&b, &a));
        }
    }
}

#[test]
fn malformed_keys_are_skipped() {
    let mut cache = RouteCache::new(config());
    let keys = listing(&["stable/amd64/1.0.0/pkg.deb", "stable/amd64"]);
    // The malformed key is skipped; synchronization still succeeds.
    assert!(cache.sync(Ok(keys), 7).is_ok());
    assert_eq!(cache.branches(), vec!["stable".to_string()]);
    assert_eq!(cache.versions("stable", "amd64"), vec!["1.0.0".to_string()]);
}

#[test]
fn duplicate_keys_count_once() {
    let idx = build_index(&listing(&[
        "stable/amd64/1.0.0/pkg.deb",
        "stable/amd64/1.0.0/pkg.tar",
        "stable/amd64/1.0.0/pkg.deb",
    ]));
    assert_eq!(idx.versions("stable", "amd64"), vec!["1.0.0".to_string()]);
}

#[test]
fn versions_sorted_whatever_the_listing_order() {
    let idx = build_index(&listing(&[
        "s/a/2.0/x",
        "s/a/1.10/x",
        "s/a/1.2/x",
        "s/a/1.2.0/x",
    ]));
    assert_eq!(
        idx.versions("s", "a"),
        vec!["1.2".to_string(), "1.2.0".to_string(), "1.10".to_string(), "2.0".to_string()]
    );
    assert_eq!(idx.latest_version("s", "a"), Some("2.0".to_string()));
}

#[test]
fn redirect_target_joins_with_slashes() {
    assert_eq!(
        redirect_target("https://pkg.example.com", "stable", "amd64", "1.2.0", "pkg.deb"),
        "https://pkg.example.com/stable/amd64/1.2.0/pkg.deb".to_string()
    );
}

#[test]
fn config_missing_fields() {
    let e = RouteConfig::new(
        "".to_string(),
        "k".to_string(),
        "s".to_string(),
        "https://x.example".to_string(),
        None,
    );
    assert_eq!(e.err(), Some(ConfigError::MissingField(ConfigField::Location)));
    let e = RouteConfig::new(
        "b".to_string(),
        "".to_string(),
        "s".to_string(),
        "https://x.example".to_string(),
        None,
    );
    assert_eq!(e.err(), Some(ConfigError::MissingField(ConfigField::AccessKey)));
    let e = RouteConfig::new(
        "b".to_string(),
        "k".to_string(),
        "".to_string(),
        "https://x.example".to_string(),
        None,
    );
    assert_eq!(e.err(), Some(ConfigError::MissingField(ConfigField::SecretKey)));
    let e = RouteConfig::new("b".to_string(), "k".to_string(), "s".to_string(), "".to_string(), None);
    assert_eq!(e.err(), Some(ConfigError::MissingField(ConfigField::PublicPrefix)));
}

#[test]
fn config_invalid_credentials() {
    let e = RouteConfig::new(
        "b".to_string(),
        "bad key".to_string(),
        "s".to_string(),
        "https://x.example".to_string(),
        None,
    );
    assert_eq!(e.err(), Some(ConfigError::InvalidCredentials(ConfigField::AccessKey)));
    let e = RouteConfig::new(
        "b".to_string(),
        "k".to_string(),
        "bad\tsecret".to_string(),
        "https://x.example".to_string(),
        None,
    );
    assert_eq!(e.err(), Some(ConfigError::InvalidCredentials(ConfigField::SecretKey)));
}

#[test]
fn config_invalid_url() {
    // A relative or senseless prefix is rejected by URL parsing.
    let e = RouteConfig::new(
        "b".to_string(),
        "k".to_string(),
        "s".to_string(),
        "not a url".to_string(),
        None,
    );
    assert_eq!(e.err(), Some(ConfigError::InvalidUrl(ConfigField::PublicPrefix)));
    let e = RouteConfig::new(
        "b".to_string(),
        "k".to_string(),
        "s".to_string(),
        "/relative/path".to_string(),
        None,
    );
    assert_eq!(e.err(), Some(ConfigError::InvalidUrl(ConfigField::PublicPrefix)));
}

#[test]
fn config_valid() {
    let c = RouteConfig::new(
        "pkg-bucket".to_string(),
        "AKIDEXAMPLE".to_string(),
        "SECRET-REDACTED".to_string(),
        "https://pkg.example.com".to_string(),
        Some(300),
    )
    .ok()
    .expect("valid configuration accepted");
    assert_eq!(c.public_prefix(), "https://pkg.example.com");
    assert_eq!(c.refresh_secs, Some(300));
    let cache = RouteCache::new(c);
    assert_eq!(cache.public_prefix(), "https://pkg.example.com");
    assert_eq!(cache.last_attempt, None);
    assert_eq!(cache.last_success, None);
}

#[test]
fn shared_cache_serves_complete_snapshots() {
    let cache = SharedCache::new(config());
    assert!(cache.branches().is_empty());
    let keys = listing(&[
        "stable/amd64/1.0.0/pkg.deb",
        "stable/amd64/1.2.0/pkg.deb",
        "beta/arm64/0.9.0/pkg.deb",
    ]);
    assert!(cache.sync(Ok(keys), 1).is_ok());
    assert_eq!(cache.branches(), vec!["beta".to_string(), "stable".to_string()]);
    assert_eq!(cache.architectures("beta"), vec!["arm64".to_string()]);
    assert_eq!(
        cache.versions("stable", "amd64"),
        vec!["1.0.0".to_string(), "1.2.0".to_string()]
    );
    assert_eq!(cache.latest_version("stable", "amd64"), Some("1.2.0".to_string()));
    assert_eq!(
        cache.current_redirect("stable", "amd64", "pkg.deb"),
        Some("https://pkg.example.com/stable/amd64/1.2.0/pkg.deb".to_string())
    );
    // A failed listing leaves the prior snapshot authoritative.
    let r = cache.sync(Err(SyncError::ListingFailed), 2);
    assert_eq!(r, Err(SyncError::ListingFailed));
    assert_eq!(cache.branches(), vec!["beta".to_string(), "stable".to_string()]);
    assert_eq!(cache.current_redirect("missing", "arch", "x"), None);
}
