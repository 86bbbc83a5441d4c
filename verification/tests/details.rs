use pacquery::managers::{details_package, DetailsCache, DetailsStep};
use pacquery::yay::{aur_details, normalize_aur_value, JsonElem, JsonVal, RegistryResults, RegistryValue};

fn get<'a>(m: &'a [(String, String)], key: &str) -> Option<&'a str> {
    m.iter().rev().find(|(k, _)| k == key).map(|(_, v)| v.as_str())
}

#[test]
fn normalize_null_is_the_text_none() {
    assert_eq!(normalize_aur_value(&JsonVal::Null), "None");
}

#[test]
fn normalize_array_joins_three_elements_in_order() {
    let v = JsonVal::List(vec![
        JsonElem::Text("glibc".to_string()),
        JsonElem::Text("gtk3".to_string()),
        JsonElem::Rendered("42".to_string()),
    ]);
    assert_eq!(normalize_aur_value(&v), "glibc, gtk3, 42");
}

#[test]
fn normalize_string_and_other_pass_through() {
    assert_eq!(normalize_aur_value(&JsonVal::Text("hello".to_string())), "hello");
    assert_eq!(normalize_aur_value(&JsonVal::Other("3.14".to_string())), "3.14");
    assert_eq!(normalize_aur_value(&JsonVal::List(vec![])), "");
}

fn sample_fields() -> Vec<(String, JsonVal)> {
    vec![
        ("Name".to_string(), JsonVal::Text("yay".to_string())),
        ("Version".to_string(), JsonVal::Text("12.0".to_string())),
        ("Maintainer".to_string(), JsonVal::Null),
        (
            "Depends".to_string(),
            JsonVal::List(vec![
                JsonElem::Text("git".to_string()),
                JsonElem::Text("pacman".to_string()),
            ]),
        ),
        ("NumVotes".to_string(), JsonVal::Other("2048".to_string())),
    ]
}

#[test]
fn aur_details_from_direct_object() {
    let m = aur_details(&RegistryResults::Single(RegistryValue::Object(sample_fields()))).unwrap();
    assert_eq!(get(&m, "Name"), Some("yay"));
    assert_eq!(get(&m, "Version"), Some("12.0"));
    assert_eq!(get(&m, "Maintainer"), Some("None"));
    assert_eq!(get(&m, "Depends On"), Some("git, pacman"));
    assert_eq!(get(&m, "Votes"), Some("2048"));
    // absent source fields produce no entry at all
    assert!(get(&m, "Licenses").is_none());
    assert!(get(&m, "Keywords").is_none());
}

#[test]
fn aur_details_from_results_array_uses_first_element() {
    let m = aur_details(&RegistryResults::List(vec![RegistryValue::Object(sample_fields())]))
        .unwrap();
    assert_eq!(get(&m, "Name"), Some("yay"));
}

#[test]
fn aur_details_rejects_empty_or_non_object_results() {
    assert!(aur_details(&RegistryResults::List(vec![])).is_none());
    assert!(aur_details(&RegistryResults::List(vec![RegistryValue::NonObject])).is_none());
    assert!(aur_details(&RegistryResults::Single(RegistryValue::NonObject)).is_none());
}

fn sample_map() -> Vec<(String, String)> {
    vec![
        ("Name".to_string(), "firefox".to_string()),
        ("Version".to_string(), "120.0".to_string()),
    ]
}

#[test]
fn details_cache_hit_after_store_never_refetches() {
    let mut cache = DetailsCache::new();
    let mut fetches = 0;

    // first call: a miss directed at the archive adapter
    match details_package(&cache, "extra/firefox", "pacman/extra") {
        DetailsStep::FetchPacman(name) => {
            assert_eq!(name, "firefox");
            fetches += 1;
            // the fetch succeeds; the caller stores under the verbatim identity
            cache.store("extra/firefox", sample_map());
        }
        _ => panic!("expected a pacman fetch step"),
    }

    // second call: served from the cache, the adapter is not invoked again
    match details_package(&cache, "extra/firefox", "pacman/extra") {
        DetailsStep::Hit(m) => {
            assert_eq!(m, sample_map());
        }
        _ => panic!("expected a cache hit"),
    }
    assert_eq!(fetches, 1);
}

#[test]
fn details_cache_failure_is_not_cached() {
    let cache = DetailsCache::new();
    let mut fetches = 0;

    for _ in 0..2 {
        match details_package(&cache, "somepkg", "aur") {
            DetailsStep::FetchAur(name) => {
                assert_eq!(name, "somepkg");
                fetches += 1;
                // the fetch fails: nothing is stored
            }
            _ => panic!("expected an aur fetch step"),
        }
    }
    // both calls re-attempted the full adapter work
    assert_eq!(fetches, 2);
}

#[test]
fn details_cache_key_is_the_verbatim_identity() {
    let mut cache = DetailsCache::new();
    cache.store("extra/firefox", sample_map());
    // the bare name is a different key: still a miss
    match details_package(&cache, "firefox", "pacman/extra") {
        DetailsStep::FetchPacman(name) => assert_eq!(name, "firefox"),
        _ => panic!("expected a miss for the unqualified identity"),
    }
}

#[test]
fn details_dispatch_by_provider_family() {
    let cache = DetailsCache::new();
    assert!(matches!(
        details_package(&cache, "pkg", "aur"),
        DetailsStep::FetchAur(_)
    ));
    assert!(matches!(
        details_package(&cache, "pkg", "pacman/core"),
        DetailsStep::FetchPacman(_)
    ));
    assert!(matches!(
        details_package(&cache, "pkg", "snap"),
        DetailsStep::Unknown
    ));
}

#[test]
fn details_cache_lookup_returns_a_copy() {
    let mut cache = DetailsCache::new();
    cache.store("k", sample_map());
    let m = cache.lookup("k").unwrap();
    assert_eq!(m, sample_map());
    assert!(cache.lookup("absent").is_none());
}

#[test]
fn details_cache_later_store_shadows_earlier() {
    let mut cache = DetailsCache::new();
    cache.store("k", vec![("Version".to_string(), "1".to_string())]);
    cache.store("k", vec![("Version".to_string(), "2".to_string())]);
    let m = cache.lookup("k").unwrap();
    assert_eq!(get(&m, "Version"), Some("2"));
}
