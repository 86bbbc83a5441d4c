use pacquery::fuzzy::{exceeds_threshold, Score};
use pacquery::managers::{aggregate_results, install_args, parse_alternating_lines, Package};
use pacquery::pacman::{extract_field, pacman_details, search_pacman, RepoDb};
use pacquery::yay::search_aur;
use std::io::Write;

fn gzip_tar(entries: &[(&str, &str)]) -> Vec<u8> {
    let mut tb = tar::Builder::new(Vec::new());
    for (path, body) in entries {
        let mut h = tar::Header::new_gnu();
        h.set_size(body.len() as u64);
        h.set_mode(0o644);
        h.set_cksum();
        tb.append_data(&mut h, path, body.as_bytes()).unwrap();
    }
    let tar_bytes = tb.into_inner().unwrap();
    let mut enc = flate2::write::GzEncoder::new(Vec::new(), flate2::Compression::default());
    enc.write_all(&tar_bytes).unwrap();
    enc.finish().unwrap()
}

fn get<'a>(m: &'a [(String, String)], key: &str) -> Option<&'a str> {
    m.iter().rev().find(|(k, _)| k == key).map(|(_, v)| v.as_str())
}

#[test]
fn line_pair_full_query_yields_one_record() {
    let lines = ["extra/firefox 120.0", "    Fast web browser"];
    let r = parse_alternating_lines(&lines, "aur".to_string(), "firefox");
    assert_eq!(r.len(), 1);
    assert_eq!(r[0].provider, "aur");
    assert_eq!(r[0].name, "extra/firefox");
    assert_eq!(r[0].version, "120.0");
    assert_eq!(r[0].description, "Fast web browser");
    assert!(exceeds_threshold(&r[0].score));
}

#[test]
fn line_pair_no_subsequence_yields_nothing() {
    let lines = ["extra/firefox 120.0", "    Fast web browser"];
    let r = parse_alternating_lines(&lines, "aur".to_string(), "zq");
    assert!(r.is_empty());
}

#[test]
fn line_pair_malformed_header_is_skipped_without_losing_alignment() {
    let lines = [
        "just-one-token",
        "orphan description",
        "extra/firefox 120.0",
        "    Fast web browser",
    ];
    let r = parse_alternating_lines(&lines, "pm".to_string(), "firefox");
    assert_eq!(r.len(), 1);
    assert_eq!(r[0].name, "extra/firefox");
}

#[test]
fn line_pair_results_sorted_descending() {
    let lines = [
        "repo/axbc 1.0",
        "    weaker match",
        "repo/abc 2.0",
        "    stronger match",
    ];
    let r = parse_alternating_lines(&lines, "pm".to_string(), "abc");
    assert_eq!(r.len(), 2);
    assert_eq!(r[0].name, "repo/abc");
    assert_eq!(r[1].name, "repo/axbc");
    assert!(r[0].score.num as i128 * r[1].score.den as i128
        >= r[1].score.num as i128 * r[0].score.den as i128);
}

#[test]
fn search_aur_blank_word_or_failed_command_yield_nothing() {
    assert!(search_aur("   ", Some("extra/firefox 120.0\n    x\n"), "firefox").is_empty());
    assert!(search_aur("firefox", None, "firefox").is_empty());
}

#[test]
fn search_aur_parses_command_output() {
    let out = "extra/firefox 120.0\n    Fast web browser\n";
    let r = search_aur("firefox", Some(out), "firefox");
    assert_eq!(r.len(), 1);
    assert_eq!(r[0].provider, "aur");
    assert_eq!(r[0].name, "extra/firefox");
}

#[test]
fn extract_field_returns_next_line_trimmed() {
    let desc = "%NAME%\n  firefox  \n\n%VERSION%\n120.0\n";
    assert_eq!(extract_field(desc, "NAME").unwrap(), "firefox");
    assert_eq!(extract_field(desc, "VERSION").unwrap(), "120.0");
    assert!(extract_field(desc, "MISSING").is_none());
}

#[test]
fn search_pacman_scores_and_tags_entries() {
    let desc = "%NAME%\nfirefox\n\n%VERSION%\n120.0\n\n%DESC%\nFast web browser\n";
    let db = gzip_tar(&[("firefox-120.0/desc", desc)]);
    let repos = vec![RepoDb { path: "/var/lib/pacman/sync/core.db".to_string(), data: db }];
    let r = search_pacman("fire", &repos);
    assert_eq!(r.len(), 1);
    assert_eq!(r[0].provider, "pacman/core");
    assert_eq!(r[0].name, "firefox");
    assert_eq!(r[0].version, "120.0");
    assert_eq!(r[0].description, "Fast web browser");
    assert!(exceeds_threshold(&r[0].score));
}

#[test]
fn search_pacman_skips_entries_missing_required_fields() {
    let desc = "%NAME%\nfirefox\n\n%VERSION%\n120.0\n";
    let db = gzip_tar(&[("firefox-120.0/desc", desc)]);
    let repos = vec![RepoDb { path: "core.db".to_string(), data: db }];
    assert!(search_pacman("firefox", &repos).is_empty());
}

#[test]
fn search_pacman_ignores_non_descriptor_entries() {
    let desc = "%NAME%\nfirefox\n\n%VERSION%\n1\n\n%DESC%\nd\n";
    let db = gzip_tar(&[("firefox-120.0/files", desc)]);
    let repos = vec![RepoDb { path: "core.db".to_string(), data: db }];
    assert!(search_pacman("firefox", &repos).is_empty());
}

#[test]
fn pacman_details_first_priority_container_wins() {
    let core = "%NAME%\nfirefox\n\n%VERSION%\n1.0\n\n%DESC%\nfrom core\n";
    let extra = "%NAME%\nfirefox\n\n%VERSION%\n2.0\n\n%DESC%\nfrom extra\n";
    let repos = vec![
        RepoDb { path: "core.db".to_string(), data: gzip_tar(&[("firefox-1.0/desc", core)]) },
        RepoDb { path: "extra.db".to_string(), data: gzip_tar(&[("firefox-2.0/desc", extra)]) },
    ];
    let m = pacman_details("firefox", &repos).unwrap();
    assert_eq!(get(&m, "Repository"), Some("core"));
    assert_eq!(get(&m, "Version"), Some("1.0"));
}

#[test]
fn pacman_details_matches_by_stripped_filename() {
    // NAME differs from the queried identity, but the FILENAME stem starts
    // with "<identity>-", which matches.
    let desc = "%NAME%\nother-name\n\n%VERSION%\n1.0\n\n%DESC%\nd\n\n%FILENAME%\nfirefox-1.0-x86_64.pkg.tar.zst\n";
    let repos = vec![RepoDb {
        path: "extra.db".to_string(),
        data: gzip_tar(&[("other-name-1.0/desc", desc)]),
    }];
    let m = pacman_details("firefox", &repos).unwrap();
    assert_eq!(get(&m, "Name"), Some("other-name"));
    assert_eq!(get(&m, "Repository"), Some("extra"));
    assert_eq!(get(&m, "Filename"), Some("firefox-1.0-x86_64.pkg.tar.zst"));
}

#[test]
fn pacman_details_strips_identity_qualifier() {
    let desc = "%NAME%\nfirefox\n\n%VERSION%\n1.0\n\n%DESC%\nd\n";
    let repos = vec![RepoDb {
        path: "extra.db".to_string(),
        data: gzip_tar(&[("firefox-1.0/desc", desc)]),
    }];
    let m = pacman_details("extra/firefox", &repos).unwrap();
    assert_eq!(get(&m, "Name"), Some("firefox"));
}

#[test]
fn pacman_details_defaults_and_build_date_omission() {
    let desc = "%NAME%\nfirefox\n\n%VERSION%\n1.0\n\n%DESC%\nd\n";
    let repos = vec![RepoDb {
        path: "core.db".to_string(),
        data: gzip_tar(&[("firefox-1.0/desc", desc)]),
    }];
    let m = pacman_details("firefox", &repos).unwrap();
    // absent fields default to the empty string...
    assert_eq!(get(&m, "Architecture"), Some(""));
    assert_eq!(get(&m, "Packager"), Some(""));
    // ...except the build timestamp, which is omitted entirely
    assert!(get(&m, "Build Date").is_none());

    let desc2 = "%NAME%\nfirefox\n\n%VERSION%\n1.0\n\n%DESC%\nd\n\n%BUILDDATE%\n1700000000\n";
    let repos2 = vec![RepoDb {
        path: "core.db".to_string(),
        data: gzip_tar(&[("firefox-1.0/desc", desc2)]),
    }];
    let m2 = pacman_details("firefox", &repos2).unwrap();
    assert_eq!(get(&m2, "Build Date"), Some("1700000000"));
}

#[test]
fn pacman_details_multi_line_values_join_with_newlines() {
    let desc = "%NAME%\nfirefox\n\n%VERSION%\n1.0\n\n%DESC%\nd\n\n%DEPENDS%\nglibc\ngtk3\n";
    let repos = vec![RepoDb {
        path: "core.db".to_string(),
        data: gzip_tar(&[("firefox-1.0/desc", desc)]),
    }];
    let m = pacman_details("firefox", &repos).unwrap();
    assert_eq!(get(&m, "Depends On"), Some("glibc\ngtk3"));
}

#[test]
fn pacman_details_missing_identity_is_absent() {
    let desc = "%NAME%\nfirefox\n\n%VERSION%\n1.0\n\n%DESC%\nd\n";
    let repos = vec![RepoDb {
        path: "core.db".to_string(),
        data: gzip_tar(&[("firefox-1.0/desc", desc)]),
    }];
    assert!(pacman_details("nonexistent", &repos).is_none());
}

#[test]
fn unreadable_container_contributes_nothing() {
    let repos = vec![
        RepoDb { path: "core.db".to_string(), data: vec![1, 2, 3, 4] },
    ];
    assert!(search_pacman("firefox", &repos).is_empty());
    assert!(pacman_details("firefox", &repos).is_none());
}

#[test]
fn aggregate_merges_and_resorts() {
    let mk = |name: &str, num: i64| Package {
        provider: "pm".to_string(),
        name: name.to_string(),
        version: "1".to_string(),
        description: String::new(),
        score: Score { num, den: 20 },
    };
    let a = vec![mk("low", 10), mk("lower", 5)];
    let b = vec![mk("high", 100)];
    let merged = aggregate_results(vec![a, b]);
    assert_eq!(merged.len(), 3);
    assert_eq!(merged[0].name, "high");
    assert_eq!(merged[1].name, "low");
    assert_eq!(merged[2].name, "lower");
}

#[test]
fn install_args_strip_repository_qualifiers() {
    let sel = vec!["extra/firefox".to_string(), "bash".to_string()];
    let args = install_args("pacman", &sel);
    assert_eq!(args, vec!["pacman", "-S", "firefox", "bash"]);
}

#[test]
fn search_pacman_merges_containers_sorted() {
    let strong = "%NAME%\nabc\n\n%VERSION%\n1\n\n%DESC%\nexact\n";
    let weak = "%NAME%\naxbc\n\n%VERSION%\n2\n\n%DESC%\ngapped\n";
    let repos = vec![
        RepoDb { path: "extra.db".to_string(), data: gzip_tar(&[("axbc-2/desc", weak)]) },
        RepoDb { path: "core.db".to_string(), data: gzip_tar(&[("abc-1/desc", strong)]) },
    ];
    let r = search_pacman("abc", &repos);
    assert_eq!(r.len(), 2);
    assert_eq!(r[0].name, "abc");
    assert_eq!(r[0].provider, "pacman/core");
    assert_eq!(r[1].name, "axbc");
    assert_eq!(r[1].provider, "pacman/extra");
}

#[test]
fn install_args_for_the_aur_helper() {
    let sel = vec!["aur/yay-bin".to_string()];
    assert_eq!(install_args("yay", &sel), vec!["yay", "-S", "yay-bin"]);
}
