use vex::cache::{
    cache_dir, get_pkglist, get_versions_list, is_stale, pkg_version_path, pkglist_path,
    repo_hash, set_pkglist, set_versions_list,
};
use vex::cli::{default_config_text, default_pkgs_text, load_config, pkg_exists, search, ConfigError};
use vex::fetch::{
    build_vex_cache_path, fetch_urls, list_pkgs_from_url, list_versions_from_url, pkgs_list_url,
    repo_lists_pkg,
};
use vex::print::{no_ln_style, verb_style, VerbStyle};
use vex::serve::{listing_body, route, served_tarballs, Route};
use vex::snapshot::{diff_snapshots, SnapEntry};
use vex::text::{chars_of, parse_u64};

fn strs(v: &[&str]) -> Vec<String> {
    v.iter().map(|s| s.to_string()).collect()
}

#[test]
fn repo_hash_replaces_separators() {
    assert_eq!(repo_hash("http://foo.some_server.bar/x"), "http_foo_some_server_bar_x");
    assert_eq!(cache_dir("/h"), "/h/.vex/cache");
    assert_eq!(pkg_version_path("/h", "http://a.b", "p"), "/h/.vex/cache/http_a_b/p.version");
    assert_eq!(pkglist_path("/h", "http://a.b"), "/h/.vex/cache/http_a_b/pkglist");
}

#[test]
fn staleness() {
    assert!(is_stale(None, 24));
    assert!(!is_stale(Some(86400), 24));
    assert!(is_stale(Some(86401), 24));
}

#[test]
fn pkglist_round_trip() {
    let pkgs = strs(&["a v1", "b v2"]);
    assert_eq!(get_pkglist(&set_pkglist(&pkgs)), pkgs);
    assert_eq!(set_versions_list(&pkgs), "a v1\nb v2");
    assert_eq!(
        get_versions_list("a v1\n\n  b  \nc v3 extra"),
        vec![
            ("a".to_string(), "v1".to_string()),
            ("b".to_string(), "".to_string()),
            ("c".to_string(), "v3".to_string())
        ]
    );
}

#[test]
fn listing_parse() {
    let text = "xenon v5.5.5-vex deps=lua,tcc\nlua v5.4.7-vex\n\n   \ntcc\nfoo vv1 x deps=a";
    let l = list_versions_from_url(text);
    assert_eq!(l.len(), 4);
    assert_eq!(l[0], ("xenon".to_string(), "5.5.5-vex".to_string(), strs(&["lua", "tcc"])));
    assert_eq!(l[1], ("lua".to_string(), "5.4.7-vex".to_string(), Vec::new()));
    assert_eq!(l[2], ("tcc".to_string(), "".to_string(), Vec::new()));
    assert_eq!(l[3], ("foo".to_string(), "1".to_string(), strs(&["a"])));
    assert_eq!(list_pkgs_from_url(text), strs(&["xenon", "lua", "tcc", "foo"]));
    assert_eq!(pkgs_list_url("http://r"), "http://r/pkgs.list");
}

#[test]
fn listing_deps_word_as_version() {
    let l = list_versions_from_url("p deps=a");
    assert_eq!(l[0], ("p".to_string(), "deps=a".to_string(), Vec::new()));
}

#[test]
fn repo_listing_matches() {
    let names = strs(&["a.tar.zst", "b.tar", "c"]);
    assert!(repo_lists_pkg(&names, "a"));
    assert!(repo_lists_pkg(&names, "b"));
    assert!(repo_lists_pkg(&names, "c"));
    assert!(!repo_lists_pkg(&names, "d"));
    assert!(pkg_exists(&names, "b"));
    assert!(!pkg_exists(&names, "a"));
    assert_eq!(search(&names, "a"), strs(&["a.tar.zst"]));
}

#[test]
fn fetch_addresses() {
    let u = fetch_urls("http://r//", "p");
    assert_eq!(u, strs(&["http://r/vex/pkgs/p.tar.zst", "http://r/p.tar.zst"]));
    assert_eq!(build_vex_cache_path("/c", "p"), "/c/build_vex/p.buildvex");
}

#[test]
fn routes() {
    assert!(matches!(route("/vex/pkgs/"), Route::List));
    assert!(matches!(route("/vex/pkgs/a.tar.zst"), Route::File(f) if f == "a.tar.zst"));
    assert!(matches!(route("/vex/pkgs//vex/pkgs/a"), Route::File(f) if f == "a"));
    assert!(matches!(route("/"), Route::Banner));
    let t = served_tarballs(&strs(&["a.tar.zst", "b.txt", "c.tar.zst"]));
    assert_eq!(t, strs(&["a.tar.zst", "c.tar.zst"]));
    assert_eq!(listing_body(&t), "a.tar.zst\nc.tar.zst");
}

#[test]
fn verb_styles() {
    assert_eq!(verb_style("Removed"), VerbStyle::Red);
    assert_eq!(verb_style("Updating"), VerbStyle::Yellow);
    assert_eq!(verb_style("Resolving"), VerbStyle::Cyan);
    assert_eq!(verb_style("Fresh"), VerbStyle::Blue);
    assert_eq!(verb_style("Installed"), VerbStyle::Green);
    assert_eq!(no_ln_style("Compiling"), VerbStyle::Cyan);
    assert_eq!(no_ln_style("Fetching"), VerbStyle::Green);
}

#[test]
fn config_loading() {
    let c = load_config(&default_pkgs_text(), &default_config_text()).ok().unwrap();
    assert_eq!(c.ttl, 24);
    assert!(!c.is_local);
    assert!(c.repos.is_empty());
    assert!(c.pkgs.is_empty());
    let c = load_config("packages {\n\"a\"\n}", "local {\n\"true\"\n}\nrepositories {\n\"http://r\"\n}\nrefresh-time {\n\"+5\"\n}").ok().unwrap();
    assert!(c.is_local);
    assert_eq!(c.repos, strs(&["http://r"]));
    assert_eq!(c.pkgs, strs(&["a"]));
    assert_eq!(c.ttl, 5);
    assert_eq!(load_config("", "x {\n}").err(), Some(ConfigError::MissingRefreshTime));
    assert_eq!(load_config("", "refresh-time {\n\"1h\"\n}").err(), Some(ConfigError::BadRefreshTime));
}

#[test]
fn numbers() {
    assert_eq!(parse_u64(&chars_of("18446744073709551615")), Some(u64::MAX));
    assert_eq!(parse_u64(&chars_of("18446744073709551616")), None);
    assert_eq!(parse_u64(&chars_of("+")), None);
    assert_eq!(parse_u64(&chars_of("")), None);
    assert_eq!(parse_u64(&chars_of("-1")), None);
    assert_eq!(parse_u64(&chars_of("007")), Some(7));
}

#[test]
fn snapshot_difference() {
    let before = strs(&["/h/.vex", "/h/.vex/pkgs"]);
    let after = vec![
        SnapEntry { path: "/h/.vex".into(), is_dir: true },
        SnapEntry { path: "/h/.vex/bin/tool".into(), is_dir: false },
        SnapEntry { path: "/h/.vex/bin".into(), is_dir: true },
        SnapEntry { path: "/h/.vex/pkgs/p/out".into(), is_dir: false },
        SnapEntry { path: "/h/.vex/pkgsx".into(), is_dir: true },
    ];
    let (dirs, files) = diff_snapshots(&before, &after, Some("/h/.vex/pkgs/p"));
    assert_eq!(dirs, strs(&["/h/.vex/bin", "/h/.vex/pkgsx"]));
    assert_eq!(files, strs(&["/h/.vex/bin/tool"]));
}

#[test]
fn snapshot_paths_compare_by_components() {
    let before = strs(&["/h/x/", "/h/./y"]);
    let after = vec![
        SnapEntry { path: "/h/x".into(), is_dir: true },
        SnapEntry { path: "/h//y".into(), is_dir: false },
        SnapEntry { path: "/h/z".into(), is_dir: false },
        SnapEntry { path: "/h/z/".into(), is_dir: false },
    ];
    let (dirs, files) = diff_snapshots(&before, &after, None);
    assert!(dirs.is_empty());
    assert_eq!(files, strs(&["/h/z"]));
}

#[test]
fn repo_hash_is_one_component() {
    let h = repo_hash("https://a.b/c/../d");
    assert!(!h.contains('/') && !h.contains('.'));
    assert_eq!(repo_hash("http://foo.some_server.bar"), "http_foo_some_server_bar");
}

#[test]
fn server_answers() {
    assert!(matches!(route("/vex/pkgs/"), Route::List));
    assert!(matches!(route("/vex/pkgs/foo.tar.zst"), Route::File(f) if f == "foo.tar.zst"));
    assert!(matches!(route("/other"), Route::Banner));
    let served = served_tarballs(&strs(&["a.tar.zst", "notes.txt", "b.tar", "c.tar.zst"]));
    assert_eq!(listing_body(&served), "a.tar.zst\nc.tar.zst");
}
