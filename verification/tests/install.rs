use vex::install::{
    add_pkg, build_jobs, build_spec, info, install_start, is_installed, is_yes,
    manifest_from_install_to, manifest_from_snapshot, manifest_path, pkg_dir, plan_sync,
    remove_from_pkgs, split_builds, tar_path, uninstall_steps, upgrade_step, version_of_build,
    vex_pkgs_dir, watch_roots, BuildJob, InstallStart, NeededPkg, PkgState, Removal, UpgradeStep,
};
use vex::install::{build_manifest, manifest_source, ManifestSource};
use vex::manifest::{Manifest, ManifestEntry};

fn strs(v: &[&str]) -> Vec<String> {
    v.iter().map(|s| s.to_string()).collect()
}

#[test]
fn paths_under_home() {
    assert_eq!(vex_pkgs_dir("/h"), "/h/.vex/pkgs");
    assert_eq!(pkg_dir("/h", "nvim"), "/h/.vex/pkgs/nvim");
    assert_eq!(tar_path("/h", "nvim"), "/h/.vex/pkgs/nvim.tar.zst");
    assert_eq!(manifest_path("/h", "nvim"), "/h/.vex/pkgs/nvim/.vex_manifest");
    assert_eq!(watch_roots("/h")[6], "/h/.vex/bin");
    assert_eq!(watch_roots("/h").len(), 7);
}

fn state(d: bool, m: bool, b: bool, e: bool) -> PkgState {
    PkgState { dir_exists: d, manifest_exists: m, build_vex_exists: b, dir_has_entries: e }
}

#[test]
fn installed_needs_dir_and_manifest() {
    assert!(is_installed(&state(true, true, false, false)));
    assert!(!is_installed(&state(true, false, true, true)));
    assert!(!is_installed(&state(false, true, false, false)));
}

#[test]
fn install_start_cases() {
    assert!(install_start(&state(true, false, true, true), false) == InstallStart::WipeStale);
    assert!(install_start(&state(true, true, true, true), false) == InstallStart::Fresh);
    assert!(install_start(&state(true, true, true, true), true) == InstallStart::Reinstall);
    assert!(install_start(&state(false, false, false, false), false) == InstallStart::Install);
    assert!(install_start(&state(true, false, false, true), false) == InstallStart::Install);
}

#[test]
fn build_spec_reads_fields() {
    let b = build_spec("name {\n\"s\"\n}\nversion {\n\"1\"\n\"2\"\n}\ncommands {\n\"make\"\n}\n");
    assert_eq!(b.name, Some("s".to_string()));
    assert_eq!(b.version, Some("1".to_string()));
    assert_eq!(b.commands, strs(&["make"]));
    assert!(b.install_to.is_empty());
    assert!(b.dependencies.is_empty());
    assert_eq!(build_spec("").version, None);
    assert_eq!(version_of_build("version {\n\"3.0\"\n}"), "3.0");
    assert_eq!(version_of_build("nothing"), "");
}

#[test]
fn info_lines() {
    let out = info("pkg", "name {\n\"n\"\n}\ndependencies {\n\"a\"\n\"b\"\n}\ncommands {\n\"make\"\n}", true);
    let want: Vec<(String, String)> = vec![
        ("Package".into(), "pkg".into()),
        ("Name".into(), "n".into()),
        ("Deps".into(), "a  b".into()),
        ("Commands".into(), "".into()),
        ("".into(), "  $ make".into()),
        ("Installed".into(), "yes".into()),
    ];
    assert_eq!(out, want);
}

#[test]
fn info_no_deps() {
    let out = info("p", "dependencies {\n\"\"\n}", false);
    assert_eq!(out[1], ("Deps".to_string(), "none".to_string()));
    assert_eq!(out[3], ("Installed".to_string(), "no".to_string()));
}

#[test]
fn manifests_from_builds() {
    let m = manifest_from_install_to("1".to_string(), &vec![("/a".to_string(), true), ("/b".to_string(), false)]);
    assert_eq!(m.save(), "V 1\nD /a\nF /b");
    let m = manifest_from_snapshot("2".to_string(), &strs(&["/d"]), &strs(&["/d/f"]));
    assert_eq!(m.save(), "V 2\nD /d\nF /d/f");
}

#[test]
fn uninstall_reverses_entries() {
    let mut m = Manifest::new("1".to_string());
    m.record_dir("/d".to_string());
    m.record_file("/d/f".to_string());
    let steps = uninstall_steps(&m, "/h", "p");
    assert_eq!(steps.len(), 3);
    assert!(matches!(&steps[0], Removal::File(p) if p == "/d/f"));
    assert!(matches!(&steps[1], Removal::Dir(p) if p == "/d"));
    assert!(matches!(&steps[2], Removal::PkgDir(p) if p == "/h/.vex/pkgs/p"));
    let _ = ManifestEntry::File(String::new());
}

fn needed(name: &str, installed: bool, local: &str, remote: &str) -> NeededPkg {
    NeededPkg {
        name: name.to_string(),
        installed,
        local_version: local.to_string(),
        remote_version: remote.to_string(),
    }
}

#[test]
fn sync_plan() {
    let ns = vec![
        needed("a", false, "", ""),
        needed("b", true, "1", "2"),
        needed("c", true, "1", "1"),
    ];
    let plan = plan_sync(&ns, &strs(&["c", "old", "b"]));
    assert_eq!(plan.to_install, strs(&["a"]));
    assert_eq!(plan.to_update, strs(&["b"]));
    assert_eq!(plan.to_remove, strs(&["old"]));
    let jobs = build_jobs(&plan);
    assert_eq!(jobs, vec![("a".to_string(), false), ("b".to_string(), true)]);
}

#[test]
fn split_by_install_to() {
    let jobs = vec![
        BuildJob { pkg: "a".into(), force: false, build_vex: Some("install-to {\n\"bin\"\n}".into()) },
        BuildJob { pkg: "b".into(), force: true, build_vex: Some("name {\n\"b\"\n}".into()) },
        BuildJob { pkg: "c".into(), force: false, build_vex: None },
    ];
    let (par, seq) = split_builds(&jobs);
    assert_eq!(par, vec![("a".to_string(), false)]);
    assert_eq!(seq, vec![("b".to_string(), true), ("c".to_string(), false)]);
}

#[test]
fn confirmation_answers() {
    assert!(is_yes("y\n"));
    assert!(is_yes("  YES "));
    assert!(is_yes("\n"));
    assert!(!is_yes("n\n"));
    assert!(!is_yes("yess"));
}

#[test]
fn upgrade_steps() {
    assert!(upgrade_step(false, "1", "2") == UpgradeStep::NotInstalled);
    assert!(upgrade_step(true, "1", "") == UpgradeStep::NotFound);
    assert!(upgrade_step(true, "1", "1") == UpgradeStep::UpToDate);
    assert!(upgrade_step(true, "1", "2") == UpgradeStep::Upgrade);
}

#[test]
fn add_package_to_list() {
    assert_eq!(add_pkg("packages {\n}\n", "nvim"), Some("packages {\n  \"nvim\"\n}\n".to_string()));
    assert_eq!(add_pkg("packages {\n  \"nvim\"\n}\n", "nvim"), None);
    assert_eq!(add_pkg("other {\n}\n", "nvim"), Some("other {\n}\n".to_string()));
}

#[test]
fn remove_package_from_list() {
    assert_eq!(
        remove_from_pkgs("packages {\n  \"a\"\n  \"b\"\n}\n", "a"),
        Some("packages {\n  \"b\"\n}".to_string())
    );
    assert_eq!(remove_from_pkgs("packages {\n}\n", "a"), None);
}

#[test]
fn yes_words() {
    assert!(vex::install::is_yes_word("y"));
    assert!(vex::install::is_yes_word("yes"));
    assert!(vex::install::is_yes_word(""));
    assert!(!vex::install::is_yes_word("Y"));
    assert!(!vex::install::is_yes_word("no"));
}

#[test]
fn manifest_source_and_build_manifest() {
    let spec = build_spec("version {\n\"1\"\n}\n");
    assert!(manifest_source(&spec) == ManifestSource::Snapshot);
    let spec2 = build_spec("version {\n\"1\"\n}\ninstall-to {\n\"/bin\"\n}\n");
    assert!(manifest_source(&spec2) == ManifestSource::InstallTo);
    let paths = vec![("/h/.vex/bin".to_string(), true)];
    let m = build_manifest("1".to_string(), ManifestSource::InstallTo, &paths, &strs(&["/x"]), &strs(&["/x/f"]));
    assert_eq!(m.save(), "V 1\nD /h/.vex/bin");
    let m = build_manifest("1".to_string(), ManifestSource::Snapshot, &paths, &strs(&["/x"]), &strs(&["/x/f"]));
    assert_eq!(m.save(), "V 1\nD /x\nF /x/f");
}

#[test]
fn add_then_remove_gives_back_the_lines() {
    let c = "// mine\npackages {\n  \"a\"\n}\n";
    let added = add_pkg(c, "b").unwrap();
    assert_eq!(remove_from_pkgs(&added, "b"), Some("// mine\npackages {\n  \"a\"\n}".to_string()));
}

#[test]
fn sync_builds_by_version() {
    let ns = vec![
        needed("new", false, "", "2"),
        needed("same", true, "1", "1"),
        needed("old", true, "1", "2"),
    ];
    let jobs = build_jobs(&plan_sync(&ns, &strs(&[])));
    assert_eq!(jobs, vec![("new".to_string(), false), ("old".to_string(), true)]);
    let none = vec![needed("same", true, "1", "1")];
    assert!(build_jobs(&plan_sync(&none, &strs(&[]))).is_empty());
}

#[test]
fn add_then_remove_keeps_the_package_list() {
    let c = "packages {\r\n  \"a\"\n\n}\n\n";
    let before = vex::vex_lang::get_values(&vex::vex_lang::parse_vex(c), "packages");
    let after = remove_from_pkgs(&add_pkg(c, "b").unwrap(), "b").unwrap();
    assert_eq!(vex::vex_lang::get_values(&vex::vex_lang::parse_vex(&after), "packages"), before);
    assert_eq!(before, strs(&["a"]));
}
