//! Installing, upgrading and removing packages: where things go under
//! `~/.vex`, what a `build.vex` asks for, and the decisions of `sync`,
//! `upgrade`, `add` and `remove`.

use vstd::prelude::*;
use crate::text::{
    lemma_lines_no_newline, lemma_lines_of_join, lemma_trim_drop_last, matches_at, none_contain, strip_cr, starts_with,
    cat, chars_of, chars_of_strings, contains, contains_exec, join, join_of, lines, lines_of,
    push_all, replace_first, replace_first_of, str_views, string_of, strings_of, trim_of, trim_ws,
    views, CharClass, chars_eq, split, strip_crs, lead, trail, trim_start, trim_end,
    lemma_split_at_sep, lemma_split_single, lemma_split_nonempty, lemma_replace_first_at,
};
use crate::vex_lang::{get_values, parse_vex, spec_values, spec_parse_vex, lemma_parse_rejoined};
use crate::manifest::{Manifest, ManifestEntry, EntryView, entry_views};

verus! {

// ─────────────────────────────────── paths ───────────────────────────────────

/// `~/.vex/pkgs`, where packages are unpacked and built.
pub fn vex_pkgs_dir(home: &str) -> (p: String)
    ensures
        p@ == home@ + "/.vex/pkgs"@,
{
    cat(home, "/.vex/pkgs")
}

/// The directory of one package.
pub fn pkg_dir(home: &str, pkg_name: &str) -> (p: String)
    ensures
        p@ == home@ + "/.vex/pkgs"@ + "/"@ + pkg_name@,
{
    cat(cat(vex_pkgs_dir(home).as_str(), "/").as_str(), pkg_name)
}

/// Where the tarball of a package is downloaded.
pub fn tar_path(home: &str, pkg_name: &str) -> (p: String)
    ensures
        p@ == home@ + "/.vex/pkgs"@ + "/"@ + pkg_name@ + ".tar.zst"@,
{
    cat(pkg_dir(home, pkg_name).as_str(), ".tar.zst")
}

/// The manifest of an installed package.
pub fn manifest_path(home: &str, pkg_name: &str) -> (p: String)
    ensures
        p@ == home@ + "/.vex/pkgs"@ + "/"@ + pkg_name@ + "/.vex_manifest"@,
{
    cat(pkg_dir(home, pkg_name).as_str(), "/.vex_manifest")
}

/// The `build.vex` of an unpacked package.
pub fn build_vex_path(home: &str, pkg_name: &str) -> (p: String)
    ensures
        p@ == home@ + "/.vex/pkgs"@ + "/"@ + pkg_name@ + "/build.vex"@,
{
    cat(pkg_dir(home, pkg_name).as_str(), "/build.vex")
}

/// The directory a package is unpacked into before it replaces its package directory.
pub fn unpack_dir(home: &str, pkg_name: &str) -> (p: String)
    ensures
        p@ == home@ + "/.vex/.tmp_"@ + pkg_name@,
{
    cat(cat(home, "/.vex/.tmp_").as_str(), pkg_name)
}

/// The directory a package is unpacked into to read its version.
pub fn peek_dir(home: &str, pkg_name: &str) -> (p: String)
    ensures
        p@ == home@ + "/.vex/.tmp_peek_"@ + pkg_name@,
{
    cat(cat(home, "/.vex/.tmp_peek_").as_str(), pkg_name)
}

/// The directory a local tarball is unpacked into.
pub fn local_build_dir(home: &str) -> (p: String)
    ensures
        p@ == home@ + "/.vex/.tmp_build_tar"@,
{
    cat(home, "/.vex/.tmp_build_tar")
}

/// The user's package list.
pub fn pkgs_vex_path(home: &str) -> (p: String)
    ensures
        p@ == home@ + "/.config/vex/pkgs.vex"@,
{
    cat(home, "/.config/vex/pkgs.vex")
}

/// The user's configuration.
pub fn config_vex_path(home: &str) -> (p: String)
    ensures
        p@ == home@ + "/.config/vex/config.vex"@,
{
    cat(home, "/.config/vex/config.vex")
}

/// The directories watched for files that a build installs.
pub fn watch_roots(home: &str) -> (roots: Vec<String>)
    ensures
        str_views(roots@) == seq![
            home@ + "/.vex"@,
            home@ + "/.local"@,
            home@ + "/.config"@,
            home@ + "/.bin"@,
            home@ + "/bin"@,
            home@ + "/.vex/lib"@,
            home@ + "/.vex/bin"@,
        ],
{
    let mut roots: Vec<String> = Vec::new();
    roots.push(cat(home, "/.vex"));
    roots.push(cat(home, "/.local"));
    roots.push(cat(home, "/.config"));
    roots.push(cat(home, "/.bin"));
    roots.push(cat(home, "/bin"));
    roots.push(cat(home, "/.vex/lib"));
    roots.push(cat(home, "/.vex/bin"));
    assert(str_views(roots@) =~= seq![
        home@ + "/.vex"@,
        home@ + "/.local"@,
        home@ + "/.config"@,
        home@ + "/.bin"@,
        home@ + "/bin"@,
        home@ + "/.vex/lib"@,
        home@ + "/.vex/bin"@,
    ]);
    roots
}

/// Where an `install-to` entry points: `~/.vex/<entry>`.
pub fn install_to_path(home: &str, entry: &str) -> (p: String)
    ensures
        p@ == home@ + "/.vex/"@ + entry@,
{
    cat(cat(home, "/.vex/").as_str(), entry)
}

// ───────────────────────────── state of a package ────────────────────────────

/// What the file system shows of a package.
pub struct PkgState {
    /// Its package directory exists.
    pub dir_exists: bool,
    /// Its manifest exists.
    pub manifest_exists: bool,
    /// Its `build.vex` exists.
    pub build_vex_exists: bool,
    /// Its package directory has entries, or could not be listed.
    pub dir_has_entries: bool,
}

/// A package is installed when its directory and its manifest exist.
pub fn is_installed(state: &PkgState) -> (b: bool)
    ensures
        b == (state.dir_exists && state.manifest_exists),
{
    state.dir_exists && state.manifest_exists
}

/// How an install begins.
#[derive(PartialEq, Eq, Structural, Clone, Copy)]
pub enum InstallStart {
    /// A build was left half done (unpacked, no manifest): wipe it and install.
    WipeStale,
    /// Installed already and not forced: nothing to do.
    Fresh,
    /// Forced: wipe the package directory and install again.
    Reinstall,
    /// Install.
    Install,
}

pub open spec fn spec_install_start(s: PkgState, force: bool) -> InstallStart {
    if s.dir_exists && !s.manifest_exists && s.build_vex_exists && s.dir_has_entries {
        InstallStart::WipeStale
    } else if s.dir_exists && s.manifest_exists && !force {
        InstallStart::Fresh
    } else if force {
        InstallStart::Reinstall
    } else {
        InstallStart::Install
    }
}

pub fn install_start(state: &PkgState, force: bool) -> (r: InstallStart)
    ensures
        r == spec_install_start(*state, force),
{
    if state.dir_exists && !state.manifest_exists && state.build_vex_exists && state.dir_has_entries {
        InstallStart::WipeStale
    } else if is_installed(state) && !force {
        InstallStart::Fresh
    } else if force {
        InstallStart::Reinstall
    } else {
        InstallStart::Install
    }
}

// ─────────────────────────────────── build.vex ───────────────────────────────

pub open spec fn opt_view(o: Option<String>) -> Option<Seq<char>> {
    match o {
        Some(s) => Some(s@),
        None => None,
    }
}

pub open spec fn first_of(s: Seq<Seq<char>>) -> Option<Seq<char>> {
    if s.len() > 0 {
        Some(s[0])
    } else {
        None
    }
}

/// What a `build.vex` asks for.
pub struct BuildSpec {
    pub name: Option<String>,
    pub version: Option<String>,
    pub dependencies: Vec<String>,
    pub commands: Vec<String>,
    pub install_to: Vec<String>,
}

fn first_string(v: &Vec<String>) -> (r: Option<String>)
    ensures
        opt_view(r) == first_of(str_views(v@)),
{
    if v.len() > 0 {
        Some(v[0].clone())
    } else {
        None
    }
}

/// Reads a `build.vex`: the first `name` and `version` entries, and the
/// `dependencies`, `commands` and `install-to` lists.
pub fn build_spec(content: &str) -> (b: BuildSpec)
    ensures
        opt_view(b.name) == first_of(spec_values(content@, "name"@)),
        opt_view(b.version) == first_of(spec_values(content@, "version"@)),
        str_views(b.dependencies@) == spec_values(content@, "dependencies"@),
        str_views(b.commands@) == spec_values(content@, "commands"@),
        str_views(b.install_to@) == spec_values(content@, "install-to"@),
{
    let parsed = parse_vex(content);
    let names = get_values(&parsed, "name");
    let versions = get_values(&parsed, "version");
    BuildSpec {
        name: first_string(&names),
        version: first_string(&versions),
        dependencies: get_values(&parsed, "dependencies"),
        commands: get_values(&parsed, "commands"),
        install_to: get_values(&parsed, "install-to"),
    }
}

/// The version a `build.vex` names, or nothing.
pub fn version_of_build(content: &str) -> (v: String)
    ensures
        v@ == match first_of(spec_values(content@, "version"@)) {
            Some(x) => x,
            None => Seq::empty(),
        },
{
    let parsed = parse_vex(content);
    let versions = get_values(&parsed, "version");
    if versions.len() > 0 {
        versions[0].clone()
    } else {
        string_of(&Vec::new())
    }
}


// ──────────────────────────────────── info ───────────────────────────────────

/// A line of output: the verb (right-aligned, coloured) and the message.
pub type OutLine = (String, String);

pub open spec fn out_views(v: Seq<OutLine>) -> Seq<(Seq<char>, Seq<char>)> {
    v.map_values(|l: OutLine| (l.0@, l.1@))
}

pub open spec fn or_empty(o: Option<Seq<char>>) -> Seq<char> {
    match o {
        Some(x) => x,
        None => Seq::empty(),
    }
}

/// The command lines of `info`.
pub open spec fn command_lines(cmds: Seq<Seq<char>>) -> Seq<(Seq<char>, Seq<char>)> {
    cmds.map_values(|c: Seq<char>| (Seq::<char>::empty(), "  $ "@ + c))
}

/// What `info` prints for a package whose `build.vex` is `content`.
pub open spec fn spec_info(pkg_name: Seq<char>, content: Seq<char>, installed: bool) -> Seq<(Seq<char>, Seq<char>)> {
    let name = or_empty(first_of(spec_values(content, "name"@)));
    let version = or_empty(first_of(spec_values(content, "version"@)));
    let deps = spec_values(content, "dependencies"@);
    let cmds = spec_values(content, "commands"@);
    seq![("Package"@, pkg_name)]
        + (if name.len() > 0 { seq![("Name"@, name)] } else { Seq::empty() })
        + (if version.len() > 0 { seq![("Version"@, version)] } else { Seq::empty() })
        + (if forall|i: int| 0 <= i < deps.len() ==> (#[trigger] deps[i]).len() == 0 {
            seq![("Deps"@, "none"@)]
        } else {
            seq![("Deps"@, join(deps, "  "@))]
        })
        + seq![("Commands"@, Seq::<char>::empty())]
        + command_lines(cmds)
        + seq![("Installed"@, if installed { "yes"@ } else { "no"@ })]
}

/// The entries under a key begin with a non-empty one.
pub open spec fn first_given(s: Seq<Seq<char>>) -> bool {
    s.len() > 0 && s[0].len() > 0
}

/// What `info` prints, line by line, in terms of what the `build.vex` lists: the
/// package; its name and its version, each only when the first entry under
/// `name` / `version` is non-empty, and then that entry; the dependencies joined
/// by two spaces, or `none` when every entry is empty; a `Commands` header and
/// each command in order; whether it is installed.
pub proof fn lemma_info_lines(pkg_name: Seq<char>, content: Seq<char>, installed: bool)
    ensures
        ({
            let o = spec_info(pkg_name, content, installed);
            let ns = spec_values(content, "name"@);
            let vs = spec_values(content, "version"@);
            let ds = spec_values(content, "dependencies"@);
            let cs = spec_values(content, "commands"@);
            let hn: int = if first_given(ns) { 1 } else { 0 };
            let hv: int = if first_given(vs) { 1 } else { 0 };
            let d = 1 + hn + hv;
            &&& o.len() == 4 + hn + hv + cs.len()
            &&& o[0] == ("Package"@, pkg_name)
            &&& first_given(ns) ==> o[1] == ("Name"@, ns[0])
            &&& first_given(vs) ==> o[1 + hn] == ("Version"@, vs[0])
            &&& forall|i: int| 0 <= i < o.len() && (#[trigger] o[i]).0 == "Name"@ ==> first_given(ns) && i == 1
            &&& forall|i: int| 0 <= i < o.len() && (#[trigger] o[i]).0 == "Version"@ ==> first_given(vs) && i == 1 + hn
            &&& o[d] == ("Deps"@, if forall|k: int| 0 <= k < ds.len() ==> (#[trigger] ds[k]).len() == 0 {
                "none"@
            } else {
                join(ds, "  "@)
            })
            &&& o[d + 1] == ("Commands"@, Seq::<char>::empty())
            &&& forall|i: int| 0 <= i < cs.len() ==> o[d + 2 + i] == (Seq::<char>::empty(), "  $ "@ + #[trigger] cs[i])
            &&& o[o.len() - 1] == ("Installed"@, if installed { "yes"@ } else { "no"@ })
        }),
{
    reveal_strlit("Package");
    reveal_strlit("Name");
    reveal_strlit("Version");
    reveal_strlit("Deps");
    reveal_strlit("Commands");
    reveal_strlit("Installed");
    let o = spec_info(pkg_name, content, installed);
    let ns = spec_values(content, "name"@);
    let vs = spec_values(content, "version"@);
    let ds = spec_values(content, "dependencies"@);
    let cs = spec_values(content, "commands"@);
    let name = or_empty(first_of(ns));
    let version = or_empty(first_of(vs));
    assert(name.len() > 0 <==> first_given(ns));
    assert(version.len() > 0 <==> first_given(vs));
    let p0 = seq![("Package"@, pkg_name)];
    let p1 = if name.len() > 0 { seq![("Name"@, name)] } else { Seq::<(Seq<char>, Seq<char>)>::empty() };
    let p2 = if version.len() > 0 { seq![("Version"@, version)] } else { Seq::<(Seq<char>, Seq<char>)>::empty() };
    let p3 = if forall|i: int| 0 <= i < ds.len() ==> (#[trigger] ds[i]).len() == 0 {
        seq![("Deps"@, "none"@)]
    } else {
        seq![("Deps"@, join(ds, "  "@))]
    };
    let p4 = seq![("Commands"@, Seq::<char>::empty())];
    let p5 = command_lines(cs);
    let p6 = seq![("Installed"@, if installed { "yes"@ } else { "no"@ })];
    let a = p0 + p1 + p2;
    assert(o == a + p3 + p4 + p5 + p6);
    let hn: int = if first_given(ns) { 1 } else { 0 };
    let hv: int = if first_given(vs) { 1 } else { 0 };
    let d = 1 + hn + hv;
    assert(a.len() == d);
    assert(o[0] == a[0]);
    if first_given(ns) {
        assert(o[1] == a[1]);
    }
    if first_given(vs) {
        assert(o[1 + hn] == a[1 + hn]);
    }
    assert(o[d] == p3[0]);
    assert(o[d + 1] == p4[0]);
    assert forall|i: int| 0 <= i < cs.len() implies o[d + 2 + i] == (Seq::<char>::empty(), "  $ "@ + #[trigger] cs[i]) by {
        assert(o[d + 2 + i] == p5[i]);
    }
    assert(o[o.len() - 1] == p6[0]);
    assert("Name"@ != "Package"@ && "Name"@ != "Version"@ && "Name"@ != "Deps"@ && "Name"@ != "Commands"@
        && "Name"@ != "Installed"@ && "Name"@ != Seq::<char>::empty()) by {
        assert("Name"@.len() == 4 && "Deps"@.len() == 4);
        assert("Name"@[0] != "Deps"@[0]);
    }
    assert("Version"@ != "Package"@ && "Version"@ != "Deps"@ && "Version"@ != "Commands"@
        && "Version"@ != "Installed"@ && "Version"@ != Seq::<char>::empty()) by {
        assert("Version"@.len() == 7 && "Package"@.len() == 7);
        assert("Version"@[0] != "Package"@[0]);
    }
    assert forall|i: int| 0 <= i < o.len() && (#[trigger] o[i]).0 == "Name"@ implies first_given(ns) && i == 1 by {
        if i == 0 {
            assert(o[i] == a[0]);
        } else if i < d {
            assert(o[i] == a[i]);
            if first_given(ns) && i == 1 + hn {
                assert(a[i] == p2[0]);
            } else if !first_given(ns) {
                assert(a[i] == p2[i - 1]);
            }
        } else if i == d {
        } else if i == d + 1 {
        } else if i < o.len() - 1 {
            assert(o[i] == p5[i - d - 2]);
        }
    }
    assert forall|i: int| 0 <= i < o.len() && (#[trigger] o[i]).0 == "Version"@ implies first_given(vs) && i == 1 + hn by {
        if i == 0 {
            assert(o[i] == a[0]);
        } else if i < d {
            assert(o[i] == a[i]);
            if first_given(ns) && i == 1 {
                assert(a[i] == p1[0]);
            } else {
                assert(a[i] == p2[i - 1 - hn]);
            }
        } else if i == d {
        } else if i == d + 1 {
        } else if i < o.len() - 1 {
            assert(o[i] == p5[i - d - 2]);
        }
    }
}

proof fn lemma_command_lines_push(s: Seq<Seq<char>>, c: Seq<char>)
    ensures
        command_lines(s.push(c)) == command_lines(s).push((Seq::<char>::empty(), "  $ "@ + c)),
{
    assert(command_lines(s.push(c)) =~= command_lines(s).push((Seq::<char>::empty(), "  $ "@ + c)));
}

fn line(verb: &str, msg: String) -> (l: OutLine)
    ensures
        l.0@ == verb@,
        l.1@ == msg@,
{
    (verb.to_owned(), msg)
}

/// The lines `info` prints for a package, given the text of its `build.vex` and
/// whether it is installed.
pub fn info(pkg_name: &str, content: &str, installed: bool) -> (out: Vec<OutLine>)
    ensures
        out_views(out@) == spec_info(pkg_name@, content@, installed),
{
    proof {
        reveal_strlit("");
    }
    assert(""@ =~= Seq::<char>::empty());
    let b = build_spec(content);
    let name = match &b.name { Some(n) => n.clone(), None => string_of(&Vec::new()) };
    let version = match &b.version { Some(v) => v.clone(), None => string_of(&Vec::new()) };
    let mut out: Vec<OutLine> = Vec::new();
    let ghost parts: Seq<(Seq<char>, Seq<char>)> = Seq::empty();
    let ghost nm = or_empty(first_of(spec_values(content@, "name"@)));
    let ghost vr = or_empty(first_of(spec_values(content@, "version"@)));
    assert(name@ == nm);
    assert(version@ == vr);
    out.push(line("Package", pkg_name.to_owned()));
    let ghost e1 = seq![("Package"@, pkg_name@)];
    assert(out_views(out@) =~= e1);
    if !name.as_str().is_empty() {
        out.push(line("Name", name));
    }
    let ghost e2 = e1 + (if nm.len() > 0 { seq![("Name"@, nm)] } else { Seq::empty() });
    assert(out_views(out@) =~= e2);
    if !version.as_str().is_empty() {
        out.push(line("Version", version));
    }
    let ghost e3 = e2 + (if vr.len() > 0 { seq![("Version"@, vr)] } else { Seq::empty() });
    assert(out_views(out@) =~= e3);
    let deps = &b.dependencies;
    let mut all_empty = true;
    let mut i: usize = 0;
    while i < deps.len()
        invariant
            i <= deps.len(),
            all_empty == forall|j: int| 0 <= j < i ==> (#[trigger] str_views(deps@)[j]).len() == 0,
        decreases deps.len() - i,
    {
        if !deps[i].as_str().is_empty() {
            assert(str_views(deps@)[i as int].len() > 0);
            all_empty = false;
        }
        i = i + 1;
    }
    let ghost dv = str_views(deps@);
    if all_empty {
        out.push(line("Deps", "none".to_owned()));
    } else {
        let mut sep: Vec<char> = Vec::new();
        sep.push(' ');
        sep.push(' ');
        proof {
            reveal_strlit("  ");
        }
        assert(sep@ =~= "  "@);
        out.push(line("Deps", string_of(&join_of(&chars_of_strings(deps), &sep))));
    }
    let ghost e4 = e3 + (if forall|i: int| 0 <= i < dv.len() ==> (#[trigger] dv[i]).len() == 0 {
        seq![("Deps"@, "none"@)]
    } else {
        seq![("Deps"@, join(dv, "  "@))]
    });
    assert(out_views(out@) =~= e4);
    out.push(line("Commands", "".to_owned()));
    let ghost e5 = e4 + seq![("Commands"@, Seq::<char>::empty())];
    assert(out_views(out@) =~= e5);
    let cmds = &b.commands;
    let ghost before = out_views(out@);
    let mut k: usize = 0;
    while k < cmds.len()
        invariant
            k <= cmds.len(),
            out_views(out@) == before + command_lines(str_views(cmds@).take(k as int)),
        decreases cmds.len() - k,
    {
        let ghost prev = out_views(out@);
        proof {
            reveal_strlit("");
        }
        assert(""@ =~= Seq::<char>::empty());
        out.push(line("", cat("  $ ", cmds[k].as_str())));
        assert(str_views(cmds@).take(k + 1) =~= str_views(cmds@).take(k as int).push(cmds@[k as int]@));
        proof {
            lemma_command_lines_push(str_views(cmds@).take(k as int), cmds@[k as int]@);
        }
        assert(out_views(out@) =~= prev.push((Seq::<char>::empty(), "  $ "@ + cmds@[k as int]@)));
        assert(out_views(out@) =~= before + command_lines(str_views(cmds@).take(k + 1)));
        k = k + 1;
    }
    assert(str_views(cmds@).take(cmds.len() as int) =~= str_views(cmds@));
    let ghost e6 = out_views(out@);
    out.push(line("Installed", if installed { "yes".to_owned() } else { "no".to_owned() }));
    assert(out_views(out@) =~= e6.push(("Installed"@, if installed { "yes"@ } else { "no"@ })));
    assert(out_views(out@) =~= spec_info(pkg_name@, content@, installed));
    out
}

// ───────────────────────────────── manifests ─────────────────────────────────

/// The manifest of a build whose `install-to` entries are `paths` (with whether
/// each is a directory): one entry per path, in order.
pub fn manifest_from_install_to(version: String, paths: &Vec<(String, bool)>) -> (m: Manifest)
    ensures
        m.version@ == version@,
        entry_views(m.entries@) == paths@.map_values(|p: (String, bool)| if p.1 {
            EntryView::Dir(p.0@)
        } else {
            EntryView::File(p.0@)
        }),
{
    let mut m = Manifest::new(version);
    let mut i: usize = 0;
    while i < paths.len()
        invariant
            i <= paths.len(),
            m.version@ == version@,
            entry_views(m.entries@) == paths@.take(i as int).map_values(|p: (String, bool)| if p.1 {
                EntryView::Dir(p.0@)
            } else {
                EntryView::File(p.0@)
            }),
        decreases paths.len() - i,
    {
        if paths[i].1 {
            m.record_dir(paths[i].0.clone());
        } else {
            m.record_file(paths[i].0.clone());
        }
        assert(paths@.take(i + 1) =~= paths@.take(i as int).push(paths@[i as int]));
        assert(entry_views(m.entries@) =~= paths@.take(i + 1).map_values(|p: (String, bool)| if p.1 {
            EntryView::Dir(p.0@)
        } else {
            EntryView::File(p.0@)
        }));
        i = i + 1;
    }
    assert(paths@.take(paths.len() as int) =~= paths@);
    m
}

/// The manifest of a build whose new directories and files were found by
/// comparing snapshots: the directories first, then the files.
pub fn manifest_from_snapshot(version: String, new_dirs: &Vec<String>, new_files: &Vec<String>) -> (m: Manifest)
    ensures
        m.version@ == version@,
        entry_views(m.entries@) == str_views(new_dirs@).map_values(|p: Seq<char>| EntryView::Dir(p))
            + str_views(new_files@).map_values(|p: Seq<char>| EntryView::File(p)),
{
    let mut m = Manifest::new(version);
    let mut i: usize = 0;
    while i < new_dirs.len()
        invariant
            i <= new_dirs.len(),
            m.version@ == version@,
            entry_views(m.entries@) == str_views(new_dirs@).take(i as int).map_values(|p: Seq<char>| EntryView::Dir(p)),
        decreases new_dirs.len() - i,
    {
        m.record_dir(new_dirs[i].clone());
        assert(str_views(new_dirs@).take(i + 1) =~= str_views(new_dirs@).take(i as int).push(new_dirs@[i as int]@));
        assert(entry_views(m.entries@) =~= str_views(new_dirs@).take(i + 1).map_values(|p: Seq<char>| EntryView::Dir(p)));
        i = i + 1;
    }
    assert(str_views(new_dirs@).take(new_dirs.len() as int) =~= str_views(new_dirs@));
    let ghost d = entry_views(m.entries@);
    let mut j: usize = 0;
    while j < new_files.len()
        invariant
            j <= new_files.len(),
            m.version@ == version@,
            entry_views(m.entries@) == d + str_views(new_files@).take(j as int).map_values(|p: Seq<char>| EntryView::File(p)),
        decreases new_files.len() - j,
    {
        m.record_file(new_files[j].clone());
        assert(str_views(new_files@).take(j + 1) =~= str_views(new_files@).take(j as int).push(new_files@[j as int]@));
        assert(entry_views(m.entries@) =~= d + str_views(new_files@).take(j + 1).map_values(|p: Seq<char>| EntryView::File(p)));
        j = j + 1;
    }
    assert(str_views(new_files@).take(new_files.len() as int) =~= str_views(new_files@));
    m
}

/// How `install_pkg` learns what a build installed.
#[derive(PartialEq, Eq, Structural, Clone, Copy)]
pub enum ManifestSource {
    /// From the `install-to` entries of the `build.vex`, each under `~/.vex`.
    InstallTo,
    /// By comparing snapshots of the watched directories taken before and after
    /// the build.
    Snapshot,
}

/// A build is watched by snapshots when its `build.vex` names no `install-to`
/// entry.
pub fn manifest_source(spec: &BuildSpec) -> (s: ManifestSource)
    ensures
        s == (if spec.install_to@.len() == 0 {
            ManifestSource::Snapshot
        } else {
            ManifestSource::InstallTo
        }),
{
    if spec.install_to.len() == 0 {
        ManifestSource::Snapshot
    } else {
        ManifestSource::InstallTo
    }
}

/// The manifest of a finished build, from the source that `manifest_source`
/// chose: the `install-to` paths (with whether each is a directory), or the
/// directories and files that the snapshots found.
pub fn build_manifest(
    version: String,
    source: ManifestSource,
    install_paths: &Vec<(String, bool)>,
    new_dirs: &Vec<String>,
    new_files: &Vec<String>,
) -> (m: Manifest)
    ensures
        m.version@ == version@,
        source == ManifestSource::InstallTo ==> entry_views(m.entries@) == install_paths@.map_values(
            |p: (String, bool)| if p.1 {
                EntryView::Dir(p.0@)
            } else {
                EntryView::File(p.0@)
            },
        ),
        source == ManifestSource::Snapshot ==> entry_views(m.entries@) == str_views(new_dirs@).map_values(
            |p: Seq<char>| EntryView::Dir(p),
        ) + str_views(new_files@).map_values(|p: Seq<char>| EntryView::File(p)),
{
    match source {
        ManifestSource::InstallTo => manifest_from_install_to(version, install_paths),
        ManifestSource::Snapshot => manifest_from_snapshot(version, new_dirs, new_files),
    }
}

/// One step of removing an installed package.
pub enum Removal {
    /// Remove the file if it exists.
    File(String),
    /// Remove the directory: by itself if empty, with its contents otherwise.
    Dir(String),
    /// Remove the package directory with its contents.
    PkgDir(String),
}

pub enum RemovalView {
    File(Seq<char>),
    Dir(Seq<char>),
    PkgDir(Seq<char>),
}

pub open spec fn removal_view(r: Removal) -> RemovalView {
    match r {
        Removal::File(p) => RemovalView::File(p@),
        Removal::Dir(p) => RemovalView::Dir(p@),
        Removal::PkgDir(p) => RemovalView::PkgDir(p@),
    }
}

pub open spec fn removal_views(rs: Seq<Removal>) -> Seq<RemovalView> {
    rs.map_values(|r: Removal| removal_view(r))
}

pub open spec fn removals_of(es: Seq<EntryView>) -> Seq<RemovalView> {
    es.map_values(|e: EntryView| removal_of_entry(e))
}

pub open spec fn removal_of_entry(e: EntryView) -> RemovalView {
    match e {
        EntryView::File(p) => RemovalView::File(p),
        EntryView::Dir(p) => RemovalView::Dir(p),
    }
}

/// The steps of uninstalling: the manifest's entries in reverse order (so that
/// files go before the directories that hold them), then the package directory.
pub fn uninstall_steps(manifest: &Manifest, home: &str, pkg_name: &str) -> (steps: Vec<Removal>)
    ensures
        removal_views(steps@) == removals_of(entry_views(manifest.entries@).reverse()).push(RemovalView::PkgDir(home@ + "/.vex/pkgs"@ + "/"@ + pkg_name@)),
{
    let ghost es = entry_views(manifest.entries@);
    let mut steps: Vec<Removal> = Vec::new();
    let mut i: usize = manifest.entries.len();
    while i > 0
        invariant
            i <= manifest.entries.len(),
            es == entry_views(manifest.entries@),
            removal_views(steps@) == removals_of(es.reverse().take(manifest.entries.len() - i)),
        decreases i,
    {
        i = i - 1;
        let step = match &manifest.entries[i] {
            ManifestEntry::File(p) => Removal::File(p.clone()),
            ManifestEntry::Dir(p) => Removal::Dir(p.clone()),
        };
        let ghost before = removal_views(steps@);
        steps.push(step);
        assert(removal_view(step) == removal_of_entry(es[i as int]));
        assert(removal_views(steps@) =~= before.push(removal_of_entry(es[i as int])));
        assert(es.reverse()[manifest.entries.len() - 1 - i] == es[i as int]);
        assert(es.reverse().take(manifest.entries.len() - i) =~= es.reverse().take(
            manifest.entries.len() - 1 - i,
        ).push(es[i as int]));
        assert(removals_of(es.reverse().take(manifest.entries.len() - i)) =~= removals_of(es.reverse().take(
            manifest.entries.len() - 1 - i,
        )).push(removal_of_entry(es[i as int])));
    }
    assert(es.reverse().take(manifest.entries.len() as int) =~= es.reverse());
    let ghost before = removal_views(steps@);
    steps.push(Removal::PkgDir(pkg_dir(home, pkg_name)));
    assert(removal_views(steps@) =~= before.push(RemovalView::PkgDir(home@ + "/.vex/pkgs"@ + "/"@ + pkg_name@)));
    steps
}


// ──────────────────────────────────── sync ───────────────────────────────────

/// A package that the resolution needs, with what is known of it.
pub struct NeededPkg {
    pub name: String,
    /// It is installed (see `is_installed`).
    pub installed: bool,
    /// The version in its manifest (empty when none).
    pub local_version: String,
    /// The version its repository offers (empty when unknown).
    pub remote_version: String,
}

/// What `sync` will do.
pub struct SyncPlan {
    pub to_install: Vec<String>,
    pub to_update: Vec<String>,
    pub to_remove: Vec<String>,
}

/// The needed packages that are not installed, in order.
pub open spec fn install_names(ns: Seq<NeededPkg>) -> Seq<Seq<char>>
    decreases ns.len(),
{
    if ns.len() == 0 {
        Seq::empty()
    } else if !ns.last().installed {
        install_names(ns.drop_last()).push(ns.last().name@)
    } else {
        install_names(ns.drop_last())
    }
}

/// The needed packages that are installed at another version than offered, in order.
pub open spec fn update_names(ns: Seq<NeededPkg>) -> Seq<Seq<char>>
    decreases ns.len(),
{
    if ns.len() == 0 {
        Seq::empty()
    } else if ns.last().installed && ns.last().local_version@ != ns.last().remote_version@ {
        update_names(ns.drop_last()).push(ns.last().name@)
    } else {
        update_names(ns.drop_last())
    }
}

pub open spec fn needed_names(ns: Seq<NeededPkg>) -> Seq<Seq<char>> {
    ns.map_values(|n: NeededPkg| n.name@)
}

/// The installed packages that are no longer needed, in order.
pub open spec fn remove_names(cur: Seq<Seq<char>>, needed: Seq<Seq<char>>) -> Seq<Seq<char>>
    decreases cur.len(),
{
    if cur.len() == 0 {
        Seq::empty()
    } else if !needed.contains(cur.last()) {
        remove_names(cur.drop_last(), needed).push(cur.last())
    } else {
        remove_names(cur.drop_last(), needed)
    }
}

/// What `sync` installs, updates and removes, and in what order: the needed
/// packages that are not installed, in the order of `needed` (so a dependency
/// that resolution put first is built first); the needed packages installed at
/// another version than offered, in that order too; and the installed packages
/// that are no longer needed, in their order.
pub proof fn lemma_sync_plan_lists(ns: Seq<NeededPkg>, cur: Seq<Seq<char>>)
    ensures
        install_names(ns) == ns.filter(|n: NeededPkg| !n.installed).map_values(|n: NeededPkg| n.name@),
        update_names(ns) == ns.filter(
            |n: NeededPkg| n.installed && n.local_version@ != n.remote_version@,
        ).map_values(|n: NeededPkg| n.name@),
        remove_names(cur, needed_names(ns)) == cur.filter(|x: Seq<char>| !needed_names(ns).contains(x)),
        forall|x: Seq<char>| #[trigger] remove_names(cur, needed_names(ns)).contains(x) <==> cur.contains(x)
            && !exists|k: int| 0 <= k < ns.len() && (#[trigger] ns[k]).name@ == x,
{
    lemma_install_filter(ns);
    lemma_update_filter(ns);
    lemma_remove_filter(cur, needed_names(ns));
    let rn = remove_names(cur, needed_names(ns));
    let pr = |x: Seq<char>| !needed_names(ns).contains(x);
    assert forall|x: Seq<char>| #[trigger] rn.contains(x) <==> cur.contains(x)
        && !exists|k: int| 0 <= k < ns.len() && (#[trigger] ns[k]).name@ == x by {
        assert(needed_names(ns).contains(x) <==> exists|k: int| 0 <= k < ns.len() && (#[trigger] ns[k]).name@ == x) by {
            if needed_names(ns).contains(x) {
                let k = choose|k: int| 0 <= k < needed_names(ns).len() && needed_names(ns)[k] == x;
                assert(ns[k].name@ == x);
            }
            if exists|k: int| 0 <= k < ns.len() && (#[trigger] ns[k]).name@ == x {
                let k = choose|k: int| 0 <= k < ns.len() && (#[trigger] ns[k]).name@ == x;
                assert(needed_names(ns)[k] == x);
            }
        }
        if rn.contains(x) {
            let k = choose|k: int| 0 <= k < rn.len() && rn[k] == x;
            cur.lemma_filter_pred(pr, k);
            cur.lemma_filter_contains_rev(pr, x);
        }
        if cur.contains(x) && pr(x) {
            let k = choose|k: int| 0 <= k < cur.len() && cur[k] == x;
            cur.lemma_filter_contains(pr, k);
        }
    }
}

proof fn lemma_install_filter(ns: Seq<NeededPkg>)
    ensures
        install_names(ns) == ns.filter(|n: NeededPkg| !n.installed).map_values(|n: NeededPkg| n.name@),
    decreases ns.len(),
{
    reveal(Seq::filter);
    let pr = |n: NeededPkg| !n.installed;
    let f = |n: NeededPkg| n.name@;
    if ns.len() == 0 {
        assert(ns.filter(pr).map_values(f) =~= Seq::<Seq<char>>::empty());
    } else {
        lemma_install_filter(ns.drop_last());
        let sub = ns.drop_last().filter(pr);
        if pr(ns.last()) {
            assert(ns.filter(pr) == sub.push(ns.last()));
            assert(sub.push(ns.last()).map_values(f) =~= sub.map_values(f).push(ns.last().name@));
        } else {
            assert(ns.filter(pr) == sub);
        }
    }
}

proof fn lemma_update_filter(ns: Seq<NeededPkg>)
    ensures
        update_names(ns) == ns.filter(
            |n: NeededPkg| n.installed && n.local_version@ != n.remote_version@,
        ).map_values(|n: NeededPkg| n.name@),
    decreases ns.len(),
{
    reveal(Seq::filter);
    let pr = |n: NeededPkg| n.installed && n.local_version@ != n.remote_version@;
    let f = |n: NeededPkg| n.name@;
    if ns.len() == 0 {
        assert(ns.filter(pr).map_values(f) =~= Seq::<Seq<char>>::empty());
    } else {
        lemma_update_filter(ns.drop_last());
        let sub = ns.drop_last().filter(pr);
        if pr(ns.last()) {
            assert(ns.filter(pr) == sub.push(ns.last()));
            assert(sub.push(ns.last()).map_values(f) =~= sub.map_values(f).push(ns.last().name@));
        } else {
            assert(ns.filter(pr) == sub);
        }
    }
}

proof fn lemma_remove_filter(cur: Seq<Seq<char>>, needed: Seq<Seq<char>>)
    ensures
        remove_names(cur, needed) == cur.filter(|x: Seq<char>| !needed.contains(x)),
    decreases cur.len(),
{
    reveal(Seq::filter);
    if cur.len() > 0 {
        lemma_remove_filter(cur.drop_last(), needed);
    }
}

fn contains_string(v: &Vec<String>, s: &String) -> (b: bool)
    ensures
        b == str_views(v@).contains(s@),
{
    let mut i: usize = 0;
    while i < v.len()
        invariant
            i <= v.len(),
            forall|j: int| 0 <= j < i ==> str_views(v@)[j] != s@,
        decreases v.len() - i,
    {
        if v[i] == *s {
            assert(str_views(v@)[i as int] == s@);
            return true;
        }
        i = i + 1;
    }
    false
}

/// Decides what `sync` installs (needed, not installed), updates (needed,
/// installed, at another version than offered) and removes (installed, not
/// needed).
pub fn plan_sync(needed: &Vec<NeededPkg>, currently_installed: &Vec<String>) -> (plan: SyncPlan)
    ensures
        str_views(plan.to_install@) == install_names(needed@),
        str_views(plan.to_update@) == update_names(needed@),
        str_views(plan.to_remove@) == remove_names(str_views(currently_installed@), needed_names(needed@)),
{
    let mut to_install: Vec<String> = Vec::new();
    let mut to_update: Vec<String> = Vec::new();
    let mut names: Vec<String> = Vec::new();
    let mut i: usize = 0;
    assert(needed@.take(0) =~= Seq::<NeededPkg>::empty());
    assert(str_views(to_install@) =~= Seq::<Seq<char>>::empty());
    assert(str_views(to_update@) =~= Seq::<Seq<char>>::empty());
    assert(str_views(names@) =~= needed_names(needed@.take(0)));
    while i < needed.len()
        invariant
            i <= needed.len(),
            str_views(to_install@) == install_names(needed@.take(i as int)),
            str_views(to_update@) == update_names(needed@.take(i as int)),
            str_views(names@) == needed_names(needed@.take(i as int)),
        decreases needed.len() - i,
    {
        let n = &needed[i];
        assert(needed@.take(i + 1).drop_last() =~= needed@.take(i as int));
        assert(needed@.take(i + 1).last() == *n);
        if !n.installed {
            let ghost b = str_views(to_install@);
            to_install.push(n.name.clone());
            assert(str_views(to_install@) =~= b.push(n.name@));
        }
        if n.installed && n.local_version != n.remote_version {
            let ghost b = str_views(to_update@);
            to_update.push(n.name.clone());
            assert(str_views(to_update@) =~= b.push(n.name@));
        }
        let ghost b = str_views(names@);
        names.push(n.name.clone());
        assert(str_views(names@) =~= b.push(n.name@));
        assert(needed_names(needed@.take(i + 1)) =~= needed_names(needed@.take(i as int)).push(n.name@));
        i = i + 1;
    }
    assert(needed@.take(needed.len() as int) =~= needed@);
    let mut to_remove: Vec<String> = Vec::new();
    let mut j: usize = 0;
    let ghost cur = str_views(currently_installed@);
    assert(str_views(to_remove@) =~= Seq::<Seq<char>>::empty());
    while j < currently_installed.len()
        invariant
            j <= currently_installed.len(),
            cur == str_views(currently_installed@),
            str_views(names@) == needed_names(needed@),
            str_views(to_remove@) == remove_names(cur.take(j as int), needed_names(needed@)),
        decreases currently_installed.len() - j,
    {
        assert(cur.take(j + 1).drop_last() =~= cur.take(j as int));
        assert(cur.take(j + 1).last() == currently_installed@[j as int]@);
        if !contains_string(&names, &currently_installed[j]) {
            let ghost b = str_views(to_remove@);
            to_remove.push(currently_installed[j].clone());
            assert(str_views(to_remove@) =~= b.push(currently_installed@[j as int]@));
        }
        j = j + 1;
    }
    assert(cur.take(currently_installed.len() as int) =~= cur);
    SyncPlan { to_install, to_update, to_remove }
}

pub open spec fn tagged(s: Seq<Seq<char>>, force: bool) -> Seq<(Seq<char>, bool)> {
    s.map_values(|p: Seq<char>| (p, force))
}

proof fn lemma_tagged_push(s: Seq<Seq<char>>, x: Seq<char>, force: bool)
    ensures
        tagged(s.push(x), force) == tagged(s, force).push((x, force)),
{
    assert(tagged(s.push(x), force) =~= tagged(s, force).push((x, force)));
}

/// The builds that `sync` runs for the needed packages: installs (not forced),
/// then updates (forced).
pub open spec fn sync_jobs(ns: Seq<NeededPkg>) -> Seq<(Seq<char>, bool)> {
    tagged(install_names(ns), false) + tagged(update_names(ns), true)
}

proof fn lemma_install_names_has(ns: Seq<NeededPkg>, x: Seq<char>)
    ensures
        install_names(ns).contains(x) <==> exists|j: int| #![trigger ns[j]] 0 <= j < ns.len() && !ns[j].installed && ns[j].name@ == x,
    decreases ns.len(),
{
    if ns.len() > 0 {
        let n2 = ns.drop_last();
        lemma_install_names_has(n2, x);
        if exists|j: int| #![trigger n2[j]] 0 <= j < n2.len() && !n2[j].installed && n2[j].name@ == x {
            let j = choose|j: int| #![trigger n2[j]] 0 <= j < n2.len() && !n2[j].installed && n2[j].name@ == x;
            assert(ns[j] == n2[j]);
        }
        if exists|j: int| #![trigger ns[j]] 0 <= j < ns.len() && !ns[j].installed && ns[j].name@ == x {
            let j = choose|j: int| #![trigger ns[j]] 0 <= j < ns.len() && !ns[j].installed && ns[j].name@ == x;
            if j < ns.len() - 1 {
                assert(ns[j] == n2[j]);
            }
        }
        let r = install_names(n2);
        if !ns.last().installed {
            assert(install_names(ns) == r.push(ns.last().name@));
            assert(r.push(ns.last().name@)[r.len() as int] == ns.last().name@);
            if r.push(ns.last().name@).contains(x) && x != ns.last().name@ {
                let t = choose|t: int| 0 <= t < r.len() + 1 && r.push(ns.last().name@)[t] == x;
                assert(r[t] == x);
            }
            if r.contains(x) {
                let t = choose|t: int| 0 <= t < r.len() && r[t] == x;
                assert(r.push(ns.last().name@)[t] == x);
            }
            assert(ns[ns.len() - 1] == ns.last());
        }
    }
}

proof fn lemma_update_names_has(ns: Seq<NeededPkg>, x: Seq<char>)
    ensures
        update_names(ns).contains(x) <==> exists|j: int| #![trigger ns[j]] 0 <= j < ns.len() && ns[j].installed
            && ns[j].local_version@ != ns[j].remote_version@ && ns[j].name@ == x,
    decreases ns.len(),
{
    if ns.len() > 0 {
        let n2 = ns.drop_last();
        lemma_update_names_has(n2, x);
        if exists|j: int| #![trigger n2[j]] 0 <= j < n2.len() && n2[j].installed
            && n2[j].local_version@ != n2[j].remote_version@ && n2[j].name@ == x {
            let j = choose|j: int| #![trigger n2[j]] 0 <= j < n2.len() && n2[j].installed
                && n2[j].local_version@ != n2[j].remote_version@ && n2[j].name@ == x;
            assert(ns[j] == n2[j]);
        }
        if exists|j: int| #![trigger ns[j]] 0 <= j < ns.len() && ns[j].installed
            && ns[j].local_version@ != ns[j].remote_version@ && ns[j].name@ == x {
            let j = choose|j: int| #![trigger ns[j]] 0 <= j < ns.len() && ns[j].installed
                && ns[j].local_version@ != ns[j].remote_version@ && ns[j].name@ == x;
            if j < ns.len() - 1 {
                assert(ns[j] == n2[j]);
            }
        }
        let r = update_names(n2);
        let l = ns.last();
        if l.installed && l.local_version@ != l.remote_version@ {
            assert(r.push(l.name@)[r.len() as int] == l.name@);
            if r.push(l.name@).contains(x) && x != l.name@ {
                let t = choose|t: int| 0 <= t < r.len() + 1 && r.push(l.name@)[t] == x;
                assert(r[t] == x);
            }
            if r.contains(x) {
                let t = choose|t: int| 0 <= t < r.len() && r[t] == x;
                assert(r.push(l.name@)[t] == x);
            }
        }
        assert(ns[ns.len() - 1] == ns.last());
    }
}

proof fn lemma_tagged_has(s: Seq<Seq<char>>, f: bool, x: Seq<char>, g: bool)
    ensures
        tagged(s, f).contains((x, g)) <==> g == f && s.contains(x),
{
    if tagged(s, f).contains((x, g)) {
        let t = choose|t: int| 0 <= t < tagged(s, f).len() && tagged(s, f)[t] == (x, g);
        assert(s[t] == x);
    }
    if g == f && s.contains(x) {
        let t = choose|t: int| 0 <= t < s.len() && s[t] == x;
        assert(tagged(s, f)[t] == (x, g));
    }
}

proof fn lemma_concat_has<A>(a: Seq<A>, b: Seq<A>, x: A)
    ensures
        (a + b).contains(x) <==> a.contains(x) || b.contains(x),
{
    if (a + b).contains(x) {
        let t = choose|t: int| 0 <= t < (a + b).len() && (a + b)[t] == x;
        if t < a.len() {
            assert(a[t] == x);
        } else {
            assert(b[t - a.len()] == x);
        }
    }
    if a.contains(x) {
        let t = choose|t: int| 0 <= t < a.len() && a[t] == x;
        assert((a + b)[t] == x);
    }
    if b.contains(x) {
        let t = choose|t: int| 0 <= t < b.len() && b[t] == x;
        assert((a + b)[a.len() + t] == x);
    }
}

/// What `sync` builds, package by package: a needed package that is not
/// installed is built without force; one that is installed is rebuilt, with
/// force, exactly when its installed version differs from the one offered, and
/// otherwise left alone (each needed package named once).
pub proof fn lemma_sync_builds(ns: Seq<NeededPkg>, k: int)
    requires
        0 <= k < ns.len(),
        needed_names(ns).no_duplicates(),
    ensures
        sync_jobs(ns).contains((ns[k].name@, false)) <==> !ns[k].installed,
        sync_jobs(ns).contains((ns[k].name@, true)) <==> ns[k].installed
            && ns[k].local_version@ != ns[k].remote_version@,
{
    let x = ns[k].name@;
    lemma_install_names_has(ns, x);
    lemma_update_names_has(ns, x);
    lemma_tagged_has(install_names(ns), false, x, false);
    lemma_tagged_has(install_names(ns), false, x, true);
    lemma_tagged_has(update_names(ns), true, x, false);
    lemma_tagged_has(update_names(ns), true, x, true);
    lemma_concat_has(tagged(install_names(ns), false), tagged(update_names(ns), true), (x, false));
    lemma_concat_has(tagged(install_names(ns), false), tagged(update_names(ns), true), (x, true));
    assert forall|j: int| 0 <= j < ns.len() && #[trigger] ns[j].name@ == x implies j == k by {
        assert(needed_names(ns)[j] == ns[j].name@);
        assert(needed_names(ns)[k] == ns[k].name@);
    }
}

/// `sync` builds nothing (and asks nothing) exactly when every needed package is
/// installed at the version offered.
pub proof fn lemma_sync_builds_nothing(ns: Seq<NeededPkg>)
    ensures
        sync_jobs(ns).len() == 0 <==> forall|k: int| 0 <= k < ns.len() ==> (#[trigger] ns[k]).installed
            && ns[k].local_version@ == ns[k].remote_version@,
{
    if sync_jobs(ns).len() != 0 {
        let e = sync_jobs(ns)[0];
        assert(sync_jobs(ns).contains(e));
        lemma_install_names_has(ns, e.0);
        lemma_update_names_has(ns, e.0);
        lemma_tagged_has(install_names(ns), false, e.0, e.1);
        lemma_tagged_has(update_names(ns), true, e.0, e.1);
        lemma_concat_has(tagged(install_names(ns), false), tagged(update_names(ns), true), e);
    }
    if exists|k: int| 0 <= k < ns.len() && !((#[trigger] ns[k]).installed && ns[k].local_version@ == ns[k].remote_version@) {
        let k = choose|k: int| 0 <= k < ns.len() && !((#[trigger] ns[k]).installed && ns[k].local_version@ == ns[k].remote_version@);
        let x = ns[k].name@;
        lemma_install_names_has(ns, x);
        lemma_update_names_has(ns, x);
        if !ns[k].installed {
            lemma_tagged_has(install_names(ns), false, x, false);
            lemma_concat_has(tagged(install_names(ns), false), tagged(update_names(ns), true), (x, false));
        } else {
            lemma_tagged_has(update_names(ns), true, x, true);
            lemma_concat_has(tagged(install_names(ns), false), tagged(update_names(ns), true), (x, true));
        }
    }
}

/// The builds of a plan: installs (not forced), then updates (forced).
pub fn build_jobs(plan: &SyncPlan) -> (jobs: Vec<(String, bool)>)
    ensures
        job_views(jobs@) == tagged(str_views(plan.to_install@), false) + tagged(str_views(plan.to_update@), true),
{
    let mut jobs: Vec<(String, bool)> = Vec::new();
    let mut i: usize = 0;
    assert(job_views(jobs@) =~= tagged(str_views(plan.to_install@).take(0), false));
    while i < plan.to_install.len()
        invariant
            i <= plan.to_install.len(),
            job_views(jobs@) == tagged(str_views(plan.to_install@).take(i as int), false),
        decreases plan.to_install.len() - i,
    {
        let ghost b = job_views(jobs@);
        jobs.push((plan.to_install[i].clone(), false));
        assert(job_views(jobs@) =~= b.push((plan.to_install@[i as int]@, false)));
        assert(str_views(plan.to_install@).take(i + 1) =~= str_views(plan.to_install@).take(i as int).push(plan.to_install@[i as int]@));
        proof {
            lemma_tagged_push(str_views(plan.to_install@).take(i as int), plan.to_install@[i as int]@, false);
        }
        i = i + 1;
    }
    assert(str_views(plan.to_install@).take(plan.to_install.len() as int) =~= str_views(plan.to_install@));
    let ghost first = job_views(jobs@);
    let mut k: usize = 0;
    assert(job_views(jobs@) =~= first + tagged(str_views(plan.to_update@).take(0), true));
    while k < plan.to_update.len()
        invariant
            k <= plan.to_update.len(),
            job_views(jobs@) == first + tagged(str_views(plan.to_update@).take(k as int), true),
        decreases plan.to_update.len() - k,
    {
        let ghost b = job_views(jobs@);
        jobs.push((plan.to_update[k].clone(), true));
        assert(job_views(jobs@) =~= b.push((plan.to_update@[k as int]@, true)));
        assert(str_views(plan.to_update@).take(k + 1) =~= str_views(plan.to_update@).take(k as int).push(plan.to_update@[k as int]@));
        proof {
            lemma_tagged_push(str_views(plan.to_update@).take(k as int), plan.to_update@[k as int]@, true);
        }
        assert(job_views(jobs@) =~= first + tagged(str_views(plan.to_update@).take(k + 1), true));
        k = k + 1;
    }
    assert(str_views(plan.to_update@).take(plan.to_update.len() as int) =~= str_views(plan.to_update@));
    jobs
}

/// A build to run, with the text of its `build.vex` if it could be read.
pub struct BuildJob {
    pub pkg: String,
    pub force: bool,
    pub build_vex: Option<String>,
}

/// The build lists the directories it installs to, so that it can run beside others.
pub open spec fn has_install_to(j: BuildJob) -> bool {
    match j.build_vex {
        Some(c) => spec_values(c@, "install-to"@).len() > 0,
        None => false,
    }
}

pub open spec fn jobs_where(js: Seq<BuildJob>, parallel: bool) -> Seq<(Seq<char>, bool)>
    decreases js.len(),
{
    if js.len() == 0 {
        Seq::empty()
    } else if has_install_to(js.last()) == parallel {
        jobs_where(js.drop_last(), parallel).push((js.last().pkg@, js.last().force))
    } else {
        jobs_where(js.drop_last(), parallel)
    }
}

pub open spec fn job_views(v: Seq<(String, bool)>) -> Seq<(Seq<char>, bool)> {
    v.map_values(|j: (String, bool)| (j.0@, j.1))
}

/// The builds split by whether their `build.vex` lists `install-to`, each side
/// keeping the order of the jobs.
pub proof fn lemma_split_builds_keep_order(js: Seq<BuildJob>, parallel: bool)
    ensures
        jobs_where(js, parallel) == js.filter(|j: BuildJob| has_install_to(j) == parallel).map_values(
            |j: BuildJob| (j.pkg@, j.force),
        ),
    decreases js.len(),
{
    reveal(Seq::filter);
    let pr = |j: BuildJob| has_install_to(j) == parallel;
    let f = |j: BuildJob| (j.pkg@, j.force);
    if js.len() == 0 {
        assert(js.filter(pr).map_values(f) =~= Seq::<(Seq<char>, bool)>::empty());
    } else {
        lemma_split_builds_keep_order(js.drop_last(), parallel);
        let sub = js.drop_last().filter(pr);
        if pr(js.last()) {
            assert(js.filter(pr) == sub.push(js.last()));
            assert(sub.push(js.last()).map_values(f) =~= sub.map_values(f).push(f(js.last())));
        } else {
            assert(js.filter(pr) == sub);
        }
    }
}

/// Splits the builds: those that list `install-to` run side by side, the others
/// one after another (their installed files are found by snapshots).
pub fn split_builds(jobs: &Vec<BuildJob>) -> (r: (Vec<(String, bool)>, Vec<(String, bool)>))
    ensures
        job_views(r.0@) == jobs_where(jobs@, true),
        job_views(r.1@) == jobs_where(jobs@, false),
{
    let mut parallel: Vec<(String, bool)> = Vec::new();
    let mut sequential: Vec<(String, bool)> = Vec::new();
    let mut i: usize = 0;
    assert(jobs@.take(0) =~= Seq::<BuildJob>::empty());
    assert(job_views(parallel@) =~= Seq::<(Seq<char>, bool)>::empty());
    assert(job_views(sequential@) =~= Seq::<(Seq<char>, bool)>::empty());
    while i < jobs.len()
        invariant
            i <= jobs.len(),
            job_views(parallel@) == jobs_where(jobs@.take(i as int), true),
            job_views(sequential@) == jobs_where(jobs@.take(i as int), false),
        decreases jobs.len() - i,
    {
        let j = &jobs[i];
        assert(jobs@.take(i + 1).drop_last() =~= jobs@.take(i as int));
        assert(jobs@.take(i + 1).last() == *j);
        let has = match &j.build_vex {
            Some(content) => {
                let parsed = parse_vex(content.as_str());
                get_values(&parsed, "install-to").len() > 0
            },
            None => false,
        };
        if has {
            let ghost b = job_views(parallel@);
            parallel.push((j.pkg.clone(), j.force));
            assert(job_views(parallel@) =~= b.push((j.pkg@, j.force)));
        } else {
            let ghost b = job_views(sequential@);
            sequential.push((j.pkg.clone(), j.force));
            assert(job_views(sequential@) =~= b.push((j.pkg@, j.force)));
        }
        i = i + 1;
    }
    assert(jobs@.take(jobs.len() as int) =~= jobs@);
    (parallel, sequential)
}

/// What `str::to_lowercase` gives for a string.
pub uninterp spec fn lowercase(s: Seq<char>) -> Seq<char>;

/// `str::to_lowercase`.
#[verifier::external_body]
fn to_lowercase(s: &str) -> (r: String)
    ensures
        r@ == lowercase(s@),
{
    s.to_lowercase()
}

/// The answer to a yes/no question is yes: `y`, `yes` or nothing, in any case,
/// around whitespace.
pub fn is_yes(input: &str) -> (b: bool)
    ensures
        b == (lowercase(trim_ws(input@)) == "y"@ || lowercase(trim_ws(input@)) == "yes"@
            || lowercase(trim_ws(input@)) == ""@),
{
    let t = string_of(&trim_of(&chars_of(input), CharClass::Whitespace));
    let l = to_lowercase(t.as_str());
    is_yes_word(l.as_str())
}

/// A trimmed, lowered answer means yes: it is `y`, `yes` or empty.
pub fn is_yes_word(lowered: &str) -> (b: bool)
    ensures
        b == (lowered@ == "y"@ || lowered@ == "yes"@ || lowered@ == ""@),
{
    let lc = chars_of(lowered);
    let y = chars_of("y");
    let yes = chars_of("yes");
    let empty = chars_of("");
    chars_eq(&lc, &y) || chars_eq(&lc, &yes) || chars_eq(&lc, &empty)
}

// ─────────────────────────────────── upgrade ─────────────────────────────────

/// What `upgrade` does.
#[derive(PartialEq, Eq, Structural, Clone, Copy)]
pub enum UpgradeStep {
    /// The package is not installed: an error.
    NotInstalled,
    /// No repository offers a version of it: an error.
    NotFound,
    /// The installed version is the one offered.
    UpToDate,
    /// Build the offered version.
    Upgrade,
}

pub fn upgrade_step(installed: bool, local_version: &str, remote_version: &str) -> (r: UpgradeStep)
    ensures
        r == (if !installed {
            UpgradeStep::NotInstalled
        } else if remote_version@.len() == 0 {
            UpgradeStep::NotFound
        } else if local_version@ == remote_version@ {
            UpgradeStep::UpToDate
        } else {
            UpgradeStep::Upgrade
        }),
{
    if !installed {
        UpgradeStep::NotInstalled
    } else if remote_version.is_empty() {
        UpgradeStep::NotFound
    } else if chars_eq(&chars_of(local_version), &chars_of(remote_version)) {
        UpgradeStep::UpToDate
    } else {
        UpgradeStep::Upgrade
    }
}


// ─────────────────────────────── the package list ─────────────────────────────

/// How a package is written in `pkgs.vex`: in double quotes.
pub open spec fn quoted(pkg: Seq<char>) -> Seq<char> {
    seq!['"'] + pkg + seq!['"']
}

/// The text that `add` puts after `packages {`.
pub open spec fn added_entry(pkg: Seq<char>) -> Seq<char> {
    "packages {"@ + seq!['\n', ' ', ' '] + quoted(pkg)
}

/// `pkgs.vex` after adding a package: `None` when it is listed already; otherwise
/// the package is written as the first entry after the first `packages {` (the
/// text is unchanged when there is none).
pub fn add_pkg(content: &str, pkg_name: &str) -> (r: Option<String>)
    ensures
        match r {
            None => contains(content@, quoted(pkg_name@)),
            Some(t) => !contains(content@, quoted(pkg_name@)) && t@ == replace_first(
                content@,
                "packages {"@,
                added_entry(pkg_name@),
            ),
        },
{
    let c = chars_of(content);
    let mut q: Vec<char> = Vec::new();
    q.push('"');
    push_all(&mut q, &chars_of(pkg_name));
    q.push('"');
    assert(q@ =~= quoted(pkg_name@));
    if contains_exec(&c, &q) {
        return None;
    }
    let pat = chars_of("packages {");
    proof {
        reveal_strlit("packages {");
    }
    let mut rep = chars_of("packages {");
    rep.push('\n');
    rep.push(' ');
    rep.push(' ');
    push_all(&mut rep, &q);
    assert(rep@ =~= added_entry(pkg_name@));
    Some(string_of(&replace_first_of(&c, &pat, &rep)))
}

/// The lines that do not name the package.
pub open spec fn lines_without(ls: Seq<Seq<char>>, q: Seq<char>) -> Seq<Seq<char>>
    decreases ls.len(),
{
    if ls.len() == 0 {
        Seq::empty()
    } else if trim_ws(ls.last()) != q {
        lines_without(ls.drop_last(), q).push(ls.last())
    } else {
        lines_without(ls.drop_last(), q)
    }
}

/// Removing keeps, in order, exactly the lines that are not the entry once
/// trimmed.
pub proof fn lemma_lines_without_is_filter(ls: Seq<Seq<char>>, q: Seq<char>)
    ensures
        lines_without(ls, q) == ls.filter(|l: Seq<char>| trim_ws(l) != q),
    decreases ls.len(),
{
    reveal(Seq::filter);
    if ls.len() > 0 {
        lemma_lines_without_is_filter(ls.drop_last(), q);
    }
}

/// `pkgs.vex` after removing a package: `None` when it is not written there;
/// otherwise every line that is just the quoted name (around whitespace) is
/// dropped.
pub fn remove_from_pkgs(content: &str, pkg_name: &str) -> (r: Option<String>)
    ensures
        match r {
            None => !contains(content@, quoted(pkg_name@)),
            Some(t) => contains(content@, quoted(pkg_name@)) && t@ == join(
                lines_without(lines(content@), quoted(pkg_name@)),
                seq!['\n'],
            ),
        },
{
    let c = chars_of(content);
    let mut q: Vec<char> = Vec::new();
    q.push('"');
    push_all(&mut q, &chars_of(pkg_name));
    q.push('"');
    assert(q@ =~= quoted(pkg_name@));
    if !contains_exec(&c, &q) {
        return None;
    }
    let ls = lines_of(&c);
    let mut kept: Vec<Vec<char>> = Vec::new();
    let mut i: usize = 0;
    assert(views(ls@).take(0) =~= Seq::<Seq<char>>::empty());
    assert(views(kept@) =~= Seq::<Seq<char>>::empty());
    while i < ls.len()
        invariant
            i <= ls.len(),
            q@ == quoted(pkg_name@),
            views(ls@) == lines(content@),
            views(kept@) == lines_without(views(ls@).take(i as int), q@),
        decreases ls.len() - i,
    {
        assert(views(ls@).take(i + 1).drop_last() =~= views(ls@).take(i as int));
        assert(views(ls@).take(i + 1).last() == ls@[i as int]@);
        let t = trim_of(&ls[i], CharClass::Whitespace);
        if !chars_eq(&t, &q) {
            let l = crate::text::slice_of(&ls[i], 0, ls[i].len());
            assert(l@ =~= ls@[i as int]@);
            let ghost b = views(kept@);
            kept.push(l);
            assert(views(kept@) =~= b.push(l@));
        }
        i = i + 1;
    }
    assert(views(ls@).take(ls.len() as int) =~= views(ls@));
    let mut nl: Vec<char> = Vec::new();
    nl.push('\n');
    assert(nl@ =~= seq!['\n']);
    Some(string_of(&join_of(&kept, &nl)))
}

proof fn lemma_contains_shift(s: Seq<char>, q: Seq<char>, pre: Seq<char>)
    requires
        contains(s, q),
    ensures
        contains(pre + s, q),
{
    let i = choose|i: int| matches_at(s, q, i);
    assert((pre + s).subrange(pre.len() + i, pre.len() + i + q.len()) =~= s.subrange(i, i + q.len()));
    assert(matches_at(pre + s, q, pre.len() + i));
}

proof fn lemma_replace_first_contains(s: Seq<char>, p: Seq<char>, r: Seq<char>, q: Seq<char>)
    requires
        p.len() > 0,
        contains(s, p),
        contains(r, q),
    ensures
        contains(replace_first(s, p, r), q),
    decreases s.len(),
{
    let i = choose|i: int| matches_at(s, p, i);
    if starts_with(s, p) {
        let j = choose|j: int| matches_at(r, q, j);
        let t = r + s.skip(p.len() as int);
        assert(t.subrange(j, j + q.len()) =~= r.subrange(j, j + q.len()));
        assert(matches_at(t, q, j));
    } else {
        assert(i != 0);
        let s2 = s.drop_first();
        assert(s2.subrange(i - 1, i - 1 + p.len()) =~= s.subrange(i, i + p.len()));
        assert(matches_at(s2, p, i - 1));
        lemma_replace_first_contains(s2, p, r, q);
        lemma_contains_shift(replace_first(s2, p, r), q, seq![s[0]]);
    }
}

/// After `add`, the package is written in `pkgs.vex`, whenever the file has a
/// `packages {` block (without one the text is left as it was).
pub proof fn lemma_add_then_listed(content: Seq<char>, pkg: Seq<char>)
    requires
        contains(content, "packages {"@),
    ensures
        contains(replace_first(content, "packages {"@, added_entry(pkg)), quoted(pkg)),
{
    reveal_strlit("packages {");
    let r = added_entry(pkg);
    let off: int = "packages {"@.len() as int + 3;
    assert(r.subrange(off, off + quoted(pkg).len()) =~= quoted(pkg));
    assert(matches_at(r, quoted(pkg), off));
    lemma_replace_first_contains(content, "packages {"@, r, quoted(pkg));
}

proof fn lemma_lines_without_props(ls: Seq<Seq<char>>, q: Seq<char>)
    ensures
        forall|i: int| 0 <= i < lines_without(ls, q).len() ==> trim_ws(#[trigger] lines_without(ls, q)[i]) != q
            && ls.contains(lines_without(ls, q)[i]),
    decreases ls.len(),
{
    if ls.len() > 0 {
        lemma_lines_without_props(ls.drop_last(), q);
        let r = lines_without(ls.drop_last(), q);
        assert forall|i: int| 0 <= i < lines_without(ls, q).len() implies trim_ws(#[trigger] lines_without(ls, q)[i]) != q
            && ls.contains(lines_without(ls, q)[i]) by {
            if i < r.len() {
                assert(lines_without(ls, q)[i] == r[i]);
                let k = choose|k: int| 0 <= k < ls.drop_last().len() && ls.drop_last()[k] == r[i];
                assert(ls[k] == r[i]);
            } else {
                assert(lines_without(ls, q)[i] == ls.last());
                assert(ls[ls.len() - 1] == ls.last());
            }
        }
    }
}

/// After `remove`, no line of `pkgs.vex` is the package's entry.
pub proof fn lemma_remove_then_unlisted(content: Seq<char>, pkg: Seq<char>)
    ensures
        forall|x: Seq<char>| #[trigger] lines(join(lines_without(lines(content), quoted(pkg)), seq!['\n'])).contains(x)
            ==> trim_ws(x) != quoted(pkg),
{
    let q = quoted(pkg);
    let kept = lines_without(lines(content), q);
    lemma_lines_without_props(lines(content), q);
    lemma_lines_no_newline(content);
    assert(none_contain(kept, '\n')) by {
        assert forall|i: int| 0 <= i < kept.len() implies !(#[trigger] kept[i]).contains('\n') by {
            let k = choose|k: int| 0 <= k < lines(content).len() && lines(content)[k] == kept[i];
            assert(!lines(content)[k].contains('\n'));
        }
    }
    lemma_lines_of_join(kept);
    assert forall|x: Seq<char>| #[trigger] lines(join(kept, seq!['\n'])).contains(x) implies trim_ws(x) != q by {
        let i = choose|i: int| 0 <= i < kept.len() && (x == kept[i] || x == strip_cr(kept[i]));
        assert(trim_ws(kept[i]) != q);
        if x != kept[i] {
            lemma_trim_drop_last(kept[i], CharClass::Whitespace);
        }
    }
}

proof fn lemma_lines_without_concat(a: Seq<Seq<char>>, b: Seq<Seq<char>>, q: Seq<char>)
    ensures
        lines_without(a + b, q) == lines_without(a, q) + lines_without(b, q),
    decreases b.len(),
{
    if b.len() == 0 {
        assert(a + b =~= a);
        assert(lines_without(a, q) + lines_without(b, q) =~= lines_without(a, q));
    } else {
        lemma_lines_without_concat(a, b.drop_last(), q);
        assert((a + b).drop_last() =~= a + b.drop_last());
        assert((a + b).last() == b.last());
        if trim_ws(b.last()) != q {
            assert((lines_without(a, q) + lines_without(b.drop_last(), q)).push(b.last()) =~= lines_without(a, q)
                + lines_without(b.drop_last(), q).push(b.last()));
        }
    }
}

proof fn lemma_lines_without_none(a: Seq<Seq<char>>, q: Seq<char>)
    requires
        forall|j: int| 0 <= j < a.len() ==> trim_ws(#[trigger] a[j]) != q,
    ensures
        lines_without(a, q) == a,
    decreases a.len(),
{
    if a.len() > 0 {
        let a2 = a.drop_last();
        assert forall|j: int| 0 <= j < a2.len() implies trim_ws(#[trigger] a2[j]) != q by {
            assert(a2[j] == a[j]);
        }
        lemma_lines_without_none(a2, q);
        assert(trim_ws(a[a.len() - 1]) != q);
        assert(a2.push(a.last()) =~= a);
    }
}

/// The line `add` writes for a package, indented, is read back as its entry.
proof fn lemma_entry_trims(pkg: Seq<char>)
    ensures
        trim_ws(seq![' ', ' '] + quoted(pkg)) == quoted(pkg),
        strip_cr(seq![' ', ' '] + quoted(pkg)) == seq![' ', ' '] + quoted(pkg),
{
    let w = CharClass::Whitespace;
    let q = quoted(pkg);
    let x = seq![' ', ' '] + q;
    let x1 = x.drop_first();
    let x2 = x1.drop_first();
    assert(x1 =~= seq![' '] + q);
    assert(x2 =~= q);
    assert(lead(x, w) == 1 + lead(x1, w));
    assert(lead(x1, w) == 1 + lead(x2, w));
    assert(q[0] == '"');
    assert(lead(x2, w) == 0);
    assert(trim_start(x, w) =~= q);
    assert(q.last() == '"');
    assert(trail(q, w) == 0);
    assert(trim_end(q, w) =~= q);
    assert(x.last() == '"');
}

/// Adding a package and then removing it gives back the lines of `pkgs.vex` as
/// they were (joined by `\n`), when the first `packages {` ends its line, the
/// name is on one line, and no line of the file was already the package's entry.
pub proof fn lemma_add_then_remove(content: Seq<char>, pkg: Seq<char>, i: int)
    requires
        matches_at(content, "packages {"@, i),
        forall|j: int| 0 <= j < i ==> !matches_at(content, "packages {"@, j),
        i + "packages {"@.len() == content.len() || content[i + "packages {"@.len()] == '\n',
        !pkg.contains('\n'),
        forall|l: Seq<char>| #[trigger] lines(content).contains(l) ==> trim_ws(l) != quoted(pkg),
    ensures
        join(lines_without(lines(replace_first(content, "packages {"@, added_entry(pkg))), quoted(pkg)), seq!['\n'])
            == join(lines(content), seq!['\n']),
{
    reveal_strlit("packages {");
    let pp = "packages {"@;
    let q = quoted(pkg);
    let x = seq![' ', ' '] + q;
    let c = content;
    let n: int = pp.len() as int;
    lemma_replace_first_at(c, pp, added_entry(pkg), i);
    let c2 = replace_first(c, pp, added_entry(pkg));
    let h = c.take(i + n);
    let t = c.skip(i + n);
    assert(c.subrange(i, i + n) == pp);
    assert(c.take(i) + pp =~= h);
    assert(c =~= h + t);
    assert(added_entry(pkg) =~= pp + seq!['\n'] + x);
    assert(!x.contains('\n')) by {
        if x.contains('\n') {
            let k = choose|k: int| 0 <= k < x.len() && x[k] == '\n';
            if 3 <= k < 3 + pkg.len() {
                assert(pkg[k - 3] == '\n');
            }
        }
    }
    lemma_split_single(x, '\n');
    lemma_entry_trims(pkg);
    assert(h.last() == '{');
    let s1 = split(h, '\n');
    lemma_split_nonempty(h.drop_last(), '\n');
    assert(s1.last().len() > 0 && s1.last().last() == '{');
    let l1: Seq<Seq<char>>;
    let l2: Seq<Seq<char>>;
    if t.len() == 0 {
        assert(c2 =~= h + seq!['\n'] + x);
        lemma_split_at_sep(h, x, '\n');
        assert(c =~= h);
        let p2 = s1 + seq![x];
        assert(split(c2, '\n') == p2);
        assert(p2.drop_last() =~= s1);
        assert(strip_crs(s1) =~= strip_crs(s1.drop_last()).push(s1.last()));
        l1 = lines(c);
        l2 = Seq::empty();
        assert(lines(c2) =~= l1 + seq![x] + l2);
        assert(lines(c) =~= l1 + l2);
    } else {
        assert(t[0] == '\n');
        let t2 = t.skip(1);
        assert(t =~= seq!['\n'] + t2);
        assert(c =~= h + seq!['\n'] + t2);
        lemma_split_at_sep(h, t2, '\n');
        let s2 = split(t2, '\n');
        lemma_split_nonempty(t2, '\n');
        assert(c2 =~= h + seq!['\n'] + (x + seq!['\n'] + t2));
        lemma_split_at_sep(h, x + seq!['\n'] + t2, '\n');
        lemma_split_at_sep(x, t2, '\n');
        let p1 = s1 + s2;
        let p2 = s1 + seq![x] + s2;
        assert(split(c2, '\n') =~= p2);
        assert(p1.drop_last() =~= s1 + s2.drop_last());
        assert(p2.drop_last() =~= s1 + seq![x] + s2.drop_last());
        assert(p1.last() == s2.last());
        assert(p2.last() == s2.last());
        let tail = if s2.last().len() == 0 {
            Seq::<Seq<char>>::empty()
        } else {
            seq![s2.last()]
        };
        l1 = strip_crs(s1);
        l2 = strip_crs(s2.drop_last()) + tail;
        assert(strip_crs(s1 + s2.drop_last()) =~= l1 + strip_crs(s2.drop_last()));
        assert(strip_crs(s1 + seq![x] + s2.drop_last()) =~= l1 + seq![x] + strip_crs(s2.drop_last()));
        assert(lines(c) =~= l1 + l2);
        assert(lines(c2) =~= l1 + seq![x] + l2);
    }
    assert forall|j: int| 0 <= j < l1.len() implies trim_ws(#[trigger] l1[j]) != q by {
        assert(lines(c)[j] == l1[j]);
        assert(lines(c).contains(l1[j]));
    }
    assert forall|j: int| 0 <= j < l2.len() implies trim_ws(#[trigger] l2[j]) != q by {
        assert(lines(c)[l1.len() + j] == l2[j]);
        assert(lines(c).contains(l2[j]));
    }
    lemma_lines_without_none(l1, q);
    lemma_lines_without_none(l2, q);
    lemma_lines_without_concat(l1 + seq![x], l2, q);
    lemma_lines_without_concat(l1, seq![x], q);
    let sx = seq![x];
    assert(sx.drop_last() =~= Seq::<Seq<char>>::empty());
    assert(sx.last() == x);
    assert(trim_ws(sx.last()) == q);
    assert(lines_without(Seq::<Seq<char>>::empty(), q) == Seq::<Seq<char>>::empty());
    assert(lines_without(sx, q) == lines_without(sx.drop_last(), q));
    assert(lines_without(sx, q) =~= Seq::<Seq<char>>::empty());
    assert(l1 + Seq::<Seq<char>>::empty() + l2 =~= l1 + l2);
}

/// Adding a package and then removing it leaves `pkgs.vex` meaning what it did:
/// the same blocks, so the same `packages` list (under the conditions of
/// `lemma_add_then_remove`).
pub proof fn lemma_add_then_remove_parses_the_same(content: Seq<char>, pkg: Seq<char>, i: int)
    requires
        matches_at(content, "packages {"@, i),
        forall|j: int| 0 <= j < i ==> !matches_at(content, "packages {"@, j),
        i + "packages {"@.len() == content.len() || content[i + "packages {"@.len()] == '\n',
        !pkg.contains('\n'),
        forall|l: Seq<char>| #[trigger] lines(content).contains(l) ==> trim_ws(l) != quoted(pkg),
    ensures
        spec_parse_vex(join(lines_without(lines(replace_first(content, "packages {"@, added_entry(pkg))), quoted(pkg)), seq!['\n']))
            == spec_parse_vex(content),
        spec_values(join(lines_without(lines(replace_first(content, "packages {"@, added_entry(pkg))), quoted(pkg)), seq!['\n']), "packages"@)
            == spec_values(content, "packages"@),
{
    lemma_add_then_remove(content, pkg, i);
    lemma_parse_rejoined(content);
}

} // verus!
