//! The cache under `~/.vex/cache`: per-repository package lists and versions,
//! kept for a configurable number of hours.

use vstd::prelude::*;
use crate::text::{
    lemma_lines_join, line_safe,
    chars_of, chars_of_strings, join, join_of, lines, lines_of, push_all, replace_all, starts_with,
    replace_all_of, str_views, string_of, strings_of, views, words, words_of,
};

verus! {

/// The cache directory under the home directory.
pub fn cache_dir(home: &str) -> (p: String)
    ensures
        p@ == home@ + "/.vex/cache"@,
{
    let mut v = chars_of(home);
    push_all(&mut v, &chars_of("/.vex/cache"));
    string_of(&v)
}

/// A directory name for a repository address: `://`, `/` and `.` each become `_`.
pub open spec fn spec_repo_hash(repo_url: Seq<char>) -> Seq<char> {
    replace_all(replace_all(replace_all(repo_url, "://"@, "_"@), "/"@, "_"@), "."@, "_"@)
}

pub fn repo_hash(repo_url: &str) -> (h: String)
    ensures
        h@ == spec_repo_hash(repo_url@),
{
    proof {
        reveal_strlit("://");
        reveal_strlit("/");
        reveal_strlit(".");
    }
    let u = chars_of(repo_url);
    let us = chars_of("_");
    let a = replace_all_of(&u, &chars_of("://"), &us);
    let b = replace_all_of(&a, &chars_of("/"), &us);
    let c = replace_all_of(&b, &chars_of("."), &us);
    string_of(&c)
}

proof fn lemma_concat_lacks(a: Seq<char>, b: Seq<char>, d: char)
    requires
        !a.contains(d),
        !b.contains(d),
    ensures
        !(a + b).contains(d),
{
    if (a + b).contains(d) {
        let i = choose|i: int| 0 <= i < (a + b).len() && (a + b)[i] == d;
        if i < a.len() {
            assert(a[i] == d);
        } else {
            assert(b[i - a.len()] == d);
        }
    }
}

/// Replacing every `c` by a text without `d` leaves no `d`, when `d` is `c` or
/// was absent.
proof fn lemma_replace_char_lacks(s: Seq<char>, c: char, r: Seq<char>, d: char)
    requires
        !r.contains(d),
        d == c || !s.contains(d),
    ensures
        !replace_all(s, seq![c], r).contains(d),
    decreases s.len(),
{
    let p = seq![c];
    if s.len() < 1 {
        assert(s =~= Seq::<char>::empty());
    } else {
        if !s.skip(1).contains(d) || d == c {
        } else {
            let i = choose|i: int| 0 <= i < s.skip(1).len() && s.skip(1)[i] == d;
            assert(s[i + 1] == d);
        }
        assert(s.drop_first() =~= s.skip(1));
        lemma_replace_char_lacks(s.skip(1), c, r, d);
        if starts_with(s, p) {
            assert(replace_all(s, p, r) == r + replace_all(s.skip(1), p, r));
            lemma_concat_lacks(r, replace_all(s.skip(1), p, r), d);
        } else {
            assert(s.subrange(0, 1) =~= seq![s[0]]);
            assert(s[0] != c);
            if d != c {
                assert(s[0] != d);
            }
            let h = seq![s[0]];
            assert(!h.contains(d)) by {
                if h.contains(d) {
                    let i = choose|i: int| 0 <= i < h.len() && h[i] == d;
                }
            }
            lemma_concat_lacks(h, replace_all(s.drop_first(), p, r), d);
        }
    }
}

/// The directory name of a repository is a single path component that is
/// neither `.` nor `..`: it holds no `/` and no `.`.
pub proof fn lemma_repo_hash_one_component(repo_url: Seq<char>)
    ensures
        !spec_repo_hash(repo_url).contains('/'),
        !spec_repo_hash(repo_url).contains('.'),
{
    reveal_strlit("/");
    reveal_strlit(".");
    reveal_strlit("_");
    let u = "_"@;
    assert(u =~= seq!['_']);
    assert(!u.contains('/')) by {
        if u.contains('/') {
            let i = choose|i: int| 0 <= i < u.len() && u[i] == '/';
        }
    }
    assert(!u.contains('.')) by {
        if u.contains('.') {
            let i = choose|i: int| 0 <= i < u.len() && u[i] == '.';
        }
    }
    let a = replace_all(repo_url, "://"@, u);
    assert("/"@ =~= seq!['/']);
    assert("."@ =~= seq!['.']);
    let b = replace_all(a, "/"@, u);
    lemma_replace_char_lacks(a, '/', u, '/');
    lemma_replace_char_lacks(b, '.', u, '.');
    lemma_replace_char_lacks(b, '.', u, '/');
}

/// Where the cached version of a package from a repository is kept.
pub fn pkg_version_path(home: &str, repo_url: &str, pkg_name: &str) -> (p: String)
    ensures
        p@ == home@ + "/.vex/cache"@ + "/"@ + spec_repo_hash(repo_url@) + "/"@ + pkg_name@
            + ".version"@,
{
    let mut v = chars_of(cache_dir(home).as_str());
    push_all(&mut v, &chars_of("/"));
    push_all(&mut v, &chars_of(repo_hash(repo_url).as_str()));
    push_all(&mut v, &chars_of("/"));
    push_all(&mut v, &chars_of(pkg_name));
    push_all(&mut v, &chars_of(".version"));
    string_of(&v)
}

/// Where the cached package list of a repository is kept.
pub fn pkglist_path(home: &str, repo_url: &str) -> (p: String)
    ensures
        p@ == home@ + "/.vex/cache"@ + "/"@ + spec_repo_hash(repo_url@) + "/pkglist"@,
{
    let mut v = chars_of(cache_dir(home).as_str());
    push_all(&mut v, &chars_of("/"));
    push_all(&mut v, &chars_of(repo_hash(repo_url).as_str()));
    push_all(&mut v, &chars_of("/pkglist"));
    string_of(&v)
}

/// A cache file is stale when its age could not be had or exceeds the time to live.
pub fn is_stale(age_secs: Option<u64>, ttl_hours: u64) -> (b: bool)
    requires
        ttl_hours * 3600 <= u64::MAX,
    ensures
        b == match age_secs {
            Some(age) => age > ttl_hours * 3600,
            None => true,
        },
{
    match age_secs {
        Some(age) => age > ttl_hours * 3600,
        None => true,
    }
}

/// The cached package list in a file's text: one entry per line.
pub fn get_pkglist(content: &str) -> (pkgs: Vec<String>)
    ensures
        str_views(pkgs@) == lines(content@),
{
    strings_of(&lines_of(&chars_of(content)))
}

/// The text of the cached package list: the entries, one per line.
pub fn set_pkglist(pkgs: &Vec<String>) -> (text: String)
    ensures
        text@ == join(str_views(pkgs@), seq!['\n']),
{
    let mut nl: Vec<char> = Vec::new();
    nl.push('\n');
    assert(nl@ =~= seq!['\n']);
    string_of(&join_of(&chars_of_strings(pkgs), &nl))
}

/// The text written for a repository's version list; the same file as `set_pkglist`.
pub fn set_versions_list(pkgs: &Vec<String>) -> (text: String)
    ensures
        text@ == join(str_views(pkgs@), seq!['\n']),
{
    set_pkglist(pkgs)
}

/// Read after write for the cached list: the entries written by `set_pkglist`
/// are what `get_pkglist` reads, when each is one line that does not end in a
/// carriage return and the last is not empty.
pub proof fn lemma_pkglist_roundtrip(pkgs: Seq<Seq<char>>)
    requires
        line_safe(pkgs),
    ensures
        lines(join(pkgs, seq!['\n'])) == pkgs,
{
    lemma_lines_join(pkgs);
}

/// A cached list line: its first word, and its second word or nothing.
pub open spec fn name_version(ws: Seq<Seq<char>>) -> (Seq<char>, Seq<char>) {
    (ws[0], if ws.len() > 1 { ws[1] } else { Seq::empty() })
}

pub open spec fn versions_of_lines(ls: Seq<Seq<char>>) -> Seq<(Seq<char>, Seq<char>)>
    decreases ls.len(),
{
    if ls.len() == 0 {
        Seq::empty()
    } else if words(ls.last()).len() > 0 {
        versions_of_lines(ls.drop_last()).push(name_version(words(ls.last())))
    } else {
        versions_of_lines(ls.drop_last())
    }
}

pub open spec fn pair_views(v: Seq<(String, String)>) -> Seq<(Seq<char>, Seq<char>)> {
    v.map_values(|e: (String, String)| (e.0@, e.1@))
}

/// The name and version of each non-blank line of a cached list.
pub fn get_versions_list(content: &str) -> (res: Vec<(String, String)>)
    ensures
        pair_views(res@) == versions_of_lines(lines(content@)),
{
    let ls = lines_of(&chars_of(content));
    let mut out: Vec<(String, String)> = Vec::new();
    let mut i: usize = 0;
    assert(views(ls@).take(0) =~= Seq::<Seq<char>>::empty());
    assert(pair_views(out@) =~= Seq::<(Seq<char>, Seq<char>)>::empty());
    while i < ls.len()
        invariant
            i <= ls.len(),
            views(ls@) == lines(content@),
            pair_views(out@) == versions_of_lines(views(ls@).take(i as int)),
        decreases ls.len() - i,
    {
        assert(views(ls@).take(i + 1).drop_last() =~= views(ls@).take(i as int));
        assert(views(ls@).take(i + 1).last() == ls@[i as int]@);
        let ws = words_of(&ls[i]);
        if ws.len() > 0 {
            let name = string_of(&ws[0]);
            let version = if ws.len() > 1 { string_of(&ws[1]) } else { string_of(&Vec::new()) };
            assert(version@ =~= name_version(views(ws@)).1);
            let ghost before = pair_views(out@);
            out.push((name, version));
            assert(pair_views(out@) =~= before.push(name_version(views(ws@))));
        }
        i = i + 1;
    }
    assert(views(ls@).take(ls.len() as int) =~= views(ls@));
    out
}

} // verus!
