//! Repository listings (`pkgs.list`) and the addresses packages are fetched from.
//!
//! ```text
//! xenon v5.5.5-vex deps=lua,tcc
//! lua v5.4.7-vex
//! ```

use vstd::prelude::*;
use crate::text::{
    chars_of, chars_of_strings, lines, lines_of, push_all, split, split_on, starts_with_exec,
    str_views, string_of, strings_of, strip_prefix_all, strip_prefix_all_of, strip_suffix_all,
    strip_suffix_all_of, trim_end, trim_end_of, trim_start, trim_start_of, views, words, words_of,
    chars_eq, starts_with, CharClass,
};

verus! {

/// One line of a listing: name, version (a leading `v` removed), dependencies.
pub type ListedPkg = (String, String, Vec<String>);

pub open spec fn listed_view(e: ListedPkg) -> (Seq<char>, Seq<char>, Seq<Seq<char>>) {
    (e.0@, e.1@, str_views(e.2@))
}

pub open spec fn listed_views(v: Seq<ListedPkg>) -> Seq<(Seq<char>, Seq<char>, Seq<Seq<char>>)> {
    v.map_values(|e: ListedPkg| listed_view(e))
}

/// The position of the first word after the name and version that starts with `deps=`.
pub open spec fn deps_word(ws: Seq<Seq<char>>, from: int) -> Option<int>
    decreases ws.len() - from,
{
    if from >= ws.len() || from < 0 {
        None
    } else if starts_with(ws[from], "deps="@) {
        Some(from)
    } else {
        deps_word(ws, from + 1)
    }
}

/// The entry for the words of a non-blank line.
pub open spec fn listed_of_words(ws: Seq<Seq<char>>) -> (Seq<char>, Seq<char>, Seq<Seq<char>>) {
    let name = ws[0];
    let version = if ws.len() > 1 {
        trim_start(ws[1], CharClass::Exactly('v'))
    } else {
        Seq::empty()
    };
    let deps = match deps_word(ws, 2) {
        Some(j) => split(strip_prefix_all(ws[j], "deps="@), ','),
        None => Seq::empty(),
    };
    (name, version, deps)
}

/// The entries of the lines that hold at least one word.
pub open spec fn listed_of_lines(ls: Seq<Seq<char>>) -> Seq<(Seq<char>, Seq<char>, Seq<Seq<char>>)>
    decreases ls.len(),
{
    if ls.len() == 0 {
        Seq::empty()
    } else if words(ls.last()).len() > 0 {
        listed_of_lines(ls.drop_last()).push(listed_of_words(words(ls.last())))
    } else {
        listed_of_lines(ls.drop_last())
    }
}

/// The meaning of a `pkgs.list` text.
pub open spec fn spec_parse_pkgs_list(text: Seq<char>) -> Seq<(Seq<char>, Seq<char>, Seq<Seq<char>>)> {
    listed_of_lines(lines(text))
}

/// The address of a repository's listing.
pub fn pkgs_list_url(repo_url: &str) -> (u: String)
    ensures
        u@ == repo_url@ + "/pkgs.list"@,
{
    let mut v = chars_of(repo_url);
    push_all(&mut v, &chars_of("/pkgs.list"));
    string_of(&v)
}

fn listed_of(ws: &Vec<Vec<char>>) -> (e: ListedPkg)
    requires
        ws.len() > 0,
    ensures
        listed_view(e) == listed_of_words(views(ws@)),
{
    let ghost w = views(ws@);
    let name = string_of(&ws[0]);
    let version = if ws.len() > 1 {
        string_of(&trim_start_of(&ws[1], CharClass::Exactly('v')))
    } else {
        string_of(&Vec::new())
    };
    assert(version@ =~= listed_of_words(w).1);
    let prefix = chars_of("deps=");
    proof {
        reveal_strlit("deps=");
    }
    let mut j: usize = 2;
    while j < ws.len() && !starts_with_exec(&ws[j], &prefix)
        invariant
            2 <= j,
            w == views(ws@),
            prefix@ == "deps="@,
            deps_word(w, 2) == deps_word(w, j as int),
        decreases ws.len() - j,
    {
        j = j + 1;
    }
    let deps = if j < ws.len() {
        let rest = strip_prefix_all_of(&ws[j], &prefix);
        strings_of(&split_on(&rest, ','))
    } else {
        let v: Vec<String> = Vec::new();
        assert(str_views(v@) =~= Seq::<Seq<char>>::empty());
        v
    };
    (name, version, deps)
}

/// Reads a repository's `pkgs.list` (the text fetched from `pkgs_list_url`): one
/// entry per non-blank line.
pub fn list_versions_from_url(text: &str) -> (res: Vec<ListedPkg>)
    ensures
        listed_views(res@) == spec_parse_pkgs_list(text@),
{
    let chars = chars_of(text);
    let ls = lines_of(&chars);
    let mut out: Vec<ListedPkg> = Vec::new();
    let mut i: usize = 0;
    assert(views(ls@).take(0) =~= Seq::<Seq<char>>::empty());
    assert(listed_views(out@) =~= Seq::<(Seq<char>, Seq<char>, Seq<Seq<char>>)>::empty());
    while i < ls.len()
        invariant
            i <= ls.len(),
            views(ls@) == lines(text@),
            listed_views(out@) == listed_of_lines(views(ls@).take(i as int)),
        decreases ls.len() - i,
    {
        assert(views(ls@).take(i + 1).drop_last() =~= views(ls@).take(i as int));
        assert(views(ls@).take(i + 1).last() == ls@[i as int]@);
        let ws = words_of(&ls[i]);
        if ws.len() > 0 {
            let e = listed_of(&ws);
            let ghost before = listed_views(out@);
            out.push(e);
            assert(listed_views(out@) =~= before.push(listed_view(e)));
        }
        i = i + 1;
    }
    assert(views(ls@).take(ls.len() as int) =~= views(ls@));
    out
}

pub open spec fn listed_names(v: Seq<(Seq<char>, Seq<char>, Seq<Seq<char>>)>) -> Seq<Seq<char>> {
    v.map_values(|e: (Seq<char>, Seq<char>, Seq<Seq<char>>)| e.0)
}

/// The package names a repository lists (the names of `parse_pkgs_list`).
pub fn list_pkgs_from_url(listing: &str) -> (names: Vec<String>)
    ensures
        str_views(names@) == listed_names(spec_parse_pkgs_list(listing@)),
{
    let entries = list_versions_from_url(listing);
    let mut names: Vec<String> = Vec::new();
    let mut i: usize = 0;
    let ghost all = spec_parse_pkgs_list(listing@);
    while i < entries.len()
        invariant
            i <= entries.len(),
            listed_views(entries@) == all,
            str_views(names@) == listed_names(all.take(i as int)),
        decreases entries.len() - i,
    {
        let n = entries[i].0.clone();
        let ghost before = str_views(names@);
        names.push(n);
        assert(all[i as int] == listed_view(entries@[i as int]));
        assert(before.len() == i);
        assert(all.len() == entries.len());
        assert(str_views(names@) =~= listed_names(all.take(i + 1))) by {
            assert forall|t: int| 0 <= t < i + 1 implies #[trigger] str_views(names@)[t] == listed_names(all.take(i + 1))[t] by {
                if t < i {
                    assert(str_views(names@)[t] == before[t]);
                }
            }
        }
        i = i + 1;
    }
    assert(all.take(entries.len() as int) =~= all);
    names
}

/// The names a listing gives are the first word (`split_whitespace`) of each
/// line that holds a word, in the order of the lines; each entry's version is
/// its second word with leading `v`s removed, or empty.
pub proof fn lemma_listing_names(text: Seq<char>)
    ensures
        listed_names(spec_parse_pkgs_list(text)) == lines(text).filter(|l: Seq<char>| words(l).len() > 0).map_values(
            |l: Seq<char>| words(l)[0],
        ),
        forall|i: int| 0 <= i < spec_parse_pkgs_list(text).len() ==> (#[trigger] spec_parse_pkgs_list(text)[i]).1 == {
            let l = lines(text).filter(|l: Seq<char>| words(l).len() > 0)[i];
            if words(l).len() > 1 {
                trim_start(words(l)[1], CharClass::Exactly('v'))
            } else {
                Seq::<char>::empty()
            }
        },
{
    lemma_listing_lines(lines(text));
}

proof fn lemma_listing_lines(ls: Seq<Seq<char>>)
    ensures
        listed_of_lines(ls) == ls.filter(|l: Seq<char>| words(l).len() > 0).map_values(
            |l: Seq<char>| listed_of_words(words(l)),
        ),
        listed_names(listed_of_lines(ls)) == ls.filter(|l: Seq<char>| words(l).len() > 0).map_values(
            |l: Seq<char>| words(l)[0],
        ),
    decreases ls.len(),
{
    reveal(Seq::filter);
    let pr = |l: Seq<char>| words(l).len() > 0;
    let f = |l: Seq<char>| listed_of_words(words(l));
    let g = |l: Seq<char>| words(l)[0];
    if ls.len() == 0 {
        assert(ls.filter(pr).map_values(f) =~= Seq::<(Seq<char>, Seq<char>, Seq<Seq<char>>)>::empty());
        assert(ls.filter(pr).map_values(g) =~= Seq::<Seq<char>>::empty());
        assert(listed_names(listed_of_lines(ls)) =~= Seq::<Seq<char>>::empty());
    } else {
        lemma_listing_lines(ls.drop_last());
        let sub = ls.drop_last().filter(pr);
        let r = listed_of_lines(ls.drop_last());
        if pr(ls.last()) {
            assert(ls.filter(pr) == sub.push(ls.last()));
            assert(sub.push(ls.last()).map_values(f) =~= sub.map_values(f).push(f(ls.last())));
            assert(sub.push(ls.last()).map_values(g) =~= sub.map_values(g).push(g(ls.last())));
            assert(listed_names(r.push(f(ls.last()))) =~= listed_names(r).push(f(ls.last()).0));
        } else {
            assert(ls.filter(pr) == sub);
        }
    }
}

/// A listed name without its `.tar.zst` and `.tar` suffixes.
pub open spec fn bare_name(p: Seq<char>) -> Seq<char> {
    strip_suffix_all(strip_suffix_all(p, ".tar.zst"@), ".tar"@)
}

/// The listing names the package (as a tarball or by name).
pub fn repo_lists_pkg(names: &Vec<String>, pkg_name: &str) -> (b: bool)
    ensures
        b == exists|i: int| 0 <= i < names.len() && bare_name(#[trigger] str_views(names@)[i]) == pkg_name@,
{
    let zst = chars_of(".tar.zst");
    let tar = chars_of(".tar");
    let target = chars_of(pkg_name);
    let mut i: usize = 0;
    while i < names.len()
        invariant
            i <= names.len(),
            zst@ == ".tar.zst"@,
            tar@ == ".tar"@,
            target@ == pkg_name@,
            forall|j: int| 0 <= j < i ==> bare_name(#[trigger] str_views(names@)[j]) != pkg_name@,
        decreases names.len() - i,
    {
        proof {
            reveal_strlit(".tar.zst");
            reveal_strlit(".tar");
        }
        let n = chars_of(names[i].as_str());
        let b = strip_suffix_all_of(&strip_suffix_all_of(&n, &zst), &tar);
        assert(str_views(names@)[i as int] == n@);
        if chars_eq(&b, &target) {
            return true;
        }
        i = i + 1;
    }
    false
}

/// The two addresses tried for a package's tarball, in order.
pub fn fetch_urls(url: &str, pkg_name: &str) -> (urls: Vec<String>)
    ensures
        urls.len() == 2,
        urls[0]@ == trim_end(url@, CharClass::Exactly('/')) + "/vex/pkgs/"@ + pkg_name@ + ".tar.zst"@,
        urls[1]@ == trim_end(url@, CharClass::Exactly('/')) + "/"@ + pkg_name@ + ".tar.zst"@,
{
    let repo = trim_end_of(&chars_of(url), CharClass::Exactly('/'));
    let name = chars_of(pkg_name);
    let mut a = slice_copy(&repo);
    push_all(&mut a, &chars_of("/vex/pkgs/"));
    push_all(&mut a, &name);
    push_all(&mut a, &chars_of(".tar.zst"));
    let mut b = slice_copy(&repo);
    push_all(&mut b, &chars_of("/"));
    push_all(&mut b, &name);
    push_all(&mut b, &chars_of(".tar.zst"));
    let mut urls: Vec<String> = Vec::new();
    urls.push(string_of(&a));
    urls.push(string_of(&b));
    urls
}

fn slice_copy(v: &Vec<char>) -> (r: Vec<char>)
    ensures
        r@ == v@,
{
    let r = crate::text::slice_of(v, 0, v.len());
    assert(r@ =~= v@);
    r
}

/// Where the `build.vex` of a package is cached.
pub fn build_vex_cache_path(cache_dir: &str, pkg_name: &str) -> (p: String)
    ensures
        p@ == cache_dir@ + "/build_vex/"@ + pkg_name@ + ".buildvex"@,
{
    let mut v = chars_of(cache_dir);
    push_all(&mut v, &chars_of("/build_vex/"));
    push_all(&mut v, &chars_of(pkg_name));
    push_all(&mut v, &chars_of(".buildvex"));
    string_of(&v)
}

} // verus!
