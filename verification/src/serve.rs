//! The package server: which answer a request path gets.

use vstd::prelude::*;
use crate::text::{
    chars_eq, chars_of, ends_with, ends_with_exec, join, join_of, chars_of_strings, str_views,
    string_of, strip_prefix_all, strip_prefix_all_of, starts_with, starts_with_exec,
};

verus! {

/// The answer to a request.
pub enum Route {
    /// `/vex/pkgs/`: the list of tarballs served.
    List,
    /// `/vex/pkgs/<file>`: that file.
    File(String),
    /// Anything else: the server's name.
    Banner,
}

pub enum RouteView {
    List,
    File(Seq<char>),
    Banner,
}

pub open spec fn route_view(r: Route) -> RouteView {
    match r {
        Route::List => RouteView::List,
        Route::File(f) => RouteView::File(f@),
        Route::Banner => RouteView::Banner,
    }
}

/// The answer a request path gets; the file name is the path with every leading
/// `/vex/pkgs/` removed.
pub fn route(url: &str) -> (r: Route)
    ensures
        route_view(r) == (if url@ == "/vex/pkgs/"@ {
            RouteView::List
        } else if starts_with(url@, "/vex/pkgs/"@) {
            RouteView::File(strip_prefix_all(url@, "/vex/pkgs/"@))
        } else {
            RouteView::Banner
        }),
{
    let u = chars_of(url);
    let base = chars_of("/vex/pkgs/");
    proof {
        reveal_strlit("/vex/pkgs/");
    }
    if chars_eq(&u, &base) {
        Route::List
    } else if starts_with_exec(&u, &base) {
        Route::File(string_of(&strip_prefix_all_of(&u, &base)))
    } else {
        Route::Banner
    }
}

pub open spec fn tarballs_of(names: Seq<Seq<char>>) -> Seq<Seq<char>>
    decreases names.len(),
{
    if names.len() == 0 {
        Seq::empty()
    } else if ends_with(names.last(), ".tar.zst"@) {
        tarballs_of(names.drop_last()).push(names.last())
    } else {
        tarballs_of(names.drop_last())
    }
}

/// The file names that are served: those ending in `.tar.zst`, in order.
pub fn served_tarballs(names: &Vec<String>) -> (t: Vec<String>)
    ensures
        str_views(t@) == tarballs_of(str_views(names@)),
{
    let suffix = chars_of(".tar.zst");
    let mut out: Vec<String> = Vec::new();
    let mut i: usize = 0;
    let ghost nv = str_views(names@);
    assert(nv.take(0) =~= Seq::<Seq<char>>::empty());
    assert(str_views(out@) =~= Seq::<Seq<char>>::empty());
    while i < names.len()
        invariant
            i <= names.len(),
            nv == str_views(names@),
            suffix@ == ".tar.zst"@,
            str_views(out@) == tarballs_of(nv.take(i as int)),
        decreases names.len() - i,
    {
        assert(nv.take(i + 1).drop_last() =~= nv.take(i as int));
        assert(nv.take(i + 1).last() == names@[i as int]@);
        if ends_with_exec(&chars_of(names[i].as_str()), &suffix) {
            let ghost b = str_views(out@);
            out.push(names[i].clone());
            assert(str_views(out@) =~= b.push(names@[i as int]@));
        }
        i = i + 1;
    }
    assert(nv.take(names.len() as int) =~= nv);
    out
}

/// The body of the list answer: the tarball names, one per line.
pub fn listing_body(tarballs: &Vec<String>) -> (body: String)
    ensures
        body@ == join(str_views(tarballs@), seq!['\n']),
{
    let mut nl: Vec<char> = Vec::new();
    nl.push('\n');
    assert(nl@ =~= seq!['\n']);
    string_of(&join_of(&chars_of_strings(tarballs), &nl))
}

/// The answers of the server: `/vex/pkgs/` lists, `/vex/pkgs/<f>` serves the file
/// `f` (for a name `f` that does not itself begin with `/vex/pkgs/`), and every
/// path outside `/vex/pkgs/` gets the server's name.
pub proof fn lemma_routes(f: Seq<char>, u: Seq<char>)
    requires
        f.len() > 0,
        !starts_with(f, "/vex/pkgs/"@),
    ensures
        "/vex/pkgs/"@ + f != "/vex/pkgs/"@,
        starts_with("/vex/pkgs/"@ + f, "/vex/pkgs/"@),
        strip_prefix_all("/vex/pkgs/"@ + f, "/vex/pkgs/"@) == f,
        !starts_with(u, "/vex/pkgs/"@) ==> u != "/vex/pkgs/"@,
{
    reveal_strlit("/vex/pkgs/");
    let b = "/vex/pkgs/"@;
    let s = b + f;
    assert(s.len() != b.len());
    assert(s.subrange(0, b.len() as int) =~= b);
    assert(s.skip(b.len() as int) =~= f);
    assert(strip_prefix_all(f, b) == f);
    assert(strip_prefix_all(s, b) == strip_prefix_all(s.skip(b.len() as int), b));
    if u == b {
        assert(u.subrange(0, b.len() as int) =~= b);
    }
}

proof fn lemma_tarballs_has(names: Seq<Seq<char>>, n: Seq<char>)
    ensures
        tarballs_of(names).contains(n) <==> names.contains(n) && ends_with(n, ".tar.zst"@),
    decreases names.len(),
{
    if names.len() > 0 {
        let n2 = names.drop_last();
        lemma_tarballs_has(n2, n);
        let r = tarballs_of(n2);
        let l = names.last();
        if names.contains(n) && n != l {
            let t = choose|t: int| 0 <= t < names.len() && names[t] == n;
            assert(n2[t] == n);
        }
        if n2.contains(n) {
            let t = choose|t: int| 0 <= t < n2.len() && n2[t] == n;
            assert(names[t] == n);
        }
        assert(names[names.len() - 1] == l);
        if ends_with(l, ".tar.zst"@) {
            assert(r.push(l)[r.len() as int] == l);
            if r.push(l).contains(n) && n != l {
                let t = choose|t: int| 0 <= t < r.len() + 1 && r.push(l)[t] == n;
                assert(r[t] == n);
            }
            if r.contains(n) {
                let t = choose|t: int| 0 <= t < r.len() && r[t] == n;
                assert(r.push(l)[t] == n);
            }
        }
    }
}

/// The served tarballs are the names ending in `.tar.zst`, in the order listed.
pub proof fn lemma_tarballs_keep_order(names: Seq<Seq<char>>)
    ensures
        tarballs_of(names) == names.filter(|n: Seq<char>| ends_with(n, ".tar.zst"@)),
    decreases names.len(),
{
    reveal(Seq::filter);
    if names.len() > 0 {
        lemma_tarballs_keep_order(names.drop_last());
    }
}

/// The list answer names every `.tar.zst` file of the directory and nothing else.
pub proof fn lemma_listing_is_tarballs(names: Seq<Seq<char>>)
    ensures
        forall|n: Seq<char>| #[trigger] tarballs_of(names).contains(n) <==> names.contains(n) && ends_with(n, ".tar.zst"@),
{
    assert forall|n: Seq<char>| #[trigger] tarballs_of(names).contains(n) <==> names.contains(n) && ends_with(n, ".tar.zst"@) by {
        lemma_tarballs_has(names, n);
    }
}

} // verus!
