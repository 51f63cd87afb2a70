//! The configuration that every command reads, and the package queries of the
//! command line.

use vstd::prelude::*;
use crate::text::{
    chars_eq, chars_of, contains, contains_exec, matches_at, parse_u64, spec_parse_u64, str_views, string_of,
    strip_suffix_all, strip_suffix_all_of,
};
use crate::vex_lang::{get_values, parse_vex, spec_values};

verus! {

/// What `pkgs.vex` holds when it does not exist yet.
pub fn default_pkgs_text() -> (t: String)
    ensures
        t@ == "packages {\n}\n"@,
{
    "packages {\n}\n".to_owned()
}

/// What `config.vex` holds when it does not exist yet.
pub fn default_config_text() -> (t: String)
    ensures
        t@ == "repositories {\n}\nrefresh-time {\n  \"24\"\n}\n"@,
{
    "repositories {\n}\nrefresh-time {\n  \"24\"\n}\n".to_owned()
}

/// The settings of `config.vex` and the packages of `pkgs.vex`.
pub struct Config {
    /// Serve on 127.0.0.1 only (`local` lists `true`).
    pub is_local: bool,
    pub repos: Vec<String>,
    /// Hours that cached lists and versions stay fresh.
    pub ttl: u64,
    pub pkgs: Vec<String>,
}

/// Why the configuration is unusable.
#[derive(PartialEq, Eq, Structural, Clone, Copy, Debug)]
pub enum ConfigError {
    /// `refresh-time` lists nothing.
    MissingRefreshTime,
    /// The first `refresh-time` entry is not a number of hours.
    BadRefreshTime,
}

/// Reads the configuration: `local`, `repositories`, the first `refresh-time`
/// entry as a `u64`, and `packages` from the package list.
pub fn load_config(pkgs_text: &str, config_text: &str) -> (r: Result<Config, ConfigError>)
    ensures
        match r {
            Ok(c) => {
                &&& spec_values(config_text@, "refresh-time"@).len() > 0
                &&& spec_parse_u64(spec_values(config_text@, "refresh-time"@)[0]) == Some(c.ttl)
                &&& c.is_local == spec_values(config_text@, "local"@).contains("true"@)
                &&& str_views(c.repos@) == spec_values(config_text@, "repositories"@)
                &&& str_views(c.pkgs@) == spec_values(pkgs_text@, "packages"@)
            },
            Err(ConfigError::MissingRefreshTime) => spec_values(config_text@, "refresh-time"@).len() == 0,
            Err(ConfigError::BadRefreshTime) => spec_values(config_text@, "refresh-time"@).len() > 0
                && spec_parse_u64(spec_values(config_text@, "refresh-time"@)[0]) is None,
        },
{
    let parsed_config = parse_vex(config_text);
    let local = get_values(&parsed_config, "local");
    let t = "true".to_owned();
    let mut is_local = false;
    let mut i: usize = 0;
    while i < local.len()
        invariant
            i <= local.len(),
            t@ == "true"@,
            is_local == exists|j: int| 0 <= j < i && str_views(local@)[j] == "true"@,
        decreases local.len() - i,
    {
        if local[i] == t {
            assert(str_views(local@)[i as int] == "true"@);
            is_local = true;
        }
        i = i + 1;
    }
    let repos = get_values(&parsed_config, "repositories");
    let refresh = get_values(&parsed_config, "refresh-time");
    if refresh.len() == 0 {
        return Err(ConfigError::MissingRefreshTime);
    }
    let ttl = match parse_u64(&chars_of(refresh[0].as_str())) {
        Some(v) => v,
        None => {
            return Err(ConfigError::BadRefreshTime);
        },
    };
    let parsed_pkgs = parse_vex(pkgs_text);
    let pkgs = get_values(&parsed_pkgs, "packages");
    Ok(Config { is_local, repos, ttl, pkgs })
}

/// A listed name without its `.tar` suffixes.
pub open spec fn without_tar(p: Seq<char>) -> Seq<char> {
    strip_suffix_all(p, ".tar"@)
}

/// `exists`: some listed name, without `.tar`, is the package.
pub fn pkg_exists(list: &Vec<String>, pkg: &str) -> (b: bool)
    ensures
        b == exists|i: int| 0 <= i < list.len() && without_tar(#[trigger] str_views(list@)[i]) == pkg@,
{
    let tar = chars_of(".tar");
    proof {
        reveal_strlit(".tar");
    }
    let target = chars_of(pkg);
    let mut i: usize = 0;
    while i < list.len()
        invariant
            i <= list.len(),
            tar@ == ".tar"@,
            tar@.len() > 0,
            target@ == pkg@,
            forall|j: int| 0 <= j < i ==> without_tar(#[trigger] str_views(list@)[j]) != pkg@,
        decreases list.len() - i,
    {
        let n = chars_of(list[i].as_str());
        assert(str_views(list@)[i as int] == n@);
        if chars_eq(&strip_suffix_all_of(&n, &tar), &target) {
            return true;
        }
        i = i + 1;
    }
    false
}

pub open spec fn search_hits(list: Seq<Seq<char>>, query: Seq<char>) -> Seq<Seq<char>>
    decreases list.len(),
{
    if list.len() == 0 {
        Seq::empty()
    } else if contains(without_tar(list.last()), query) {
        search_hits(list.drop_last(), query).push(without_tar(list.last()))
    } else {
        search_hits(list.drop_last(), query)
    }
}

/// `search` is a contains search: the hits are the listed names, without `.tar`,
/// in which the query occurs anywhere, in the order listed; so a listed name is a
/// hit exactly when the query occurs in it.
pub proof fn lemma_search_is_contains_search(list: Seq<Seq<char>>, q: Seq<char>)
    ensures
        search_hits(list, q) == list.map_values(|n: Seq<char>| without_tar(n)).filter(
            |h: Seq<char>| exists|j: int| matches_at(h, q, j),
        ),
        forall|i: int| 0 <= i < list.len() ==> (search_hits(list, q).contains(without_tar(#[trigger] list[i]))
            <==> exists|j: int| matches_at(without_tar(list[i]), q, j)),
    decreases list.len(),
{
    reveal(Seq::filter);
    let f = |n: Seq<char>| without_tar(n);
    let pr = |h: Seq<char>| exists|j: int| matches_at(h, q, j);
    let m = list.map_values(f);
    if list.len() > 0 {
        lemma_search_is_contains_search(list.drop_last(), q);
        assert(m.drop_last() =~= list.drop_last().map_values(f));
        assert(m.last() == without_tar(list.last()));
    } else {
        assert(m.filter(pr) =~= Seq::<Seq<char>>::empty());
    }
    let r = search_hits(list, q);
    assert(r == m.filter(pr));
    assert forall|i: int| 0 <= i < list.len() implies (r.contains(without_tar(#[trigger] list[i]))
        <==> exists|j: int| matches_at(without_tar(list[i]), q, j)) by {
        let h = without_tar(list[i]);
        assert(m[i] == h);
        if pr(h) {
            m.lemma_filter_contains(pr, i);
        }
        if r.contains(h) {
            let k = choose|k: int| 0 <= k < r.len() && r[k] == h;
            m.lemma_filter_pred(pr, k);
        }
    }
}

/// `search`: the listed names, without `.tar`, that contain the query, in order.
pub fn search(list: &Vec<String>, query: &str) -> (hits: Vec<String>)
    ensures
        str_views(hits@) == search_hits(str_views(list@), query@),
{
    let tar = chars_of(".tar");
    proof {
        reveal_strlit(".tar");
    }
    let q = chars_of(query);
    let ghost lv = str_views(list@);
    let mut out: Vec<String> = Vec::new();
    let mut i: usize = 0;
    assert(lv.take(0) =~= Seq::<Seq<char>>::empty());
    assert(str_views(out@) =~= Seq::<Seq<char>>::empty());
    while i < list.len()
        invariant
            i <= list.len(),
            lv == str_views(list@),
            tar@ == ".tar"@,
            tar@.len() > 0,
            q@ == query@,
            str_views(out@) == search_hits(lv.take(i as int), query@),
        decreases list.len() - i,
    {
        assert(lv.take(i + 1).drop_last() =~= lv.take(i as int));
        assert(lv.take(i + 1).last() == list@[i as int]@);
        let name = strip_suffix_all_of(&chars_of(list[i].as_str()), &tar);
        if contains_exec(&name, &q) {
            let ghost b = str_views(out@);
            out.push(string_of(&name));
            assert(str_views(out@) =~= b.push(name@));
        }
        i = i + 1;
    }
    assert(lv.take(list.len() as int) =~= lv);
    out
}

} // verus!
