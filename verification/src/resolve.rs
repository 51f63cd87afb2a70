//! Dependency resolution: from the packages a user asks for, every package they
//! need, each after the packages it depends on.

use vstd::prelude::*;
use crate::text::{chars_eq, chars_of, push_all, str_views, string_of, views, strings_of, chars_of_strings, slice_of};
use crate::vex_lang::{parse_vex, get_values, spec_parse_vex};

verus! {

/// What fetching a package's `build.vex` gave: its dependencies, or why it failed.
pub enum BuildInfo {
    Deps(Vec<Vec<char>>),
    Failed(String),
}

/// The `build.vex` fetch results, by package name.
pub struct BuildIndex {
    names: Vec<Vec<char>>,
    infos: Vec<BuildInfo>,
}

/// The dependencies that a `build.vex` text lists.
pub open spec fn spec_build_deps(content: Seq<char>) -> Seq<Seq<char>> {
    let m = spec_parse_vex(content);
    if m.contains_key("dependencies"@) {
        m["dependencies"@]
    } else {
        Seq::empty()
    }
}

impl View for BuildIndex {
    type V = Map<Seq<char>, BuildInfo>;

    closed spec fn view(&self) -> Map<Seq<char>, BuildInfo> {
        Map::new(
            |k: Seq<char>| views(self.names@).contains(k),
            |k: Seq<char>| self.infos@[views(self.names@).index_of(k)],
        )
    }
}

impl BuildIndex {
    pub closed spec fn name_views(&self) -> Seq<Seq<char>> {
        views(self.names@)
    }

    /// Each package once, one result per package.
    pub closed spec fn wf(&self) -> bool {
        &&& self.names.len() == self.infos.len()
        &&& self.name_views().no_duplicates()
    }

    /// An index with nothing fetched.
    pub fn new() -> (b: BuildIndex)
        ensures
            b.wf(),
            b@ == Map::<Seq<char>, BuildInfo>::empty(),
    {
        let b = BuildIndex { names: Vec::new(), infos: Vec::new() };
        assert(b@ =~= Map::<Seq<char>, BuildInfo>::empty());
        b
    }

    fn find(&self, key: &Vec<char>) -> (r: Option<usize>)
        requires
            self.wf(),
        ensures
            match r {
                Some(i) => i < self.names.len() && self.name_views()[i as int] == key@
                    && self@.contains_key(key@) && self@[key@] == self.infos@[i as int],
                None => !self.name_views().contains(key@) && !self@.contains_key(key@),
            },
    {
        let mut i: usize = 0;
        while i < self.names.len()
            invariant
                self.wf(),
                i <= self.names.len(),
                forall|j: int| 0 <= j < i ==> self.name_views()[j] != key@,
            decreases self.names.len() - i,
        {
            if chars_eq(&self.names[i], key) {
                proof {
                    assert(self.name_views()[i as int] == key@);
                    assert(self.name_views().contains(key@));
                    assert(self.name_views().index_of(key@) == i);
                }
                return Some(i);
            }
            i = i + 1;
        }
        None
    }

    fn set(&mut self, key: Vec<char>, info: BuildInfo)
        requires
            old(self).wf(),
        ensures
            final(self).wf(),
            final(self)@ == old(self)@.insert(key@, info),
    {
        let ghost old_keys = self.name_views();
        let ghost old_vals = self.infos@;
        let ghost kv = key@;
        let ghost vv = info;
        match self.find(&key) {
            Some(i) => {
                let ghost i_int = i as int;
                self.infos.set(i, info);
                assert(self.name_views() == old_keys);
                assert(self.infos@ =~= old_vals.update(i_int, vv));
                assert forall|k: Seq<char>| #[trigger] self@.contains_key(k) == old(self)@.insert(
                    kv,
                    vv,
                ).contains_key(k) by {}
                assert forall|k: Seq<char>| self@.contains_key(k) implies #[trigger] self@[k]
                    == old(self)@.insert(kv, vv)[k] by {
                    let j = old_keys.index_of(k);
                    assert(0 <= j < old_keys.len() && old_keys[j] == k);
                    if k == kv {
                        assert(j == i_int);
                    } else {
                        assert(j != i_int);
                    }
                }
                assert(self@ =~= old(self)@.insert(kv, vv));
            },
            None => {
                self.names.push(key);
                self.infos.push(info);
                let ghost n = old_keys.len() as int;
                assert(self.name_views() =~= old_keys.push(kv));
                assert(self.infos@ =~= old_vals.push(vv));
                assert forall|a: int, b: int|
                    0 <= a < self.name_views().len() && 0 <= b < self.name_views().len() && a
                        != b implies self.name_views()[a] != self.name_views()[b] by {
                    if a == n {
                        assert(self.name_views()[b] == old_keys[b]);
                        if old_keys[b] == kv {
                            assert(old_keys.contains(kv));
                        }
                    } else if b == n {
                        assert(self.name_views()[a] == old_keys[a]);
                        if old_keys[a] == kv {
                            assert(old_keys.contains(kv));
                        }
                    } else {
                        assert(self.name_views()[a] == old_keys[a]);
                        assert(self.name_views()[b] == old_keys[b]);
                    }
                }
                assert forall|k: Seq<char>| #[trigger] self@.contains_key(k) == old(self)@.insert(
                    kv,
                    vv,
                ).contains_key(k) by {
                    if old_keys.contains(k) {
                        let j = old_keys.index_of(k);
                        assert(self.name_views()[j] == k);
                        assert(self.name_views().contains(k));
                    }
                    if k == kv {
                        assert(self.name_views()[n] == kv);
                        assert(self.name_views().contains(k));
                    }
                    if self.name_views().contains(k) && k != kv {
                        let j = self.name_views().index_of(k);
                        assert(j < n);
                        assert(old_keys[j] == k);
                        assert(old_keys.contains(k));
                    }
                }
                assert forall|k: Seq<char>| self@.contains_key(k) implies #[trigger] self@[k]
                    == old(self)@.insert(kv, vv)[k] by {
                    let j = self.name_views().index_of(k);
                    if k == kv {
                        assert(self.name_views()[n] == kv);
                        assert(j == n);
                    } else {
                        assert(j != n);
                        let j0 = old_keys.index_of(k);
                        assert(old_keys[j] == k);
                        assert(j0 == j);
                    }
                }
                assert(self@ =~= old(self)@.insert(kv, vv));
            },
        }
    }

    /// Records what fetching the `build.vex` of `pkg_name` gave: its text, whose
    /// `dependencies` are kept, or the error.
    pub fn record(&mut self, pkg_name: &str, fetched: Result<String, String>)
        requires
            old(self).wf(),
        ensures
            final(self).wf(),
            final(self)@.dom() == old(self)@.dom().insert(pkg_name@),
            forall|k: Seq<char>| k != pkg_name@ && old(self)@.contains_key(k) ==> #[trigger] final(self)@[k] == old(self)@[k],
            match fetched {
                Ok(content) => final(self)@[pkg_name@] matches BuildInfo::Deps(d) && views(d@) == spec_build_deps(content@),
                Err(e) => final(self)@[pkg_name@] matches BuildInfo::Failed(f) && f@ == e@,
            },
    {
        let info = match fetched {
            Ok(content) => {
                let parsed = parse_vex(content.as_str());
                let deps = get_values(&parsed, "dependencies");
                BuildInfo::Deps(chars_of_strings(&deps))
            },
            Err(e) => BuildInfo::Failed(e),
        };
        self.set(chars_of(pkg_name), info);
        assert(self@.dom() =~= old(self)@.dom().insert(pkg_name@));
    }
}


impl BuildIndex {
    /// The fetch result recorded for a package, if any.
    pub fn lookup(&self, key: &Vec<char>) -> (r: Option<&BuildInfo>)
        requires
            self.wf(),
        ensures
            match r {
                Some(b) => self@.contains_key(key@) && *b == self@[key@],
                None => !self@.contains_key(key@),
            },
    {
        match self.find(key) {
            Some(i) => Some(&self.infos[i]),
            None => None,
        }
    }
}

// ─────────────────────────────── the dependency graph ─────────────────────────────

/// The package's `build.vex` was fetched and read.
pub open spec fn built(g: Map<Seq<char>, BuildInfo>, p: Seq<char>) -> bool {
    g.contains_key(p) && g[p] is Deps
}

/// The dependencies listed for a package.
pub open spec fn deps_in(g: Map<Seq<char>, BuildInfo>, p: Seq<char>) -> Seq<Seq<char>> {
    match g[p] {
        BuildInfo::Deps(d) => views(d@),
        BuildInfo::Failed(_) => Seq::empty(),
    }
}

/// `p` depends on `q` (empty dependency names are ignored).
pub open spec fn edge(g: Map<Seq<char>, BuildInfo>, p: Seq<char>, q: Seq<char>) -> bool {
    built(g, p) && deps_in(g, p).contains(q) && q.len() > 0
}

/// A chain of dependencies.
pub open spec fn is_path(g: Map<Seq<char>, BuildInfo>, path: Seq<Seq<char>>) -> bool {
    &&& path.len() >= 1
    &&& forall|i: int| #![trigger path[i]] 0 <= i < path.len() - 1 ==> edge(g, path[i], path[i + 1])
}

/// `q` is `p` or one of its direct or indirect dependencies.
pub open spec fn reaches(g: Map<Seq<char>, BuildInfo>, p: Seq<char>, q: Seq<char>) -> bool {
    exists|path: Seq<Seq<char>>| is_path(g, path) && path[0] == p && path.last() == q
}

/// The error reported for a package whose `build.vex` could not be had.
pub open spec fn not_found_message(q: Seq<char>) -> Seq<char> {
    "package '"@ + q + "' not found in any repo"@
}

pub open spec fn err_of(g: Map<Seq<char>, BuildInfo>, q: Seq<char>) -> Seq<char> {
    if g.contains_key(q) {
        match g[q] {
            BuildInfo::Failed(e) => e@,
            BuildInfo::Deps(_) => Seq::empty(),
        }
    } else {
        not_found_message(q)
    }
}

pub proof fn lemma_reaches_self(g: Map<Seq<char>, BuildInfo>, p: Seq<char>)
    ensures
        reaches(g, p, p),
{
    let path = seq![p];
    assert(is_path(g, path));
    assert(is_path(g, path) && path[0] == p && path.last() == p);
}

pub proof fn lemma_reaches_prepend(g: Map<Seq<char>, BuildInfo>, p: Seq<char>, d: Seq<char>, q: Seq<char>)
    requires
        edge(g, p, d),
        reaches(g, d, q),
    ensures
        reaches(g, p, q),
{
    let path = choose|path: Seq<Seq<char>>| is_path(g, path) && path[0] == d && path.last() == q;
    let np = seq![p] + path;
    assert forall|i: int| #![trigger np[i]] 0 <= i < np.len() - 1 implies edge(g, np[i], np[i + 1]) by {
        if i > 0 {
            assert(np[i] == path[i - 1]);
            assert(np[i + 1] == path[i]);
            assert(edge(g, path[i - 1], path[(i - 1) + 1]));
        }
    }
    assert(np.last() == path.last());
    assert(is_path(g, np));
}

/// `q` is `p` or one of its dependencies by a chain that enters no package of `v`.
pub open spec fn reaches_avoiding(g: Map<Seq<char>, BuildInfo>, p: Seq<char>, q: Seq<char>, v: Seq<Seq<char>>) -> bool {
    exists|path: Seq<Seq<char>>| is_path(g, path) && path[0] == p && path.last() == q
        && forall|i: int| 0 <= i < path.len() ==> !v.contains(#[trigger] path[i])
}

pub proof fn lemma_avoiding_self(g: Map<Seq<char>, BuildInfo>, p: Seq<char>, v: Seq<Seq<char>>)
    requires
        !v.contains(p),
    ensures
        reaches_avoiding(g, p, p, v),
{
    let path = seq![p];
    assert(is_path(g, path));
    assert(forall|i: int| 0 <= i < path.len() ==> !v.contains(#[trigger] path[i]));
    assert(is_path(g, path) && path[0] == p && path.last() == p);
}

pub proof fn lemma_avoiding_prepend(
    g: Map<Seq<char>, BuildInfo>,
    p: Seq<char>,
    d: Seq<char>,
    q: Seq<char>,
    v: Seq<Seq<char>>,
    w: Seq<Seq<char>>,
)
    requires
        edge(g, p, d),
        !v.contains(p),
        reaches_avoiding(g, d, q, w),
        forall|x: Seq<char>| v.contains(x) ==> w.contains(x),
    ensures
        reaches_avoiding(g, p, q, v),
{
    let path = choose|path: Seq<Seq<char>>| is_path(g, path) && path[0] == d && path.last() == q
        && forall|i: int| 0 <= i < path.len() ==> !w.contains(#[trigger] path[i]);
    let np = seq![p] + path;
    assert forall|i: int| #![trigger np[i]] 0 <= i < np.len() - 1 implies edge(g, np[i], np[i + 1]) by {
        if i > 0 {
            assert(np[i] == path[i - 1]);
            assert(np[i + 1] == path[i]);
            assert(edge(g, path[i - 1], path[(i - 1) + 1]));
        }
    }
    assert forall|i: int| 0 <= i < np.len() implies !v.contains(#[trigger] np[i]) by {
        if i > 0 {
            assert(np[i] == path[i - 1]);
            assert(!w.contains(path[i - 1]));
        }
    }
    assert(np.last() == path.last());
    assert(is_path(g, np) && np[0] == p && np.last() == q);
}

/// Names of `ks` that are not in `vis`.
pub open spec fn unvisited(ks: Seq<Seq<char>>, vis: Seq<Seq<char>>) -> nat
    decreases ks.len(),
{
    if ks.len() == 0 {
        0
    } else {
        unvisited(ks.drop_last(), vis) + if vis.contains(ks.last()) {
            0nat
        } else {
            1nat
        }
    }
}

proof fn lemma_unvisited_mono(ks: Seq<Seq<char>>, v1: Seq<Seq<char>>, v2: Seq<Seq<char>>)
    requires
        forall|x: Seq<char>| v1.contains(x) ==> v2.contains(x),
    ensures
        unvisited(ks, v2) <= unvisited(ks, v1),
    decreases ks.len(),
{
    if ks.len() > 0 {
        lemma_unvisited_mono(ks.drop_last(), v1, v2);
    }
}

proof fn lemma_unvisited_strict(ks: Seq<Seq<char>>, v1: Seq<Seq<char>>, v2: Seq<Seq<char>>, k: Seq<char>)
    requires
        forall|x: Seq<char>| v1.contains(x) ==> v2.contains(x),
        ks.contains(k),
        !v1.contains(k),
        v2.contains(k),
    ensures
        unvisited(ks, v2) < unvisited(ks, v1),
    decreases ks.len(),
{
    lemma_unvisited_mono(ks.drop_last(), v1, v2);
    if ks.last() != k {
        let i = choose|i: int| 0 <= i < ks.len() && ks[i] == k;
        assert(ks.drop_last()[i] == k);
        lemma_unvisited_strict(ks.drop_last(), v1, v2, k);
    }
}

fn contains_str(v: &Vec<String>, s: &String) -> (b: bool)
    ensures
        b == str_views(v@).contains(s@),
{
    let mut i: usize = 0;
    while i < v.len()
        invariant
            i <= v.len(),
            forall|j: int| 0 <= j < i ==> str_views(v@)[j] != s@,
        decreases v.len() - i,
    {
        if v[i] == *s {
            assert(str_views(v@)[i as int] == s@);
            return true;
        }
        i = i + 1;
    }
    false
}

/// Every package visited but not yet appended (the packages whose resolution is
/// under way) leads to `p`.
pub open spec fn stack_reaches(g: Map<Seq<char>, BuildInfo>, p: Seq<char>, v: Seq<Seq<char>>, n: Seq<Seq<char>>) -> bool {
    forall|x: Seq<char>| v.contains(x) && !n.contains(x) ==> #[trigger] reaches(g, x, p)
}

/// Each dependency of `n[k]` comes before it in `n`, or depends on it in turn.
pub open spec fn deps_before(g: Map<Seq<char>, BuildInfo>, n: Seq<Seq<char>>, k: int) -> bool {
    forall|d: Seq<char>| #[trigger] edge(g, n[k], d) ==> n.take(k).contains(d) || reaches(g, d, n[k])
}

pub proof fn lemma_reaches_append(g: Map<Seq<char>, BuildInfo>, x: Seq<char>, p: Seq<char>, d: Seq<char>)
    requires
        reaches(g, x, p),
        edge(g, p, d),
    ensures
        reaches(g, x, d),
{
    let path = choose|path: Seq<Seq<char>>| is_path(g, path) && path[0] == x && path.last() == p;
    let np = path.push(d);
    assert forall|i: int| #![trigger np[i]] 0 <= i < np.len() - 1 implies edge(g, np[i], np[i + 1]) by {
        if i < path.len() - 1 {
            assert(np[i] == path[i] && np[i + 1] == path[i + 1]);
        } else {
            assert(np[i] == path.last());
        }
    }
    assert(is_path(g, np) && np[0] == x && np.last() == d);
}

proof fn lemma_deps_before_prefix(g: Map<Seq<char>, BuildInfo>, n: Seq<Seq<char>>, n1: Seq<Seq<char>>, k: int)
    requires
        0 <= k < n.len() <= n1.len(),
        n1.take(n.len() as int) == n,
        deps_before(g, n, k),
    ensures
        deps_before(g, n1, k),
{
    assert(n1[k] == n1.take(n.len() as int)[k]);
    assert(n1.take(k) =~= n.take(k)) by {
        assert forall|t: int| 0 <= t < k implies n1.take(k)[t] == n.take(k)[t] by {
            assert(n1.take(n.len() as int)[t] == n1[t]);
        }
    }
}

/// What a successful `resolve_deps(p, ..)` did: it appended to `needed` the packages
/// reachable from `p` that were not visited before, each once, each fetched, each
/// with its dependencies visited by the end; those and nothing else were added
/// to the visited set.
pub open spec fn resolved(
    g: Map<Seq<char>, BuildInfo>,
    p: Seq<char>,
    v0: Seq<Seq<char>>,
    n0: Seq<Seq<char>>,
    v1: Seq<Seq<char>>,
    n1: Seq<Seq<char>>,
) -> bool {
    let new = n1.skip(n0.len() as int);
    &&& n1.len() >= n0.len()
    &&& n1.take(n0.len() as int) == n0
    &&& new.no_duplicates()
    &&& forall|i: int| #![trigger new[i]] 0 <= i < new.len() ==> {
        &&& !v0.contains(new[i])
        &&& built(g, new[i])
        &&& reaches(g, p, new[i])
        &&& reaches_avoiding(g, p, new[i], v0)
        &&& forall|d: Seq<char>| edge(g, new[i], d) ==> v1.contains(d)
    }
    &&& forall|x: Seq<char>| #[trigger] v1.contains(x) <==> v0.contains(x) || new.contains(x)
    &&& stack_reaches(g, p, v0, n0) ==> forall|k: int| n0.len() <= k < n1.len() ==> deps_before(g, n1, k)
    &&& (forall|x: Seq<char>| v0.contains(x) ==> n0.contains(x)) ==> forall|k: int|
        n0.len() <= k < n1.len() ==> deps_before(g, n1, k)
}

pub proof fn lemma_unvisited_push(ks: Seq<Seq<char>>, v: Seq<Seq<char>>, p: Seq<char>)
    requires
        ks.contains(p),
        !v.contains(p),
    ensures
        unvisited(ks, v.push(p)) < unvisited(ks, v),
{
    assert forall|x: Seq<char>| v.contains(x) implies v.push(p).contains(x) by {
        let t = choose|t: int| 0 <= t < v.len() && v[t] == x;
        assert(v.push(p)[t] == x);
    }
    assert(v.push(p)[v.len() as int] == p);
    lemma_unvisited_strict(ks, v, v.push(p), p);
}

/// The depth-first walk from `p`, as `resolve_deps` makes it, given the visited
/// packages `v` and the packages `n` already needed: whether it succeeded (or the
/// package at which it stopped), and the visited and needed packages after it.
/// A package already visited is left alone; a package not visited is marked
/// visited, and if its `build.vex` was had, its non-empty dependencies are walked
/// in order and the package is appended after them; the walk stops at the first
/// package whose `build.vex` could not be had. `ks` lists the fetched packages.
pub open spec fn walk(
    g: Map<Seq<char>, BuildInfo>,
    ks: Seq<Seq<char>>,
    p: Seq<char>,
    v: Seq<Seq<char>>,
    n: Seq<Seq<char>>,
) -> (Result<(), Seq<char>>, Seq<Seq<char>>, Seq<Seq<char>>)
    decreases unvisited(ks, v), 0int, 0int,
{
    if v.contains(p) {
        (Ok(()), v, n)
    } else if !(built(g, p) && ks.contains(p)) {
        (Err(p), v.push(p), n)
    } else {
        proof {
            lemma_unvisited_push(ks, v, p);
        }
        let w = walk_deps(g, ks, deps_in(g, p), v.push(p), n);
        if w.0 is Ok {
            (Ok(()), w.1, w.2.push(p))
        } else {
            w
        }
    }
}

/// The walk of each non-empty name of `ds` in turn, stopping at the first that
/// fails.
pub open spec fn walk_deps(
    g: Map<Seq<char>, BuildInfo>,
    ks: Seq<Seq<char>>,
    ds: Seq<Seq<char>>,
    v: Seq<Seq<char>>,
    n: Seq<Seq<char>>,
) -> (Result<(), Seq<char>>, Seq<Seq<char>>, Seq<Seq<char>>)
    decreases unvisited(ks, v), 1int, ds.len(),
{
    if ds.len() == 0 {
        (Ok(()), v, n)
    } else if ds[0].len() == 0 {
        walk_deps(g, ks, ds.drop_first(), v, n)
    } else {
        let w = walk(g, ks, ds[0], v, n);
        if w.0 is Err {
            w
        } else if unvisited(ks, w.1) <= unvisited(ks, v) {
            walk_deps(g, ks, ds.drop_first(), w.1, w.2)
        } else {
            // not reached: a walk only adds to the visited packages
            w
        }
    }
}

/// The walks from each root in turn, with nothing visited at first, as `sync`
/// makes them; it stops at the first that fails.
pub open spec fn walk_roots(
    g: Map<Seq<char>, BuildInfo>,
    ks: Seq<Seq<char>>,
    roots: Seq<Seq<char>>,
    v: Seq<Seq<char>>,
    n: Seq<Seq<char>>,
) -> (Result<(), Seq<char>>, Seq<Seq<char>>, Seq<Seq<char>>)
    decreases roots.len(),
{
    if roots.len() == 0 {
        (Ok(()), v, n)
    } else {
        let w = walk(g, ks, roots[0], v, n);
        if w.0 is Err {
            w
        } else {
            walk_roots(g, ks, roots.drop_first(), w.1, w.2)
        }
    }
}

/// Two packages that depend on each other: walking from the first visits both,
/// each once, and appends the second before the first.
pub proof fn lemma_walk_two_cycle(g: Map<Seq<char>, BuildInfo>, ks: Seq<Seq<char>>, a: Seq<char>, b: Seq<char>)
    requires
        a != b,
        a.len() > 0,
        b.len() > 0,
        built(g, a),
        built(g, b),
        ks.contains(a),
        ks.contains(b),
        deps_in(g, a) == seq![b],
        deps_in(g, b) == seq![a],
    ensures
        walk(g, ks, a, seq![], seq![]) == (Ok::<(), Seq<char>>(()), seq![a, b], seq![b, a]),
{
    let e: Seq<Seq<char>> = seq![];
    let va = e.push(a);
    let vab = va.push(b);
    assert(!e.contains(a));
    assert(!va.contains(b)) by {
        if va.contains(b) {
            let i = choose|i: int| 0 <= i < va.len() && va[i] == b;
        }
    }
    assert(vab.contains(a)) by {
        assert(vab[0] == a);
    }
    // the inner walk: `a` is already visited
    let w_a2 = walk(g, ks, a, vab, e);
    assert(w_a2 == (Ok::<(), Seq<char>>(()), vab, e));
    let da = seq![a];
    assert(da[0] == a);
    assert(da.drop_first() =~= e);
    assert(walk_deps(g, ks, e, vab, e) == (Ok::<(), Seq<char>>(()), vab, e));
    assert(walk_deps(g, ks, da, vab, e) == (Ok::<(), Seq<char>>(()), vab, e));
    // the walk of `b`
    assert(walk(g, ks, b, va, e) == (Ok::<(), Seq<char>>(()), vab, e.push(b)));
    let db = seq![b];
    assert(db[0] == b);
    assert(db.drop_first() =~= e);
    lemma_unvisited_push(ks, va, b);
    assert(walk_deps(g, ks, e, vab, e.push(b)) == (Ok::<(), Seq<char>>(()), vab, e.push(b)));
    assert(walk_deps(g, ks, db, va, e) == (Ok::<(), Seq<char>>(()), vab, e.push(b)));
    assert(e.push(b).push(a) =~= seq![b, a]);
    assert(vab =~= seq![a, b]);
}

pub open spec fn name_result(r: Result<(), String>) -> Result<(), Seq<char>> {
    match r {
        Ok(()) => Ok(()),
        Err(q) => Err(q@),
    }
}

/// The walk from `pkg_name` (see `walk`); on failure, the name of the package at
/// which it stopped.
fn visit(
    pkg_name: &str,
    builds: &BuildIndex,
    visited: &mut Vec<String>,
    needed: &mut Vec<String>,
) -> (r: Result<(), String>)
    requires
        builds.wf(),
    ensures
        forall|x: Seq<char>| #[trigger] str_views(old(visited)@).contains(x) ==> str_views(final(visited)@).contains(x),
        str_views(final(visited)@).contains(pkg_name@),
        match r {
            Ok(()) => resolved(
                builds@,
                pkg_name@,
                str_views(old(visited)@),
                str_views(old(needed)@),
                str_views(final(visited)@),
                str_views(final(needed)@),
            ),
            Err(q) => reaches(builds@, pkg_name@, q@) && !built(builds@, q@),
        },
        (name_result(r), str_views(final(visited)@), str_views(final(needed)@)) == walk(
            builds@,
            builds.name_views(),
            pkg_name@,
            str_views(old(visited)@),
            str_views(old(needed)@),
        ),
    decreases unvisited(builds.name_views(), str_views(visited@)),
{
    let ghost g = builds@;
    let ghost p = pkg_name@;
    let ghost v0 = str_views(visited@);
    let ghost n0 = str_views(needed@);
    let name = pkg_name.to_owned();
    if contains_str(visited, &name) {
        assert(n0.skip(n0.len() as int) =~= Seq::<Seq<char>>::empty());
        assert(n0.take(n0.len() as int) =~= n0);
        return Ok(());
    }
    visited.push(name.clone());
    assert(str_views(visited@) =~= v0.push(p));
    assert forall|x: Seq<char>| #[trigger] v0.contains(x) implies str_views(visited@).contains(x) by {
        let t = choose|t: int| 0 <= t < v0.len() && v0[t] == x;
        assert(str_views(visited@)[t] == x);
    }
    assert(str_views(visited@)[v0.len() as int] == p);
    let key = chars_of(pkg_name);
    let deps: &Vec<Vec<char>> = match builds.lookup(&key) {
        None => {
            proof {
                lemma_reaches_self(g, p);
            }
            return Err(name);
        },
        Some(BuildInfo::Failed(_)) => {
            proof {
                lemma_reaches_self(g, p);
            }
            return Err(name);
        },
        Some(BuildInfo::Deps(d)) => d,
    };
    assert(built(g, p));
    assert(deps_in(g, p) == views(deps@));
    proof {
        assert(builds.name_views().contains(p));
    }
    let ghost ks = builds.name_views();
    let ghost wd = walk_deps(g, ks, views(deps@), v0.push(p), n0);
    assert(walk(g, ks, p, v0, n0) == (if wd.0 is Ok {
        (Ok::<(), Seq<char>>(()), wd.1, wd.2.push(p))
    } else {
        wd
    }));
    let mut i: usize = 0;
    assert(str_views(needed@).skip(n0.len() as int) =~= Seq::<Seq<char>>::empty());
    assert(str_views(needed@).take(n0.len() as int) =~= n0);
    assert(views(deps@).skip(0) =~= views(deps@));
    while i < deps.len()
        invariant
            builds.wf(),
            g == builds@,
            ks == builds.name_views(),
            wd == walk_deps(g, ks, views(deps@), v0.push(p), n0),
            wd == walk_deps(g, ks, views(deps@).skip(i as int), str_views(visited@), str_views(needed@)),
            v0 == str_views(old(visited)@),
            n0 == str_views(old(needed)@),
            p == pkg_name@,
            built(g, p),
            deps_in(g, p) == views(deps@),
            builds.name_views().contains(p),
            !v0.contains(p),
            i <= deps.len(),
            forall|x: Seq<char>| v0.contains(x) ==> str_views(visited@).contains(x),
            str_views(visited@).contains(p),
            str_views(needed@).len() >= n0.len(),
            str_views(needed@).take(n0.len() as int) == n0,
            str_views(needed@).skip(n0.len() as int).no_duplicates(),
            forall|j: int| #![trigger str_views(needed@).skip(n0.len() as int)[j]] 0 <= j < str_views(needed@).skip(n0.len() as int).len() ==> {
                let q = str_views(needed@).skip(n0.len() as int)[j];
                &&& !v0.contains(q)
                &&& q != p
                &&& built(g, q)
                &&& reaches(g, p, q)
                &&& reaches_avoiding(g, p, q, v0)
                &&& forall|d: Seq<char>| edge(g, q, d) ==> str_views(visited@).contains(d)
            },
            forall|x: Seq<char>| #[trigger] str_views(visited@).contains(x) <==> v0.contains(x) || x == p || str_views(needed@).skip(n0.len() as int).contains(x),
            forall|j: int| 0 <= j < i && (#[trigger] views(deps@)[j]).len() > 0 ==> str_views(visited@).contains(views(deps@)[j]),
            stack_reaches(g, p, v0, n0) ==> forall|k: int| n0.len() <= k < str_views(needed@).len() ==> deps_before(g, str_views(needed@), k),
        decreases deps.len() - i,
    {
        let dep = &deps[i];
        assert(views(deps@).skip(i as int)[0] == dep@);
        assert(views(deps@).skip(i as int).drop_first() =~= views(deps@).skip(i + 1));
        if dep.len() > 0 {
            let dep_name = string_of(dep);
            let ghost vc = str_views(visited@);
            let ghost nc = str_views(needed@);
            let ghost newc = nc.skip(n0.len() as int);
            proof {
                lemma_unvisited_strict(builds.name_views(), v0, vc, p);
            }
            assert(unvisited(builds.name_views(), vc) < unvisited(builds.name_views(), v0));
            assert(edge(g, p, dep@)) by {
                assert(views(deps@)[i as int] == dep@);
            }
            proof {
                if stack_reaches(g, p, v0, n0) {
                    assert forall|x: Seq<char>| vc.contains(x) && !nc.contains(x) implies #[trigger] reaches(g, x, dep@) by {
                        if newc.contains(x) {
                            let t = choose|t: int| 0 <= t < newc.len() && newc[t] == x;
                            assert(nc[n0.len() + t] == x);
                        }
                        if n0.contains(x) {
                            let t = choose|t: int| 0 <= t < n0.len() && n0[t] == x;
                            assert(nc.take(n0.len() as int)[t] == x);
                            assert(nc[t] == x);
                        }
                        if x == p {
                            lemma_reaches_self(g, p);
                        }
                        lemma_reaches_append(g, x, p, dep@);
                    }
                }
            }
            match visit(dep_name.as_str(), builds, visited, needed) {
                Ok(()) => {
                    let ghost v1 = str_views(visited@);
                    let ghost n1 = str_views(needed@);
                    proof {
                        lemma_unvisited_mono(ks, vc, v1);
                    }
                    let ghost newd = n1.skip(nc.len() as int);
                    let ghost new1 = n1.skip(n0.len() as int);
                    assert(n1.take(nc.len() as int) == nc);
                    assert(new1 =~= newc + newd) by {
                        assert forall|t: int| 0 <= t < new1.len() implies #[trigger] new1[t] == (newc + newd)[t] by {
                            if t < newc.len() {
                                assert(new1[t] == n1[n0.len() + t]);
                                assert(n1[n0.len() + t] == n1.take(nc.len() as int)[n0.len() + t]);
                            }
                        }
                    }
                    assert(n1.take(n0.len() as int) =~= n0) by {
                        assert forall|t: int| 0 <= t < n0.len() implies #[trigger] n1[t] == n0[t] by {
                            assert(n1.take(nc.len() as int)[t] == nc[t]);
                            assert(nc.take(n0.len() as int)[t] == n0[t]);
                        }
                    }
                    assert forall|j: int| #![trigger newd[j]] 0 <= j < newd.len() implies !vc.contains(newd[j]) && reaches(g, p, newd[j])
                        && reaches_avoiding(g, p, newd[j], v0) by {
                        lemma_reaches_prepend(g, p, dep@, newd[j]);
                        lemma_avoiding_prepend(g, p, dep@, newd[j], v0, vc);
                    }
                    assert(new1.no_duplicates()) by {
                        assert forall|a: int, b: int| 0 <= a < new1.len() && 0 <= b < new1.len() && a != b implies new1[a] != new1[b] by {
                            if a < newc.len() && b < newc.len() {
                                assert(new1[a] == newc[a] && new1[b] == newc[b]);
                            } else if a >= newc.len() && b >= newc.len() {
                                assert(new1[a] == newd[a - newc.len()] && new1[b] == newd[b - newc.len()]);
                            } else if a < newc.len() {
                                assert(new1[a] == newc[a]);
                                assert(vc.contains(newc[a]));
                                assert(new1[b] == newd[b - newc.len()]);
                            } else {
                                assert(new1[b] == newc[b]);
                                assert(vc.contains(newc[b]));
                                assert(new1[a] == newd[a - newc.len()]);
                            }
                        }
                    }
                    assert forall|j: int| #![trigger new1[j]] 0 <= j < new1.len() implies {
                        let q = new1[j];
                        &&& !v0.contains(q)
                        &&& q != p
                        &&& built(g, q)
                        &&& reaches(g, p, q)
                        &&& reaches_avoiding(g, p, q, v0)
                        &&& forall|d: Seq<char>| edge(g, q, d) ==> v1.contains(d)
                    } by {
                        if j < newc.len() {
                            assert(new1[j] == newc[j]);
                        } else {
                            assert(new1[j] == newd[j - newc.len()]);
                            assert(!vc.contains(newd[j - newc.len()]));
                        }
                    }
                    assert forall|x: Seq<char>| #[trigger] v1.contains(x) <==> v0.contains(x) || x == p || new1.contains(x) by {
                        if new1.contains(x) {
                            let t = choose|t: int| 0 <= t < new1.len() && new1[t] == x;
                            if t < newc.len() {
                                assert(newc[t] == x);
                                assert(newc.contains(x));
                            } else {
                                assert(newd[t - newc.len()] == x);
                                assert(newd.contains(x));
                            }
                        }
                        if newc.contains(x) {
                            let t = choose|t: int| 0 <= t < newc.len() && newc[t] == x;
                            assert(new1[t] == x);
                        }
                        if newd.contains(x) {
                            let t = choose|t: int| 0 <= t < newd.len() && newd[t] == x;
                            assert(new1[newc.len() + t] == x);
                        }
                    }
                    assert(views(deps@)[i as int] == dep@);
                    proof {
                        if stack_reaches(g, p, v0, n0) {
                            assert(stack_reaches(g, dep@, vc, nc));
                            assert forall|k: int| n0.len() <= k < n1.len() implies deps_before(g, n1, k) by {
                                if k < nc.len() {
                                    lemma_deps_before_prefix(g, nc, n1, k);
                                }
                            }
                        }
                    }
                },
                Err(e) => {
                    assert forall|x: Seq<char>| #[trigger] v0.contains(x) implies str_views(visited@).contains(x) by {
                        assert(vc.contains(x));
                    }
                    proof {
                        lemma_reaches_prepend(g, p, dep@, e@);
                    }
                    return Err(e);
                },
            }
        }
        i = i + 1;
    }
    let ghost vc = str_views(visited@);
    let ghost nc = str_views(needed@);
    let ghost newc = nc.skip(n0.len() as int);
    assert(views(deps@).skip(deps.len() as int) =~= Seq::<Seq<char>>::empty());
    needed.push(name);
    let ghost n1 = str_views(needed@);
    let ghost new1 = n1.skip(n0.len() as int);
    assert(n1 =~= nc.push(p));
    assert(new1 =~= newc.push(p));
    assert(n1.take(n0.len() as int) =~= n0) by {
        assert forall|t: int| 0 <= t < n0.len() implies #[trigger] n1[t] == n0[t] by {
            assert(nc.take(n0.len() as int)[t] == n0[t]);
        }
    }
    assert(new1.no_duplicates()) by {
        assert forall|a: int, b: int| 0 <= a < new1.len() && 0 <= b < new1.len() && a != b implies new1[a] != new1[b] by {
            if a < newc.len() && b < newc.len() {
                assert(new1[a] == newc[a] && new1[b] == newc[b]);
            } else if a < newc.len() {
                assert(new1[a] == newc[a]);
            } else if b < newc.len() {
                assert(new1[b] == newc[b]);
            }
        }
    }
    proof {
        lemma_reaches_self(g, p);
        lemma_avoiding_self(g, p, v0);
    }
    assert forall|j: int| #![trigger new1[j]] 0 <= j < new1.len() implies {
        &&& !v0.contains(new1[j])
        &&& built(g, new1[j])
        &&& reaches(g, p, new1[j])
        &&& reaches_avoiding(g, p, new1[j], v0)
        &&& forall|d: Seq<char>| edge(g, new1[j], d) ==> vc.contains(d)
    } by {
        if j < newc.len() {
            assert(new1[j] == newc[j]);
        } else {
            assert(new1[j] == p);
            assert forall|d: Seq<char>| edge(g, p, d) implies vc.contains(d) by {
                let t = choose|t: int| 0 <= t < views(deps@).len() && views(deps@)[t] == d;
            }
        }
    }
    proof {
        if stack_reaches(g, p, v0, n0) {
            assert forall|k: int| n0.len() <= k < n1.len() implies deps_before(g, n1, k) by {
                if k < nc.len() {
                    assert(n1.take(nc.len() as int) =~= nc);
                    lemma_deps_before_prefix(g, nc, n1, k);
                } else {
                    assert(n1[k] == p);
                    assert(n1.take(k) =~= nc);
                    assert forall|d: Seq<char>| #[trigger] edge(g, n1[k], d) implies n1.take(k).contains(d) || reaches(g, d, n1[k]) by {
                        let t = choose|t: int| 0 <= t < views(deps@).len() && views(deps@)[t] == d;
                        assert(vc.contains(d));
                        if newc.contains(d) {
                            let u = choose|u: int| 0 <= u < newc.len() && newc[u] == d;
                            assert(nc[n0.len() + u] == d);
                        } else if n0.contains(d) {
                            let u = choose|u: int| 0 <= u < n0.len() && n0[u] == d;
                            assert(nc.take(n0.len() as int)[u] == d);
                            assert(nc[u] == d);
                        } else if d == p {
                            lemma_reaches_self(g, p);
                        } else {
                            assert(v0.contains(d));
                        }
                    }
                }
            }
        }
    }
    assert forall|x: Seq<char>| #[trigger] vc.contains(x) <==> v0.contains(x) || new1.contains(x) by {
        if x == p {
            assert(new1[newc.len() as int] == p);
        }
        if newc.contains(x) {
            let t = choose|t: int| 0 <= t < newc.len() && newc[t] == x;
            assert(new1[t] == x);
        }
        if new1.contains(x) && x != p {
            let t = choose|t: int| 0 <= t < new1.len() && new1[t] == x;
            assert(t < newc.len());
            assert(newc[t] == x);
        }
    }
    Ok(())
}


/// Following dependencies from a package appended by a successful resolution,
/// without entering a package visited before it, only reaches packages that it
/// appended.
proof fn lemma_resolved_covers(
    g: Map<Seq<char>, BuildInfo>,
    p: Seq<char>,
    v0: Seq<Seq<char>>,
    n0: Seq<Seq<char>>,
    v1: Seq<Seq<char>>,
    n1: Seq<Seq<char>>,
    path: Seq<Seq<char>>,
)
    requires
        resolved(g, p, v0, n0, v1, n1),
        is_path(g, path),
        n1.skip(n0.len() as int).contains(path[0]),
        forall|i: int| 0 <= i < path.len() ==> !v0.contains(#[trigger] path[i]),
    ensures
        n1.skip(n0.len() as int).contains(path.last()),
    decreases path.len(),
{
    let new = n1.skip(n0.len() as int);
    if path.len() > 1 {
        let p2 = path.drop_last();
        assert(is_path(g, p2)) by {
            assert forall|i: int| #![trigger p2[i]] 0 <= i < p2.len() - 1 implies edge(g, p2[i], p2[i + 1]) by {
                assert(p2[i] == path[i] && p2[i + 1] == path[i + 1]);
            }
        }
        assert forall|i: int| 0 <= i < p2.len() implies !v0.contains(#[trigger] p2[i]) by {
            assert(p2[i] == path[i]);
        }
        assert(p2[0] == path[0]);
        lemma_resolved_covers(g, p, v0, n0, v1, n1, p2);
        let k = path.len() - 2;
        assert(p2.last() == path[k]);
        assert(edge(g, path[k], path[k + 1]));
        let t = choose|t: int| 0 <= t < new.len() && new[t] == path[k];
        assert(edge(g, new[t], path.last()));
        assert(v1.contains(path.last()));
        assert(!v0.contains(path[path.len() - 1]));
    }
}

/// The error reported for the package at which resolution stopped: the reason
/// its fetch failed, or that no repository has it.
fn failure_message(builds: &BuildIndex, q: &String) -> (e: String)
    requires
        builds.wf(),
    ensures
        e@ == err_of(builds@, q@),
{
    let key = chars_of(q.as_str());
    match builds.lookup(&key) {
        Some(BuildInfo::Failed(e)) => e.clone(),
        Some(BuildInfo::Deps(_)) => String::new(),
        None => {
            let mut msg = chars_of("package '");
            push_all(&mut msg, &key);
            push_all(&mut msg, &chars_of("' not found in any repo"));
            assert(msg@ == not_found_message(q@));
            string_of(&msg)
        },
    }
}

/// Visits `pkg_name` and, depth first, its dependencies, appending each newly
/// visited package to `needed` after its own dependencies; stops at the first
/// package whose `build.vex` could not be had, with its error. The visited and
/// needed packages end as `walk` says, on success and on failure alike: a package
/// already visited changes nothing, and on a cycle the package reached last is
/// appended first.
pub fn resolve_deps(
    pkg_name: &str,
    builds: &BuildIndex,
    visited: &mut Vec<String>,
    needed: &mut Vec<String>,
) -> (r: Result<(), String>)
    requires
        builds.wf(),
    ensures
        forall|x: Seq<char>| #[trigger] str_views(old(visited)@).contains(x) ==> str_views(final(visited)@).contains(x),
        str_views(final(visited)@).contains(pkg_name@),
        match r {
            Ok(()) => resolved(
                builds@,
                pkg_name@,
                str_views(old(visited)@),
                str_views(old(needed)@),
                str_views(final(visited)@),
                str_views(final(needed)@),
            ),
            Err(e) => exists|q: Seq<char>|
                reaches(builds@, pkg_name@, q) && !built(builds@, q) && e@ == err_of(builds@, q),
        },
        match (r, walk(builds@, builds.name_views(), pkg_name@, str_views(old(visited)@), str_views(old(needed)@)).0) {
            (Ok(()), Ok(())) => true,
            (Err(e), Err(q)) => e@ == err_of(builds@, q),
            _ => false,
        },
        str_views(final(visited)@) == walk(builds@, builds.name_views(), pkg_name@, str_views(old(visited)@), str_views(old(needed)@)).1,
        str_views(final(needed)@) == walk(builds@, builds.name_views(), pkg_name@, str_views(old(visited)@), str_views(old(needed)@)).2,
        str_views(old(visited)@).contains(pkg_name@) ==> r is Ok && str_views(final(visited)@) == str_views(old(visited)@)
            && str_views(final(needed)@) == str_views(old(needed)@),
        r is Ok && !str_views(old(visited)@).contains(pkg_name@) ==> str_views(final(needed)@).len() > 0
            && str_views(final(needed)@).last() == pkg_name@,
        r is Ok && !str_views(old(visited)@).contains(pkg_name@) ==> forall|path: Seq<Seq<char>>|
            #![trigger is_path(builds@, path)]
            is_path(builds@, path) && path[0] == pkg_name@ && (forall|i: int|
                0 <= i < path.len() ==> !str_views(old(visited)@).contains(#[trigger] path[i]))
                ==> str_views(final(needed)@).skip(str_views(old(needed)@).len() as int).contains(path.last()),
{
    match visit(pkg_name, builds, visited, needed) {
        Ok(()) => {
            proof {
                let g = builds@;
                let ks = builds.name_views();
                let v0 = str_views(old(visited)@);
                let p = pkg_name@;
                if !v0.contains(p) {
                    if built(g, p) && ks.contains(p) {
                        let wd = walk_deps(g, ks, deps_in(g, p), v0.push(p), str_views(old(needed)@));
                        assert(wd.0 is Ok);
                    }
                    let n0 = str_views(old(needed)@);
                    let v1 = str_views(visited@);
                    let n1 = str_views(needed@);
                    assert(v1.contains(p));
                    assert(n1.skip(n0.len() as int).contains(p));
                    assert forall|path: Seq<Seq<char>>| #![trigger is_path(g, path)]
                        is_path(g, path) && path[0] == p && (forall|i: int| 0 <= i < path.len() ==> !v0.contains(#[trigger] path[i]))
                        implies n1.skip(n0.len() as int).contains(path.last()) by {
                        lemma_resolved_covers(g, p, v0, n0, v1, n1, path);
                    }
                }
            }
            Ok(())
        },
        Err(q) => {
            let e = failure_message(builds, &q);
            Err(e)
        },
    }
}

/// `q` is one of the roots or a direct or indirect dependency of one.
pub open spec fn reaches_any(g: Map<Seq<char>, BuildInfo>, roots: Seq<Seq<char>>, q: Seq<char>) -> bool {
    exists|r: Seq<char>| roots.contains(r) && reaches(g, r, q)
}

/// Every dependency of a member is a member.
pub open spec fn closed_under_deps(g: Map<Seq<char>, BuildInfo>, s: Seq<Seq<char>>) -> bool {
    forall|q: Seq<char>, d: Seq<char>| s.contains(q) && #[trigger] edge(g, q, d) ==> s.contains(d)
}

proof fn lemma_closed_path(g: Map<Seq<char>, BuildInfo>, s: Seq<Seq<char>>, path: Seq<Seq<char>>)
    requires
        closed_under_deps(g, s),
        is_path(g, path),
        s.contains(path[0]),
    ensures
        s.contains(path.last()),
    decreases path.len(),
{
    if path.len() > 1 {
        let p2 = path.drop_last();
        assert(is_path(g, p2)) by {
            assert forall|i: int| #![trigger p2[i]] 0 <= i < p2.len() - 1 implies edge(g, p2[i], p2[i + 1]) by {
                assert(p2[i] == path[i] && p2[i + 1] == path[i + 1]);
            }
        }
        lemma_closed_path(g, s, p2);
        let k = path.len() - 2;
        assert(p2.last() == path[k]);
        assert(edge(g, path[k], path[k + 1]));
        assert(path[k + 1] == path.last());
    }
}

/// The walks from every root (see `walk_roots`); on failure, the name of the
/// package at which they stopped.
fn visit_all(desired_pkgs: &Vec<String>, builds: &BuildIndex) -> (r: Result<Vec<String>, String>)
    requires
        builds.wf(),
    ensures
        match r {
            Ok(needed) => {
                &&& str_views(needed@).no_duplicates()
                &&& forall|q: Seq<char>| #[trigger] str_views(needed@).contains(q) <==> reaches_any(builds@, str_views(desired_pkgs@), q)
                &&& forall|i: int| 0 <= i < needed.len() ==> built(builds@, #[trigger] str_views(needed@)[i])
                &&& forall|k: int| 0 <= k < needed.len() ==> deps_before(builds@, str_views(needed@), k)
                &&& walk_roots(builds@, builds.name_views(), str_views(desired_pkgs@), seq![], seq![]).0 == Ok::<(), Seq<char>>(())
                &&& str_views(needed@) == walk_roots(builds@, builds.name_views(), str_views(desired_pkgs@), seq![], seq![]).2
            },
            Err(q) => {
                &&& reaches_any(builds@, str_views(desired_pkgs@), q@)
                &&& !built(builds@, q@)
                &&& walk_roots(builds@, builds.name_views(), str_views(desired_pkgs@), seq![], seq![]).0 == Err::<(), Seq<char>>(q@)
            },
        },
{
    let ghost g = builds@;
    let ghost roots = str_views(desired_pkgs@);
    let ghost ks = builds.name_views();
    let ghost wr = walk_roots(g, ks, roots, seq![], seq![]);
    let mut visited: Vec<String> = Vec::new();
    let mut needed: Vec<String> = Vec::new();
    let mut i: usize = 0;
    assert(str_views(needed@) =~= Seq::<Seq<char>>::empty());
    assert(str_views(visited@) =~= Seq::<Seq<char>>::empty());
    assert(roots.skip(0) =~= roots);
    while i < desired_pkgs.len()
        invariant
            builds.wf(),
            g == builds@,
            ks == builds.name_views(),
            roots == str_views(desired_pkgs@),
            wr == walk_roots(g, ks, roots, seq![], seq![]),
            wr == walk_roots(g, ks, roots.skip(i as int), str_views(visited@), str_views(needed@)),
            i <= desired_pkgs.len(),
            str_views(needed@).no_duplicates(),
            forall|x: Seq<char>| #[trigger] str_views(visited@).contains(x) <==> str_views(needed@).contains(x),
            closed_under_deps(g, str_views(needed@)),
            forall|j: int| 0 <= j < needed.len() ==> built(g, #[trigger] str_views(needed@)[j]),
            forall|j: int| 0 <= j < needed.len() ==> reaches_any(g, roots, #[trigger] str_views(needed@)[j]),
            forall|j: int| 0 <= j < i ==> str_views(needed@).contains(#[trigger] roots[j]),
            forall|k: int| 0 <= k < needed.len() ==> deps_before(g, str_views(needed@), k),
        decreases desired_pkgs.len() - i,
    {
        let ghost v0 = str_views(visited@);
        let ghost n0 = str_views(needed@);
        let ghost r = roots[i as int];
        assert(desired_pkgs@[i as int]@ == r);
        assert(stack_reaches(g, r, v0, n0));
        assert(roots.skip(i as int)[0] == r);
        assert(roots.skip(i as int).drop_first() =~= roots.skip(i + 1));
        match visit(desired_pkgs[i].as_str(), builds, &mut visited, &mut needed) {
            Ok(()) => {
                let ghost v1 = str_views(visited@);
                let ghost n1 = str_views(needed@);
                let ghost new = n1.skip(n0.len() as int);
                assert(n1 =~= n0 + new) by {
                    assert forall|t: int| 0 <= t < n0.len() implies #[trigger] n1[t] == n0[t] by {
                        assert(n1.take(n0.len() as int)[t] == n0[t]);
                    }
                }
                assert(n1.no_duplicates()) by {
                    assert forall|a: int, b: int| 0 <= a < n1.len() && 0 <= b < n1.len() && a != b implies n1[a] != n1[b] by {
                        if a < n0.len() && b >= n0.len() {
                            assert(v0.contains(n0[a]));
                            assert(!v0.contains(new[b - n0.len()]));
                        } else if b < n0.len() && a >= n0.len() {
                            assert(v0.contains(n0[b]));
                            assert(!v0.contains(new[a - n0.len()]));
                        } else if a >= n0.len() {
                            assert(new[a - n0.len()] != new[b - n0.len()]);
                        }
                    }
                }
                assert forall|x: Seq<char>| #[trigger] v1.contains(x) <==> n1.contains(x) by {
                    if new.contains(x) {
                        let t = choose|t: int| 0 <= t < new.len() && new[t] == x;
                        assert(n1[n0.len() + t] == x);
                    }
                    if n0.contains(x) {
                        let t = choose|t: int| 0 <= t < n0.len() && n0[t] == x;
                        assert(n1[t] == x);
                    }
                    if n1.contains(x) {
                        let t = choose|t: int| 0 <= t < n1.len() && n1[t] == x;
                        if t < n0.len() {
                            assert(n0.contains(x));
                        } else {
                            assert(new[t - n0.len()] == x);
                            assert(new.contains(x));
                        }
                    }
                }
                assert(closed_under_deps(g, n1)) by {
                    assert forall|q: Seq<char>, d: Seq<char>| n1.contains(q) && #[trigger] edge(g, q, d) implies n1.contains(d) by {
                        let t = choose|t: int| 0 <= t < n1.len() && n1[t] == q;
                        if t < n0.len() {
                            assert(n0.contains(q));
                            assert(n0.contains(d));
                            assert(v0.contains(d));
                        } else {
                            assert(new[t - n0.len()] == q);
                            assert(v1.contains(d));
                        }
                    }
                }
                assert forall|j: int| 0 <= j < n1.len() implies built(g, #[trigger] n1[j]) && reaches_any(g, roots, n1[j]) by {
                    if j >= n0.len() {
                        assert(new[j - n0.len()] == n1[j]);
                        assert(roots.contains(r)) by {
                            assert(roots[i as int] == r);
                        }
                        assert(reaches(g, r, n1[j]));
                    } else {
                        assert(n0[j] == n1[j]);
                    }
                }
                assert forall|k: int| 0 <= k < n1.len() implies deps_before(g, n1, k) by {
                    if k < n0.len() {
                        lemma_deps_before_prefix(g, n0, n1, k);
                    }
                }
                assert forall|j: int| 0 <= j < i + 1 implies n1.contains(#[trigger] roots[j]) by {
                    if j < i {
                        assert(n0.contains(roots[j]));
                        let t = choose|t: int| 0 <= t < n0.len() && n0[t] == roots[j];
                        assert(n1[t] == roots[j]);
                    } else {
                        assert(v1.contains(r));
                    }
                }
            },
            Err(e) => {
                proof {
                    assert(roots[i as int] == r);
                    assert(roots.contains(r));
                    assert(reaches_any(g, roots, e@));
                }
                return Err(e);
            },
        }
        i = i + 1;
    }
    let ghost n = str_views(needed@);
    assert(roots.skip(desired_pkgs.len() as int) =~= Seq::<Seq<char>>::empty());
    assert forall|q: Seq<char>| #[trigger] n.contains(q) <==> reaches_any(g, roots, q) by {
        if n.contains(q) {
            let t = choose|t: int| 0 <= t < n.len() && n[t] == q;
            assert(reaches_any(g, roots, n[t]));
        }
        if reaches_any(g, roots, q) {
            let r = choose|r: Seq<char>| roots.contains(r) && reaches(g, r, q);
            let j = choose|j: int| 0 <= j < roots.len() && roots[j] == r;
            assert(n.contains(roots[j]));
            let path = choose|path: Seq<Seq<char>>| is_path(g, path) && path[0] == r && path.last() == q;
            lemma_closed_path(g, n, path);
        }
    }
    Ok(needed)
}


/// Resolves every package the user asks for, in order, as `sync` does: the packages
/// needed, each once, each after the packages it depends on, in the order of the
/// depth-first walks (`walk_roots`); or the error of the first package, in that
/// order, whose `build.vex` could not be had.
pub fn resolve_all(desired_pkgs: &Vec<String>, builds: &BuildIndex) -> (r: Result<Vec<String>, String>)
    requires
        builds.wf(),
    ensures
        match r {
            Ok(needed) => {
                &&& str_views(needed@).no_duplicates()
                &&& forall|q: Seq<char>| #[trigger] str_views(needed@).contains(q) <==> reaches_any(builds@, str_views(desired_pkgs@), q)
                &&& forall|i: int| 0 <= i < needed.len() ==> built(builds@, #[trigger] str_views(needed@)[i])
                &&& forall|k: int| 0 <= k < needed.len() ==> deps_before(builds@, str_views(needed@), k)
            },
            Err(e) => exists|q: Seq<char>|
                reaches_any(builds@, str_views(desired_pkgs@), q) && !built(builds@, q) && e@ == err_of(builds@, q),
        },
        match (r, walk_roots(builds@, builds.name_views(), str_views(desired_pkgs@), seq![], seq![]).0) {
            (Ok(needed), Ok(())) => str_views(needed@) == walk_roots(
                builds@,
                builds.name_views(),
                str_views(desired_pkgs@),
                seq![],
                seq![],
            ).2,
            (Err(e), Err(q)) => e@ == err_of(builds@, q),
            _ => false,
        },
{
    match visit_all(desired_pkgs, builds) {
        Ok(needed) => Ok(needed),
        Err(q) => {
            let e = failure_message(builds, &q);
            Err(e)
        },
    }
}

/// What resolution needs next, given the `build.vex` files fetched so far.
pub enum ResolveStep {
    /// Fetch this package's `build.vex`: the walks reached it and it has not
    /// been fetched.
    Fetch(String),
    /// Every package reached was fetched: the packages needed, in build order.
    Done(Vec<String>),
    /// The walks reached a package whose fetch failed, with that error.
    Failed(String),
}

/// One step of resolving as the depth-first walks fetch: the first package the
/// walks reach that is not fetched yet, or, when the walks stop at a package
/// whose fetch failed, that failure, or, when every package reached is
/// fetched, the result. Fetching in these steps asks for the same packages, in
/// the same order, as walking and fetching at once, and stops at the same
/// failure.
pub fn resolve_step(desired_pkgs: &Vec<String>, builds: &BuildIndex) -> (r: ResolveStep)
    requires
        builds.wf(),
    ensures
        match r {
            ResolveStep::Done(needed) => {
                &&& str_views(needed@).no_duplicates()
                &&& forall|q: Seq<char>| #[trigger] str_views(needed@).contains(q) <==> reaches_any(builds@, str_views(desired_pkgs@), q)
                &&& forall|i: int| 0 <= i < needed.len() ==> built(builds@, #[trigger] str_views(needed@)[i])
                &&& forall|k: int| 0 <= k < needed.len() ==> deps_before(builds@, str_views(needed@), k)
            },
            _ => true,
        },
        match (r, walk_roots(builds@, builds.name_views(), str_views(desired_pkgs@), seq![], seq![]).0) {
            (ResolveStep::Done(needed), Ok(())) => str_views(needed@) == walk_roots(
                builds@,
                builds.name_views(),
                str_views(desired_pkgs@),
                seq![],
                seq![],
            ).2,
            (ResolveStep::Fetch(q), Err(p)) => q@ == p && !builds@.contains_key(p),
            (ResolveStep::Failed(e), Err(p)) => builds@.contains_key(p) && e@ == err_of(builds@, p),
            _ => false,
        },
{
    match visit_all(desired_pkgs, builds) {
        Ok(needed) => ResolveStep::Done(needed),
        Err(q) => {
            let key = chars_of(q.as_str());
            match builds.lookup(&key) {
                None => ResolveStep::Fetch(q),
                Some(_) => ResolveStep::Failed(failure_message(builds, &q)),
            }
        },
    }
}

} // verus!
