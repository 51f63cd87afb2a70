//! Finding what a build installed: the paths that appear between two
//! snapshots of the watched directories, outermost first.

use vstd::prelude::*;
use crate::text::{chars_of, split, split_on, str_views, views, lemma_split_nonempty};

verus! {

/// `RootDir` when the path starts with `/`.
pub open spec fn root_part(p: Seq<char>) -> Seq<Seq<char>> {
    if p.len() > 0 && p[0] == '/' {
        seq![seq!['/']]
    } else {
        Seq::empty()
    }
}

/// The segments that are components: not empty and not `.`.
pub open spec fn norm_segs(segs: Seq<Seq<char>>) -> Seq<Seq<char>>
    decreases segs.len(),
{
    if segs.len() == 0 {
        Seq::empty()
    } else if segs.last().len() == 0 || segs.last() == seq!['.'] {
        norm_segs(segs.drop_last())
    } else {
        norm_segs(segs.drop_last()).push(segs.last())
    }
}

/// `Path::components` on Unix: the root, a leading `.` of a relative path, then
/// the segments between `/` other than empty ones and `.`.
pub open spec fn components(p: Seq<char>) -> Seq<Seq<char>> {
    let segs = split(p, '/');
    root_part(p) + if root_part(p).len() == 0 && segs[0] == seq!['.'] {
        seq![seq!['.']] + norm_segs(segs.drop_first())
    } else {
        norm_segs(segs)
    }
}

/// `Path::starts_with`: the components of `prefix` begin those of `p`.
pub open spec fn path_starts_with(p: Seq<char>, prefix: Seq<char>) -> bool {
    components(prefix).len() <= components(p).len() && components(p).take(
        components(prefix).len() as int,
    ) == components(prefix)
}

/// The number of components of a path.
pub open spec fn depth(p: Seq<char>) -> nat {
    components(p).len()
}

fn norm_segs_of(segs: &Vec<Vec<char>>, from: usize) -> (r: Vec<Vec<char>>)
    requires
        from <= segs.len(),
    ensures
        views(r@) == norm_segs(views(segs@).skip(from as int)),
{
    let ghost s = views(segs@).skip(from as int);
    let mut out: Vec<Vec<char>> = Vec::new();
    let mut i: usize = from;
    assert(s.take(0) =~= Seq::<Seq<char>>::empty());
    assert(views(out@) =~= Seq::<Seq<char>>::empty());
    while i < segs.len()
        invariant
            from <= i <= segs.len(),
            s == views(segs@).skip(from as int),
            views(out@) == norm_segs(s.take(i - from)),
        decreases segs.len() - i,
    {
        assert(s.take(i + 1 - from).drop_last() =~= s.take(i - from));
        assert(s.take(i + 1 - from).last() == segs@[i as int]@);
        let seg = &segs[i];
        let is_dot = seg.len() == 1 && seg[0] == '.';
        assert(is_dot == (seg@ == seq!['.'])) by {
            if seg@ == seq!['.'] {
                assert(seg@.len() == 1);
            }
            if is_dot {
                assert(seg@ =~= seq!['.']);
            }
        }
        if !(seg.len() == 0 || is_dot) {
            let c = crate::text::slice_of(seg, 0, seg.len());
            assert(c@ =~= seg@);
            let ghost b = views(out@);
            out.push(c);
            assert(views(out@) =~= b.push(c@));
        }
        i = i + 1;
    }
    assert(s.take(segs.len() - from) =~= s);
    out
}

/// The components of a path, as in `components`.
pub fn components_of(p: &Vec<char>) -> (r: Vec<Vec<char>>)
    ensures
        views(r@) == components(p@),
{
    let segs = split_on(p, '/');
    proof {
        lemma_split_nonempty(p@, '/');
    }
    let rooted = p.len() > 0 && p[0] == '/';
    let mut out: Vec<Vec<char>> = Vec::new();
    if rooted {
        let mut r: Vec<char> = Vec::new();
        r.push('/');
        out.push(r);
        assert(views(out@) =~= root_part(p@));
    } else {
        assert(views(out@) =~= root_part(p@));
    }
    let lead_dot = !rooted && segs[0].len() == 1 && segs[0][0] == '.';
    assert(lead_dot == (root_part(p@).len() == 0 && views(segs@)[0] == seq!['.'])) by {
        if views(segs@)[0] == seq!['.'] {
            assert(segs@[0]@.len() == 1);
        }
        if lead_dot {
            assert(segs@[0]@ =~= seq!['.']);
        }
    }
    let rest = if lead_dot {
        let mut d: Vec<char> = Vec::new();
        d.push('.');
        out.push(d);
        norm_segs_of(&segs, 1)
    } else {
        norm_segs_of(&segs, 0)
    };
    assert(views(segs@).skip(0) =~= views(segs@));
    assert(views(segs@).skip(1) =~= views(segs@).drop_first());
    let ghost before = views(out@);
    let mut i: usize = 0;
    while i < rest.len()
        invariant
            i <= rest.len(),
            views(out@) == before + views(rest@).take(i as int),
        decreases rest.len() - i,
    {
        let c = crate::text::slice_of(&rest[i], 0, rest[i].len());
        assert(c@ =~= rest@[i as int]@);
        let ghost bo = views(out@);
        out.push(c);
        assert(views(out@) =~= bo.push(c@));
        assert(views(rest@).take(i + 1) =~= views(rest@).take(i as int).push(c@));
        assert(views(out@) =~= before + views(rest@).take(i + 1));
        i = i + 1;
    }
    assert(views(rest@).take(rest.len() as int) =~= views(rest@));
    assert(views(out@) =~= components(p@));
    out
}

/// The number of components of a path.
pub fn depth_of(p: &Vec<char>) -> (d: usize)
    ensures
        d == depth(p@),
{
    components_of(p).len()
}

/// Does `p` start with `prefix`, component by component?
pub fn path_starts_with_exec(p: &Vec<char>, prefix: &Vec<char>) -> (b: bool)
    ensures
        b == path_starts_with(p@, prefix@),
{
    let cp = components_of(p);
    let cq = components_of(prefix);
    if cq.len() > cp.len() {
        return false;
    }
    let mut i: usize = 0;
    while i < cq.len()
        invariant
            cq.len() <= cp.len(),
            views(cp@) == components(p@),
            views(cq@) == components(prefix@),
            i <= cq.len(),
            forall|j: int| 0 <= j < i ==> views(cp@)[j] == views(cq@)[j],
        decreases cq.len() - i,
    {
        if !crate::text::chars_eq(&cp[i], &cq[i]) {
            assert(views(cp@)[i as int] == cp@[i as int]@);
            assert(views(cq@)[i as int] == cq@[i as int]@);
            assert(views(cp@).take(cq.len() as int)[i as int] != views(cq@)[i as int]);
            assert(views(cp@).take(cq.len() as int) != views(cq@));
            return false;
        }
        i = i + 1;
    }
    assert(views(cp@).take(cq.len() as int) =~= views(cq@));
    true
}

// ─────────────────────────────── the difference ───────────────────────────────

/// A path seen in a snapshot, and whether it is a directory.
pub struct SnapEntry {
    pub path: String,
    pub is_dir: bool,
}

pub open spec fn snap_view(e: SnapEntry) -> (Seq<char>, bool) {
    (e.path@, e.is_dir)
}

pub open spec fn snap_views(v: Seq<SnapEntry>) -> Seq<(Seq<char>, bool)> {
    v.map_values(|e: SnapEntry| snap_view(e))
}

/// Two paths are the same `Path`: their components are equal (so `/h/x/` and
/// `/h/x` are one path).
pub open spec fn same_path(a: Seq<char>, b: Seq<char>) -> bool {
    components(a) == components(b)
}

/// Some path of `ps` is the same `Path` as `p`.
pub open spec fn lists_path(ps: Seq<Seq<char>>, p: Seq<char>) -> bool {
    exists|t: int| 0 <= t < ps.len() && same_path(#[trigger] ps[t], p)
}

pub open spec fn snap_paths(v: Seq<(Seq<char>, bool)>) -> Seq<Seq<char>> {
    v.map_values(|e: (Seq<char>, bool)| e.0)
}

/// The paths of `after` that are new and outside the excluded directory: not
/// the same path as any of `before`, nor as an earlier entry of `after` (the
/// snapshots are sets of paths).
pub open spec fn new_entries(
    before: Seq<Seq<char>>,
    after: Seq<(Seq<char>, bool)>,
    exclude: Option<Seq<char>>,
) -> Seq<(Seq<char>, bool)>
    decreases after.len(),
{
    if after.len() == 0 {
        Seq::empty()
    } else {
        let e = after.last();
        let rest = new_entries(before, after.drop_last(), exclude);
        let excluded = match exclude {
            Some(x) => path_starts_with(e.0, x),
            None => false,
        };
        if !lists_path(before, e.0) && !lists_path(snap_paths(after.drop_last()), e.0) && !excluded {
            rest.push(e)
        } else {
            rest
        }
    }
}

/// `x` placed before the first entry that is deeper.
pub open spec fn insert_by_depth(t: Seq<(Seq<char>, bool)>, x: (Seq<char>, bool)) -> Seq<(Seq<char>, bool)>
    decreases t.len(),
{
    if t.len() == 0 {
        seq![x]
    } else if depth(x.0) < depth(t[0].0) {
        seq![x] + t
    } else {
        seq![t[0]] + insert_by_depth(t.drop_first(), x)
    }
}

/// A stable sort by depth (what `sort_by_key` with the component count gives).
pub open spec fn sort_by_depth(s: Seq<(Seq<char>, bool)>) -> Seq<(Seq<char>, bool)>
    decreases s.len(),
{
    if s.len() == 0 {
        s
    } else {
        insert_by_depth(sort_by_depth(s.drop_last()), s.last())
    }
}

pub open spec fn paths_where(s: Seq<(Seq<char>, bool)>, dir: bool) -> Seq<Seq<char>>
    decreases s.len(),
{
    if s.len() == 0 {
        Seq::empty()
    } else if s.last().1 == dir {
        paths_where(s.drop_last(), dir).push(s.last().0)
    } else {
        paths_where(s.drop_last(), dir)
    }
}

proof fn lemma_insert_by_depth_at(t: Seq<(Seq<char>, bool)>, x: (Seq<char>, bool), j: int)
    requires
        0 <= j <= t.len(),
        forall|k: int| 0 <= k < j ==> depth(#[trigger] t[k].0) <= depth(x.0),
        j == t.len() || depth(x.0) < depth(t[j].0),
    ensures
        insert_by_depth(t, x) == t.insert(j, x),
    decreases j,
{
    if t.len() == 0 {
        assert(t.insert(j, x) =~= seq![x]);
    } else if j == 0 {
        assert(t.insert(0, x) =~= seq![x] + t);
    } else {
        let t2 = t.drop_first();
        assert forall|k: int| 0 <= k < j - 1 implies depth(#[trigger] t2[k].0) <= depth(x.0) by {
            assert(t2[k] == t[k + 1]);
        }
        if j < t.len() {
            assert(t2[j - 1] == t[j]);
        }
        lemma_insert_by_depth_at(t2, x, j - 1);
        assert(depth(t[0].0) <= depth(x.0));
        assert(seq![t[0]] + t2.insert(j - 1, x) =~= t.insert(j, x));
    }
}

/// Paths tagged with their kind (`true` for a directory).
pub open spec fn kinded(ps: Seq<Seq<char>>, dir: bool) -> Seq<(Seq<char>, bool)> {
    ps.map_values(|p: Seq<char>| (p, dir))
}

/// Paths in non-decreasing depth, so a directory comes before what is under it.
pub open spec fn by_depth(ps: Seq<Seq<char>>) -> bool {
    forall|i: int, j: int| 0 <= i < j < ps.len() ==> depth(#[trigger] ps[i]) <= depth(#[trigger] ps[j])
}

pub open spec fn entries_by_depth(s: Seq<(Seq<char>, bool)>) -> bool {
    forall|i: int, j: int| 0 <= i < j < s.len() ==> depth(#[trigger] s[i].0) <= depth(#[trigger] s[j].0)
}

proof fn lemma_insert_by_depth_props(t: Seq<(Seq<char>, bool)>, x: (Seq<char>, bool))
    requires
        entries_by_depth(t),
    ensures
        entries_by_depth(insert_by_depth(t, x)),
        insert_by_depth(t, x).to_multiset() == t.to_multiset().insert(x),
    decreases t.len(),
{
    broadcast use vstd::seq_lib::group_to_multiset_ensures;
    broadcast use vstd::multiset::group_multiset_axioms;

    let r = insert_by_depth(t, x);
    if t.len() == 0 {
        assert(r =~= Seq::<(Seq<char>, bool)>::empty().push(x));
        vstd::seq_lib::to_multiset_build(Seq::<(Seq<char>, bool)>::empty(), x);
        assert(t.to_multiset() =~= vstd::multiset::Multiset::empty());
    } else if depth(x.0) < depth(t[0].0) {
        assert(r =~= t.insert(0, x));
        vstd::seq_lib::to_multiset_insert(t, 0, x);
        assert forall|i: int, j: int| 0 <= i < j < r.len() implies depth(#[trigger] r[i].0) <= depth(#[trigger] r[j].0) by {
            if i == 0 {
                assert(r[j] == t[j - 1]);
                if j - 1 > 0 {
                    assert(depth(t[0].0) <= depth(t[j - 1].0));
                }
            } else {
                assert(r[i] == t[i - 1] && r[j] == t[j - 1]);
            }
        }
    } else {
        let t2 = t.drop_first();
        assert(entries_by_depth(t2)) by {
            assert forall|i: int, j: int| 0 <= i < j < t2.len() implies depth(#[trigger] t2[i].0) <= depth(#[trigger] t2[j].0) by {
                assert(t2[i] == t[i + 1] && t2[j] == t[j + 1]);
            }
        }
        lemma_insert_by_depth_props(t2, x);
        let r2 = insert_by_depth(t2, x);
        assert(r =~= r2.insert(0, t[0]));
        vstd::seq_lib::to_multiset_insert(r2, 0, t[0]);
        assert(t =~= t2.insert(0, t[0]));
        vstd::seq_lib::to_multiset_insert(t2, 0, t[0]);
        assert(r.to_multiset() =~= t.to_multiset().insert(x));
        assert forall|i: int, j: int| 0 <= i < j < r.len() implies depth(#[trigger] r[i].0) <= depth(#[trigger] r[j].0) by {
            assert(r[j] == r2[j - 1]);
            if i == 0 {
                let e = r2[j - 1];
                vstd::seq_lib::to_multiset_contains(r2, e);
                assert(r2.contains(e));
                if e != x {
                    vstd::seq_lib::to_multiset_contains(t2, e);
                    let k = choose|k: int| 0 <= k < t2.len() && t2[k] == e;
                    assert(t2[k] == t[k + 1]);
                    assert(depth(t[0].0) <= depth(t[k + 1].0));
                }
            } else {
                assert(r[i] == r2[i - 1]);
            }
        }
    }
}

proof fn lemma_sort_by_depth_props(s: Seq<(Seq<char>, bool)>)
    ensures
        entries_by_depth(sort_by_depth(s)),
        sort_by_depth(s).to_multiset() == s.to_multiset(),
    decreases s.len(),
{
    broadcast use vstd::seq_lib::group_to_multiset_ensures;

    if s.len() > 0 {
        lemma_sort_by_depth_props(s.drop_last());
        lemma_insert_by_depth_props(sort_by_depth(s.drop_last()), s.last());
        vstd::seq_lib::to_multiset_build(s.drop_last(), s.last());
        assert(s.drop_last().push(s.last()) =~= s);
    }
}

proof fn lemma_paths_where_sub(t: Seq<(Seq<char>, bool)>, k: bool)
    ensures
        forall|i: int| #![trigger paths_where(t, k)[i]] 0 <= i < paths_where(t, k).len() ==> exists|j: int|
            0 <= j < t.len() && t[j].0 == paths_where(t, k)[i],
        entries_by_depth(t) ==> by_depth(paths_where(t, k)),
    decreases t.len(),
{
    if t.len() > 0 {
        let t2 = t.drop_last();
        lemma_paths_where_sub(t2, k);
        let w2 = paths_where(t2, k);
        let w = paths_where(t, k);
        assert forall|i: int| #![trigger w[i]] 0 <= i < w.len() implies exists|j: int| 0 <= j < t.len() && t[j].0 == w[i] by {
            if i < w2.len() {
                assert(w[i] == w2[i]);
                let j = choose|j: int| 0 <= j < t2.len() && t2[j].0 == w2[i];
                assert(t[j] == t2[j]);
            } else {
                assert(t[t.len() - 1] == t.last());
            }
        }
        if entries_by_depth(t) {
            assert(entries_by_depth(t2)) by {
                assert forall|i: int, j: int| 0 <= i < j < t2.len() implies depth(#[trigger] t2[i].0) <= depth(#[trigger] t2[j].0) by {
                    assert(t2[i] == t[i] && t2[j] == t[j]);
                }
            }
            assert forall|i: int, j: int| 0 <= i < j < w.len() implies depth(#[trigger] w[i]) <= depth(#[trigger] w[j]) by {
                if j < w2.len() {
                    assert(w[i] == w2[i] && w[j] == w2[j]);
                } else {
                    assert(w[i] == w2[i]);
                    let a = choose|a: int| 0 <= a < t2.len() && t2[a].0 == w2[i];
                    assert(t[a] == t2[a]);
                    assert(w[j] == t.last().0);
                    assert(t[t.len() - 1] == t.last());
                    assert(depth(t[a].0) <= depth(t[t.len() - 1].0));
                }
            }
        }
    }
}

proof fn lemma_paths_where_split(t: Seq<(Seq<char>, bool)>)
    ensures
        (kinded(paths_where(t, true), true) + kinded(paths_where(t, false), false)).to_multiset() == t.to_multiset(),
    decreases t.len(),
{
    broadcast use vstd::seq_lib::group_to_multiset_ensures;
    broadcast use vstd::multiset::group_multiset_axioms;

    if t.len() == 0 {
        assert(kinded(paths_where(t, true), true) + kinded(paths_where(t, false), false) =~= t);
    } else {
        let t2 = t.drop_last();
        let l = t.last();
        lemma_paths_where_split(t2);
        let a = kinded(paths_where(t2, true), true);
        let b = kinded(paths_where(t2, false), false);
        vstd::seq_lib::lemma_multiset_commutative(a, b);
        vstd::seq_lib::to_multiset_build(t2, l);
        assert(t2.push(l) =~= t);
        if l.1 {
            let a1 = kinded(paths_where(t, true), true);
            assert(a1 =~= a.push(l));
            assert(paths_where(t, false) == paths_where(t2, false));
            vstd::seq_lib::lemma_multiset_commutative(a1, b);
            vstd::seq_lib::to_multiset_build(a, l);
            assert((a1 + b).to_multiset() =~= t.to_multiset());
        } else {
            let b1 = kinded(paths_where(t, false), false);
            assert(b1 =~= b.push(l));
            assert(paths_where(t, true) == paths_where(t2, true));
            vstd::seq_lib::lemma_multiset_commutative(a, b1);
            vstd::seq_lib::to_multiset_build(b, l);
            assert((a + b1).to_multiset() =~= t.to_multiset());
        }
    }
}

/// `p` lies under the excluded directory, if there is one.
pub open spec fn excluded_by(ex: Option<Seq<char>>, p: Seq<char>) -> bool {
    match ex {
        Some(x) => path_starts_with(p, x),
        None => false,
    }
}

/// The new entries are the set of new paths: each comes from `after` and is
/// neither in `before` nor under the excluded directory; no two are the same
/// path; and every path of `after` that is neither in `before` nor excluded is
/// the same path as one of them.
pub proof fn lemma_new_entries_members(
    before: Seq<Seq<char>>,
    after: Seq<(Seq<char>, bool)>,
    ex: Option<Seq<char>>,
)
    ensures
        forall|i: int| #![trigger new_entries(before, after, ex)[i]] 0 <= i < new_entries(before, after, ex).len() ==> {
            let e = new_entries(before, after, ex)[i];
            &&& after.contains(e)
            &&& !lists_path(before, e.0)
            &&& !excluded_by(ex, e.0)
        },
        forall|i: int, j: int| 0 <= i < j < new_entries(before, after, ex).len() ==> !same_path(
            #[trigger] new_entries(before, after, ex)[i].0,
            #[trigger] new_entries(before, after, ex)[j].0,
        ),
        forall|t: int| 0 <= t < after.len() && !lists_path(before, (#[trigger] after[t]).0) && !excluded_by(ex, after[t].0)
            ==> lists_path(snap_paths(new_entries(before, after, ex)), after[t].0),
    decreases after.len(),
{
    let n = new_entries(before, after, ex);
    if after.len() == 0 {
        assert(n =~= Seq::<(Seq<char>, bool)>::empty());
    } else {
        let a2 = after.drop_last();
        let e = after.last();
        let n2 = new_entries(before, a2, ex);
        lemma_new_entries_members(before, a2, ex);
        assert(after[after.len() - 1] == e);
        let is_new = !lists_path(before, e.0) && !lists_path(snap_paths(a2), e.0) && !excluded_by(ex, e.0);
        if is_new {
            assert(n == n2.push(e));
        } else {
            assert(n == n2);
        }
        assert forall|i: int| #![trigger n[i]] 0 <= i < n.len() implies after.contains(n[i]) && !lists_path(before, n[i].0)
            && !excluded_by(ex, n[i].0) by {
            if i < n2.len() {
                assert(n[i] == n2[i]);
                let t = choose|t: int| 0 <= t < a2.len() && a2[t] == n2[i];
                assert(after[t] == a2[t]);
            }
        }
        assert forall|i: int, j: int| 0 <= i < j < n.len() implies !same_path(#[trigger] n[i].0, #[trigger] n[j].0) by {
            if j < n2.len() {
                assert(n[i] == n2[i] && n[j] == n2[j]);
            } else {
                assert(n[i] == n2[i]);
                assert(n[j] == e);
                let t = choose|t: int| 0 <= t < a2.len() && a2[t] == n2[i];
                if same_path(n[i].0, e.0) {
                    assert(snap_paths(a2)[t] == a2[t].0);
                    assert(same_path(snap_paths(a2)[t], e.0));
                }
            }
        }
        assert forall|t: int| 0 <= t < after.len() && !lists_path(before, (#[trigger] after[t]).0) && !excluded_by(ex, after[t].0)
            implies lists_path(snap_paths(n), after[t].0) by {
            let pn2 = snap_paths(n2);
            let pn = snap_paths(n);
            assert forall|u: int| 0 <= u < pn2.len() implies pn[u] == #[trigger] pn2[u] by {
                assert(n[u] == n2[u]);
            }
            if t < after.len() - 1 {
                assert(after[t] == a2[t]);
                let u = choose|u: int| 0 <= u < pn2.len() && same_path(#[trigger] pn2[u], after[t].0);
                assert(same_path(pn[u], after[t].0));
            } else if is_new {
                assert(pn[n2.len() as int] == e.0);
                assert(same_path(pn[n2.len() as int], e.0));
            } else {
                let w = choose|w: int| 0 <= w < snap_paths(a2).len() && same_path(#[trigger] snap_paths(a2)[w], e.0);
                let f = a2[w];
                assert(snap_paths(a2)[w] == f.0);
                assert(after[w] == f);
                assert(!lists_path(before, f.0)) by {
                    if lists_path(before, f.0) {
                        let b = choose|b: int| 0 <= b < before.len() && same_path(#[trigger] before[b], f.0);
                        assert(same_path(before[b], e.0));
                    }
                }
                assert(excluded_by(ex, f.0) == excluded_by(ex, e.0));
                let u = choose|u: int| 0 <= u < pn2.len() && same_path(#[trigger] pn2[u], a2[w].0);
                assert(same_path(pn[u], e.0));
            }
        }
    }
}

/// Each list holds the paths of the entries of its kind, in order.
pub proof fn lemma_paths_where_is_filter(s: Seq<(Seq<char>, bool)>, dir: bool)
    ensures
        paths_where(s, dir) == s.filter(|e: (Seq<char>, bool)| e.1 == dir).map_values(|e: (Seq<char>, bool)| e.0),
    decreases s.len(),
{
    reveal(Seq::filter);
    let pr = |e: (Seq<char>, bool)| e.1 == dir;
    let f = |e: (Seq<char>, bool)| e.0;
    if s.len() == 0 {
        assert(s.filter(pr).map_values(f) =~= Seq::<Seq<char>>::empty());
    } else {
        lemma_paths_where_is_filter(s.drop_last(), dir);
        let sub = s.drop_last().filter(pr);
        if pr(s.last()) {
            assert(s.filter(pr) == sub.push(s.last()));
            assert(sub.push(s.last()).map_values(f) =~= sub.map_values(f).push(s.last().0));
        } else {
            assert(s.filter(pr) == sub);
        }
    }
}

/// What `diff_snapshots` gives for the new entries `n` (`new_entries`): the
/// directories and the files, tagged by kind, are together a permutation of `n`
/// (each directory in the first list, each other path in the second); and each
/// list is in non-decreasing depth, so a directory comes before what is under it.
pub proof fn lemma_diff_snapshots_law(n: Seq<(Seq<char>, bool)>)
    ensures
        (kinded(paths_where(sort_by_depth(n), true), true) + kinded(paths_where(sort_by_depth(n), false), false)).to_multiset()
            == n.to_multiset(),
        by_depth(paths_where(sort_by_depth(n), true)),
        by_depth(paths_where(sort_by_depth(n), false)),
{
    lemma_sort_by_depth_props(n);
    lemma_paths_where_split(sort_by_depth(n));
    lemma_paths_where_sub(sort_by_depth(n), true);
    lemma_paths_where_sub(sort_by_depth(n), false);
}

/// Are two lists of components equal?
fn segs_eq(a: &Vec<Vec<char>>, b: &Vec<Vec<char>>) -> (r: bool)
    ensures
        r == (views(a@) == views(b@)),
{
    if a.len() != b.len() {
        assert(views(a@).len() != views(b@).len());
        return false;
    }
    let mut i: usize = 0;
    while i < a.len()
        invariant
            a.len() == b.len(),
            i <= a.len(),
            forall|j: int| 0 <= j < i ==> views(a@)[j] == views(b@)[j],
        decreases a.len() - i,
    {
        if !crate::text::chars_eq(&a[i], &b[i]) {
            assert(views(a@)[i as int] != views(b@)[i as int]);
            return false;
        }
        i = i + 1;
    }
    assert(views(a@) =~= views(b@));
    true
}

/// Is `c` (the components of a path) among `cs`, the first `n` of them?
fn lists_comps(cs: &Vec<Vec<Vec<char>>>, n: usize, c: &Vec<Vec<char>>) -> (r: bool)
    requires
        n <= cs.len(),
    ensures
        r == exists|t: int| 0 <= t < n && views(#[trigger] cs@[t]@) == views(c@),
{
    let mut k: usize = 0;
    while k < n
        invariant
            n <= cs.len(),
            k <= n,
            forall|t: int| 0 <= t < k ==> views(#[trigger] cs@[t]@) != views(c@),
        decreases n - k,
    {
        if segs_eq(&cs[k], c) {
            return true;
        }
        k = k + 1;
    }
    false
}

/// The directories and the files that appeared between two snapshots, each list
/// outermost first, leaving out those under `exclude_prefix`. Paths are compared
/// as paths, component by component (`/h/x/` is `/h/x`); a path that `after`
/// lists again is taken once.
pub fn diff_snapshots(
    before: &Vec<String>,
    after: &Vec<SnapEntry>,
    exclude_prefix: Option<&str>,
) -> (r: (Vec<String>, Vec<String>))
    ensures
        str_views(r.0@) == paths_where(
            sort_by_depth(new_entries(str_views(before@), snap_views(after@), match exclude_prefix {
                Some(x) => Some(x@),
                None => None,
            })),
            true,
        ),
        str_views(r.1@) == paths_where(
            sort_by_depth(new_entries(str_views(before@), snap_views(after@), match exclude_prefix {
                Some(x) => Some(x@),
                None => None,
            })),
            false,
        ),
{
    let ghost ex = match exclude_prefix {
        Some(x) => Some(x@),
        None => None,
    };
    let ghost bv = str_views(before@);
    let ghost av = snap_views(after@);
    let excl: Option<Vec<char>> = match exclude_prefix {
        Some(x) => Some(chars_of(x)),
        None => None,
    };
    let mut bcomps: Vec<Vec<Vec<char>>> = Vec::new();
    let mut k: usize = 0;
    while k < before.len()
        invariant
            k <= before.len(),
            bv == str_views(before@),
            bcomps.len() == k,
            forall|t: int| 0 <= t < k ==> views(#[trigger] bcomps@[t]@) == components(bv[t]),
        decreases before.len() - k,
    {
        let b = chars_of(before[k].as_str());
        assert(bv[k as int] == b@);
        bcomps.push(components_of(&b));
        k = k + 1;
    }
    let mut acomps: Vec<Vec<Vec<char>>> = Vec::new();
    let mut sorted: Vec<(Vec<char>, bool)> = Vec::new();
    let mut i: usize = 0;
    assert(av.take(0) =~= Seq::<(Seq<char>, bool)>::empty());
    assert(sorted@.map_values(|e: (Vec<char>, bool)| (e.0@, e.1)) =~= Seq::<(Seq<char>, bool)>::empty());
    while i < after.len()
        invariant
            i <= after.len(),
            bv == str_views(before@),
            av == snap_views(after@),
            bcomps.len() == before.len(),
            forall|t: int| 0 <= t < before.len() ==> views(#[trigger] bcomps@[t]@) == components(bv[t]),
            acomps.len() == i,
            forall|t: int| 0 <= t < i ==> views(#[trigger] acomps@[t]@) == components(av[t].0),
            match excl {
                Some(x) => ex == Some(x@),
                None => ex == None::<Seq<char>>,
            },
            sorted@.map_values(|e: (Vec<char>, bool)| (e.0@, e.1)) == sort_by_depth(new_entries(bv, av.take(i as int), ex)),
        decreases after.len() - i,
    {
        assert(av.take(i + 1).drop_last() =~= av.take(i as int));
        assert(av.take(i + 1).last() == snap_view(after@[i as int]));
        let p = chars_of(after[i].path.as_str());
        assert(av[i as int].0 == p@);
        let cp = components_of(&p);
        let seen_before = lists_comps(&bcomps, before.len(), &cp);
        let seen_after = lists_comps(&acomps, i, &cp);
        let seen = seen_before || seen_after;
        proof {
            if seen_before {
                let t = choose|t: int| 0 <= t < before.len() && views(#[trigger] bcomps@[t]@) == views(cp@);
                assert(same_path(bv[t], p@));
            }
            if lists_path(bv, p@) {
                let t = choose|t: int| 0 <= t < bv.len() && same_path(#[trigger] bv[t], p@);
                assert(views(bcomps@[t]@) == views(cp@));
            }
            let pa = snap_paths(av.take(i as int));
            assert(av.take(i + 1).drop_last() =~= av.take(i as int));
            if seen_after {
                let t = choose|t: int| 0 <= t < i && views(#[trigger] acomps@[t]@) == views(cp@);
                assert(pa[t] == av[t].0);
                assert(same_path(pa[t], p@));
            }
            if lists_path(pa, p@) {
                let t = choose|t: int| 0 <= t < pa.len() && same_path(#[trigger] pa[t], p@);
                assert(pa[t] == av[t].0);
                assert(views(acomps@[t]@) == views(cp@));
            }
            assert(seen == (lists_path(bv, p@) || lists_path(snap_paths(av.take(i + 1).drop_last()), p@)));
        }
        let excluded = match &excl {
            Some(x) => path_starts_with_exec(&p, x),
            None => false,
        };
        let ghost ne0 = new_entries(bv, av.take(i as int), ex);
        let ghost xe = (p@, after@[i as int].is_dir);
        assert(xe == av.take(i + 1).last());
        assert(excluded == match ex {
            Some(x) => path_starts_with(p@, x),
            None => false,
        });
        if !seen && !excluded {
            assert(new_entries(bv, av.take(i + 1), ex) == ne0.push(xe));
            assert(ne0.push(xe).drop_last() =~= ne0);
            assert(sort_by_depth(ne0.push(xe)) == insert_by_depth(sort_by_depth(ne0), xe));
        } else {
            assert(new_entries(bv, av.take(i + 1), ex) == ne0);
        }
        if !seen && !excluded {
            let ghost t = sorted@.map_values(|e: (Vec<char>, bool)| (e.0@, e.1));
            let ghost x = (p@, after@[i as int].is_dir);
            let d = depth_of(&p);
            let mut j: usize = 0;
            while j < sorted.len() && depth_of(&sorted[j].0) <= d
                invariant
                    j <= sorted.len(),
                    t == sorted@.map_values(|e: (Vec<char>, bool)| (e.0@, e.1)),
                    d == depth(x.0),
                    forall|q: int| 0 <= q < j ==> depth(#[trigger] t[q].0) <= depth(x.0),
                decreases sorted.len() - j,
            {
                j = j + 1;
            }
            proof {
                lemma_insert_by_depth_at(t, x, j as int);
            }
            sorted.insert(j, (p, after[i].is_dir));
            assert(sorted@.map_values(|e: (Vec<char>, bool)| (e.0@, e.1)) =~= t.insert(j as int, x));
        }
        acomps.push(cp);
        i = i + 1;
    }
    assert(av.take(after.len() as int) =~= av);
    let ghost s = sorted@.map_values(|e: (Vec<char>, bool)| (e.0@, e.1));
    let mut dirs: Vec<String> = Vec::new();
    let mut files: Vec<String> = Vec::new();
    let mut m: usize = 0;
    assert(s.take(0) =~= Seq::<(Seq<char>, bool)>::empty());
    assert(str_views(dirs@) =~= Seq::<Seq<char>>::empty());
    assert(str_views(files@) =~= Seq::<Seq<char>>::empty());
    while m < sorted.len()
        invariant
            m <= sorted.len(),
            s == sorted@.map_values(|e: (Vec<char>, bool)| (e.0@, e.1)),
            str_views(dirs@) == paths_where(s.take(m as int), true),
            str_views(files@) == paths_where(s.take(m as int), false),
        decreases sorted.len() - m,
    {
        assert(s.take(m + 1).drop_last() =~= s.take(m as int));
        assert(s.take(m + 1).last() == s[m as int]);
        let path = crate::text::string_of(&sorted[m].0);
        if sorted[m].1 {
            let ghost b = str_views(dirs@);
            dirs.push(path);
            assert(str_views(dirs@) =~= b.push(s[m as int].0));
        } else {
            let ghost b = str_views(files@);
            files.push(path);
            assert(str_views(files@) =~= b.push(s[m as int].0));
        }
        m = m + 1;
    }
    assert(s.take(sorted.len() as int) =~= s);
    (dirs, files)
}

} // verus!
