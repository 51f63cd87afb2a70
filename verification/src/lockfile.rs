//! The lock file `~/.config/vex/lock.vex`: one `name=version` line per
//! installed package, kept sorted.

use vstd::prelude::*;
use crate::text::{
    chars_eq, chars_of, join, join_of, lines, lines_of, line_safe, lemma_lines_join, none_contain,
    slice_of, sort_seq, sort_strs, sorted, string_of, strip_cr, views, lemma_sort_seq, push_all,
};

verus! {

// ─────────────────────────────── the text format ──────────────────────────────

/// Position of the first occurrence of `c`.
pub open spec fn find_char(s: Seq<char>, c: char) -> Option<int>
    decreases s.len(),
{
    if s.len() == 0 {
        None
    } else if s[0] == c {
        Some(0)
    } else {
        match find_char(s.drop_first(), c) {
            Some(i) => Some(i + 1),
            None => None,
        }
    }
}

pub proof fn lemma_find_char(s: Seq<char>, c: char, i: int)
    requires
        0 <= i <= s.len(),
        forall|j: int| 0 <= j < i ==> s[j] != c,
        i == s.len() || s[i] == c,
    ensures
        find_char(s, c) == (if i == s.len() {
            None::<int>
        } else {
            Some(i)
        }),
    decreases i,
{
    if s.len() > 0 && i > 0 {
        lemma_find_char(s.drop_first(), c, i - 1);
    }
}

/// One line of the lock file: the name before the first `=`, the version after it;
/// a line with no `=` says nothing.
pub open spec fn read_line(m: Map<Seq<char>, Seq<char>>, l: Seq<char>) -> Map<
    Seq<char>,
    Seq<char>,
> {
    match find_char(l, '=') {
        Some(i) => m.insert(l.take(i), l.skip(i + 1)),
        None => m,
    }
}

pub open spec fn read_lines(ls: Seq<Seq<char>>) -> Map<Seq<char>, Seq<char>>
    decreases ls.len(),
{
    if ls.len() == 0 {
        Map::empty()
    } else {
        read_line(read_lines(ls.drop_last()), ls.last())
    }
}

/// The meaning of a lock file's text: later lines win over earlier ones.
pub open spec fn spec_read(content: Seq<char>) -> Map<Seq<char>, Seq<char>> {
    read_lines(lines(content))
}

/// The line written for one package.
pub open spec fn entry_line(k: Seq<char>, v: Seq<char>) -> Seq<char> {
    k + seq!['='] + v
}

/// `ks` lists each name of `m` exactly once.
pub open spec fn lists_keys(ks: Seq<Seq<char>>, m: Map<Seq<char>, Seq<char>>) -> bool {
    &&& ks.no_duplicates()
    &&& forall|k: Seq<char>| #[trigger] m.contains_key(k) <==> ks.contains(k)
}

/// The text written for `m` when its names are listed as `ks`: the lines, sorted,
/// one per line, no newline at the end.
pub open spec fn text_of(ks: Seq<Seq<char>>, m: Map<Seq<char>, Seq<char>>) -> Seq<char> {
    join(sort_seq(ks.map_values(|k: Seq<char>| entry_line(k, m[k]))), seq!['\n'])
}

/// `text` is what writing `m` produces.
pub open spec fn is_lock_text(text: Seq<char>, m: Map<Seq<char>, Seq<char>>) -> bool {
    exists|ks: Seq<Seq<char>>| lists_keys(ks, m) && text == text_of(ks, m)
}

/// A table that the text format holds exactly: names without `=` or newline,
/// versions without newline and not ending in a carriage return.
pub open spec fn lock_safe(m: Map<Seq<char>, Seq<char>>) -> bool {
    forall|k: Seq<char>|
        #[trigger] m.contains_key(k) ==> {
            &&& !k.contains('=')
            &&& !k.contains('\n')
            &&& !m[k].contains('\n')
            &&& strip_cr(m[k]) == m[k]
        }
}

// ──────────────────────────────── read after write ─────────────────────────────

/// The line is one of `m`'s entries as `read_line` sees it.
pub open spec fn is_entry_of(l: Seq<char>, m: Map<Seq<char>, Seq<char>>) -> bool {
    match find_char(l, '=') {
        Some(p) => m.contains_key(l.take(p)) && l.skip(p + 1) == m[l.take(p)],
        None => false,
    }
}

proof fn lemma_entry_line(k: Seq<char>, v: Seq<char>)
    requires
        !k.contains('='),
    ensures
        find_char(entry_line(k, v), '=') == Some(k.len() as int),
        entry_line(k, v).take(k.len() as int) == k,
        entry_line(k, v).skip(k.len() as int + 1) == v,
{
    let l = entry_line(k, v);
    assert forall|j: int| 0 <= j < k.len() implies l[j] != '=' by {
        assert(l[j] == k[j]);
        if k[j] == '=' {
            assert(k.contains('='));
        }
    }
    lemma_find_char(l, '=', k.len() as int);
    assert(l.take(k.len() as int) =~= k);
    assert(l.skip(k.len() as int + 1) =~= v);
}

proof fn lemma_read_entries(ls: Seq<Seq<char>>, m: Map<Seq<char>, Seq<char>>)
    requires
        forall|i: int| 0 <= i < ls.len() ==> is_entry_of(#[trigger] ls[i], m),
    ensures
        forall|k: Seq<char>| #[trigger]
            read_lines(ls).contains_key(k) ==> m.contains_key(k) && read_lines(ls)[k] == m[k],
        forall|i: int|
            0 <= i < ls.len() ==> read_lines(ls).contains_key(
                (#[trigger] ls[i]).take(find_char(ls[i], '=')->0),
            ),
    decreases ls.len(),
{
    if ls.len() > 0 {
        let l2 = ls.drop_last();
        assert forall|i: int| 0 <= i < l2.len() implies is_entry_of(#[trigger] l2[i], m) by {
            assert(l2[i] == ls[i]);
        }
        lemma_read_entries(l2, m);
        assert(is_entry_of(ls[ls.len() - 1], m));
        let l = ls.last();
        let p = find_char(l, '=')->0;
        assert(read_lines(ls) == read_lines(l2).insert(l.take(p), l.skip(p + 1)));
        assert forall|k: Seq<char>| #[trigger] read_lines(ls).contains_key(k) implies m.contains_key(k) && read_lines(ls)[k] == m[k] by {
            if k != l.take(p) {
                assert(read_lines(l2).contains_key(k));
            }
        }
        assert forall|i: int| 0 <= i < ls.len() implies read_lines(ls).contains_key(
            (#[trigger] ls[i]).take(find_char(ls[i], '=')->0),
        ) by {
            if i < ls.len() - 1 {
                assert(ls[i] == l2[i]);
            }
        }
    }
}

/// Read after write: reading the text that writing a table produces gives the
/// table back, when the text format can hold it (`lock_safe`).
pub proof fn lemma_read_lock_text(text: Seq<char>, m: Map<Seq<char>, Seq<char>>)
    requires
        is_lock_text(text, m),
        lock_safe(m),
    ensures
        spec_read(text) == m,
{
    broadcast use vstd::seq_lib::group_to_multiset_ensures;

    let ks = choose|ks: Seq<Seq<char>>| lists_keys(ks, m) && text == text_of(ks, m);
    let e = ks.map_values(|k: Seq<char>| entry_line(k, m[k]));
    let s = sort_seq(e);
    lemma_sort_seq(e);
    assert forall|i: int| 0 <= i < s.len() implies exists|j: int|
        0 <= j < ks.len() && #[trigger] s[i] == entry_line(ks[j], m[ks[j]]) by {
        vstd::seq_lib::to_multiset_contains(s, s[i]);
        vstd::seq_lib::to_multiset_contains(e, s[i]);
        let j = choose|j: int| 0 <= j < e.len() && e[j] == s[i];
        assert(e[j] == entry_line(ks[j], m[ks[j]]));
    }
    assert forall|i: int| 0 <= i < s.len() implies is_entry_of(#[trigger] s[i], m) && !s[i].contains('\n') && strip_cr(s[i]) == s[i] && s[i].len() > 0 by {
        let j = choose|j: int| 0 <= j < ks.len() && s[i] == entry_line(ks[j], m[ks[j]]);
        let k = ks[j];
        assert(ks.contains(k));
        assert(m.contains_key(k));
        lemma_entry_line(k, m[k]);
        let l = s[i];
        assert(l.len() == k.len() + 1 + m[k].len());
        if l.contains('\n') {
            let p = choose|p: int| 0 <= p < l.len() && l[p] == '\n';
            if p < k.len() {
                assert(k[p] == '\n');
                assert(k.contains('\n'));
            } else if p == k.len() {
            } else {
                assert(m[k][p - k.len() - 1] == '\n');
                assert(m[k].contains('\n'));
            }
        }
        if m[k].len() > 0 {
            assert(l.last() == m[k].last());
            assert(strip_cr(m[k]) == m[k]);
        } else {
            assert(l.last() == '=');
        }
    }
    assert(line_safe(s));
    lemma_lines_join(s);
    assert(lines(text) == s);
    lemma_read_entries(s, m);
    assert forall|k: Seq<char>| m.contains_key(k) implies #[trigger] read_lines(s).contains_key(k) by {
        assert(ks.contains(k));
        let j = choose|j: int| 0 <= j < ks.len() && ks[j] == k;
        assert(e[j] == entry_line(k, m[k]));
        vstd::seq_lib::to_multiset_contains(e, e[j]);
        vstd::seq_lib::to_multiset_contains(s, e[j]);
        let i = choose|i: int| 0 <= i < s.len() && s[i] == e[j];
        lemma_entry_line(k, m[k]);
        assert(s[i].take(find_char(s[i], '=')->0) == k);
    }
    assert(read_lines(s) =~= m);
}

/// Recording a version and reading the lock file back gives that version, and
/// leaves every other package as it was.
pub proof fn lemma_update_then_read(content: Seq<char>, pkg: Seq<char>, version: Seq<char>, text: Seq<char>)
    requires
        is_lock_text(text, spec_read(content).insert(pkg, version)),
        lock_safe(spec_read(content).insert(pkg, version)),
    ensures
        spec_read(text).contains_key(pkg),
        spec_read(text)[pkg] == version,
        forall|k: Seq<char>| k != pkg ==> #[trigger] spec_read(text).contains_key(k) == spec_read(content).contains_key(k),
        forall|k: Seq<char>| k != pkg && spec_read(content).contains_key(k) ==> #[trigger] spec_read(text)[k] == spec_read(content)[k],
{
    lemma_read_lock_text(text, spec_read(content).insert(pkg, version));
}

/// Removing a package and reading the lock file back no longer lists it, and
/// leaves every other package as it was.
pub proof fn lemma_remove_then_read(content: Seq<char>, pkg: Seq<char>, text: Seq<char>)
    requires
        is_lock_text(text, spec_read(content).remove(pkg)),
        lock_safe(spec_read(content).remove(pkg)),
    ensures
        !spec_read(text).contains_key(pkg),
        spec_read(text) == spec_read(content).remove(pkg),
{
    lemma_read_lock_text(text, spec_read(content).remove(pkg));
}

/// The lines written for the names `ks` of `m`, in that order.
pub open spec fn entry_lines_of(ks: Seq<Seq<char>>, m: Map<Seq<char>, Seq<char>>) -> Seq<Seq<char>> {
    ks.map_values(|k: Seq<char>| entry_line(k, m[k]))
}

proof fn lemma_entry_lines_permutation(a: Seq<Seq<char>>, b: Seq<Seq<char>>, m: Map<Seq<char>, Seq<char>>)
    requires
        a.to_multiset() == b.to_multiset(),
    ensures
        entry_lines_of(a, m).to_multiset() == entry_lines_of(b, m).to_multiset(),
    decreases a.len(),
{
    broadcast use vstd::seq_lib::group_to_multiset_ensures;
    broadcast use vstd::multiset::group_multiset_axioms;

    if a.len() == 0 {
        vstd::seq_lib::to_multiset_len(a);
        vstd::seq_lib::to_multiset_len(b);
        assert(entry_lines_of(a, m) =~= Seq::<Seq<char>>::empty());
        assert(entry_lines_of(b, m) =~= Seq::<Seq<char>>::empty());
    } else {
        let x = a.last();
        let a2 = a.drop_last();
        assert(a2.push(x) =~= a);
        vstd::seq_lib::to_multiset_build(a2, x);
        assert(a.to_multiset().count(x) > 0);
        vstd::seq_lib::to_multiset_contains(b, x);
        let j = choose|j: int| 0 <= j < b.len() && b[j] == x;
        let b2 = b.remove(j);
        vstd::seq_lib::to_multiset_remove(b, j);
        assert(b2.to_multiset() =~= a2.to_multiset());
        lemma_entry_lines_permutation(a2, b2, m);
        let l = entry_line(x, m[x]);
        assert(entry_lines_of(a, m) =~= entry_lines_of(a2, m).push(l));
        vstd::seq_lib::to_multiset_build(entry_lines_of(a2, m), l);
        assert(entry_lines_of(b, m) =~= entry_lines_of(b2, m).insert(j, l));
        vstd::seq_lib::to_multiset_insert(entry_lines_of(b2, m), j, l);
    }
}

/// Writing is deterministic: every text that writing a table can produce is the
/// same, whatever order the table lists its names in (the lines are sorted).
pub proof fn lemma_lock_text_unique(t1: Seq<char>, t2: Seq<char>, m: Map<Seq<char>, Seq<char>>)
    requires
        is_lock_text(t1, m),
        is_lock_text(t2, m),
    ensures
        t1 == t2,
{
    broadcast use vstd::seq_lib::group_to_multiset_ensures;

    let k1 = choose|ks: Seq<Seq<char>>| lists_keys(ks, m) && t1 == text_of(ks, m);
    let k2 = choose|ks: Seq<Seq<char>>| lists_keys(ks, m) && t2 == text_of(ks, m);
    k1.lemma_multiset_has_no_duplicates();
    k2.lemma_multiset_has_no_duplicates();
    assert(k1.to_multiset() =~= k2.to_multiset()) by {
        assert forall|x: Seq<char>| k1.to_multiset().count(x) == k2.to_multiset().count(x) by {
            vstd::seq_lib::to_multiset_contains(k1, x);
            vstd::seq_lib::to_multiset_contains(k2, x);
            assert(k1.contains(x) == m.contains_key(x));
            assert(k2.contains(x) == m.contains_key(x));
        }
    }
    lemma_entry_lines_permutation(k1, k2, m);
    let e1 = entry_lines_of(k1, m);
    let e2 = entry_lines_of(k2, m);
    lemma_sort_seq(e1);
    lemma_sort_seq(e2);
    crate::text::lemma_sorted_unique(sort_seq(e1), sort_seq(e2));
}

// ─────────────────────────────────── the table ─────────────────────────────────

/// The installed packages and their versions.
pub struct LockTable {
    keys: Vec<Vec<char>>,
    vals: Vec<Vec<char>>,
}

impl View for LockTable {
    type V = Map<Seq<char>, Seq<char>>;

    closed spec fn view(&self) -> Map<Seq<char>, Seq<char>> {
        Map::new(
            |k: Seq<char>| views(self.keys@).contains(k),
            |k: Seq<char>| views(self.vals@)[views(self.keys@).index_of(k)],
        )
    }
}

impl LockTable {
    pub closed spec fn key_views(&self) -> Seq<Seq<char>> {
        views(self.keys@)
    }

    pub closed spec fn val_views(&self) -> Seq<Seq<char>> {
        views(self.vals@)
    }

    /// Each name once, one version per name.
    pub closed spec fn wf(&self) -> bool {
        &&& self.keys.len() == self.vals.len()
        &&& self.key_views().no_duplicates()
    }

    /// The empty table.
    pub fn new() -> (t: LockTable)
        ensures
            t.wf(),
            t@ == Map::<Seq<char>, Seq<char>>::empty(),
    {
        let t = LockTable { keys: Vec::new(), vals: Vec::new() };
        assert(t@ =~= Map::<Seq<char>, Seq<char>>::empty());
        t
    }

    fn find(&self, key: &Vec<char>) -> (r: Option<usize>)
        requires
            self.wf(),
        ensures
            match r {
                Some(i) => i < self.keys.len() && self.key_views()[i as int] == key@,
                None => !self.key_views().contains(key@),
            },
    {
        let mut i: usize = 0;
        while i < self.keys.len()
            invariant
                i <= self.keys.len(),
                forall|j: int| 0 <= j < i ==> self.key_views()[j] != key@,
            decreases self.keys.len() - i,
        {
            if chars_eq(&self.keys[i], key) {
                return Some(i);
            }
            i = i + 1;
        }
        None
    }

    proof fn lemma_index(&self, i: int)
        requires
            self.wf(),
            0 <= i < self.keys.len(),
        ensures
            self@.contains_key(self.key_views()[i]),
            self@[self.key_views()[i]] == self.val_views()[i],
    {
        let k = self.key_views()[i];
        assert(self.key_views().contains(k));
        let j = self.key_views().index_of(k);
        assert(j == i);
    }

    /// Sets the version of `key` (as `HashMap::insert` does).
    pub fn insert(&mut self, key: Vec<char>, val: Vec<char>)
        requires
            old(self).wf(),
        ensures
            final(self).wf(),
            final(self)@ == old(self)@.insert(key@, val@),
    {
        let ghost old_keys = self.key_views();
        let ghost old_vals = self.val_views();
        let ghost kv = key@;
        let ghost vv = val@;
        match self.find(&key) {
            Some(i) => {
                let ghost i_int = i as int;
                self.vals.set(i, val);
                assert(self.key_views() == old_keys);
                assert(self.val_views() =~= old_vals.update(i_int, vv));
                assert forall|k: Seq<char>| #[trigger] self@.contains_key(k) == old(self)@.insert(
                    kv,
                    vv,
                ).contains_key(k) by {}
                assert forall|k: Seq<char>| self@.contains_key(k) implies #[trigger] self@[k]
                    == old(self)@.insert(kv, vv)[k] by {
                    let j = old_keys.index_of(k);
                    assert(0 <= j < old_keys.len() && old_keys[j] == k);
                    if k == kv {
                        assert(j == i_int);
                    } else {
                        assert(j != i_int);
                    }
                }
                assert(self@ =~= old(self)@.insert(kv, vv));
            },
            None => {
                self.keys.push(key);
                self.vals.push(val);
                let ghost n = old_keys.len() as int;
                assert(self.key_views() =~= old_keys.push(kv));
                assert(self.val_views() =~= old_vals.push(vv));
                assert forall|a: int, b: int|
                    0 <= a < self.key_views().len() && 0 <= b < self.key_views().len() && a
                        != b implies self.key_views()[a] != self.key_views()[b] by {
                    if a == n {
                        assert(self.key_views()[b] == old_keys[b]);
                        if old_keys[b] == kv {
                            assert(old_keys.contains(kv));
                        }
                    } else if b == n {
                        assert(self.key_views()[a] == old_keys[a]);
                        if old_keys[a] == kv {
                            assert(old_keys.contains(kv));
                        }
                    } else {
                        assert(self.key_views()[a] == old_keys[a]);
                        assert(self.key_views()[b] == old_keys[b]);
                    }
                }
                assert forall|k: Seq<char>| #[trigger] self@.contains_key(k) == old(self)@.insert(
                    kv,
                    vv,
                ).contains_key(k) by {
                    if old_keys.contains(k) {
                        let j = old_keys.index_of(k);
                        assert(self.key_views()[j] == k);
                        assert(self.key_views().contains(k));
                    }
                    if k == kv {
                        assert(self.key_views()[n] == kv);
                        assert(self.key_views().contains(k));
                    }
                    if self.key_views().contains(k) && k != kv {
                        let j = self.key_views().index_of(k);
                        assert(j < n);
                        assert(old_keys[j] == k);
                        assert(old_keys.contains(k));
                    }
                }
                assert forall|k: Seq<char>| self@.contains_key(k) implies #[trigger] self@[k]
                    == old(self)@.insert(kv, vv)[k] by {
                    let j = self.key_views().index_of(k);
                    if k == kv {
                        assert(self.key_views()[n] == kv);
                        assert(j == n);
                    } else {
                        assert(j != n);
                        let j0 = old_keys.index_of(k);
                        assert(old_keys[j] == k);
                        assert(j0 == j);
                    }
                }
                assert(self@ =~= old(self)@.insert(kv, vv));
            },
        }
    }

    /// Drops `key` and its version, if present (as `HashMap::remove` does).
    pub fn remove(&mut self, key: &Vec<char>)
        requires
            old(self).wf(),
        ensures
            final(self).wf(),
            final(self)@ == old(self)@.remove(key@),
    {
        let ghost old_keys = self.key_views();
        let ghost old_vals = self.val_views();
        let ghost kv = key@;
        match self.find(key) {
            Some(i) => {
                let ghost ii = i as int;
                self.keys.remove(i);
                self.vals.remove(i);
                assert(self.key_views() =~= old_keys.remove(ii));
                assert(self.val_views() =~= old_vals.remove(ii));
                let ghost nk = self.key_views();
                assert forall|a: int, b: int| 0 <= a < nk.len() && 0 <= b < nk.len() && a != b implies nk[a] != nk[b] by {
                    let oa = if a < ii { a } else { a + 1 };
                    let ob = if b < ii { b } else { b + 1 };
                    assert(nk[a] == old_keys[oa]);
                    assert(nk[b] == old_keys[ob]);
                }
                assert forall|k: Seq<char>| #[trigger] self@.contains_key(k) == old(self)@.remove(kv).contains_key(k) by {
                    if nk.contains(k) {
                        let j = choose|j: int| 0 <= j < nk.len() && nk[j] == k;
                        let oj = if j < ii { j } else { j + 1 };
                        assert(old_keys[oj] == k);
                        assert(old_keys.contains(k));
                        assert(oj != ii);
                    }
                    if old_keys.contains(k) && k != kv {
                        let oj = choose|j: int| 0 <= j < old_keys.len() && old_keys[j] == k;
                        assert(oj != ii);
                        let j = if oj < ii { oj } else { oj - 1 };
                        assert(nk[j] == k);
                    }
                }
                assert forall|k: Seq<char>| self@.contains_key(k) implies #[trigger] self@[k] == old(self)@.remove(kv)[k] by {
                    let j = nk.index_of(k);
                    let oj = if j < ii { j } else { j + 1 };
                    assert(old_keys[oj] == k);
                    let j0 = old_keys.index_of(k);
                    assert(j0 == oj);
                }
                assert(self@ =~= old(self)@.remove(kv));
            },
            None => {
                assert(self@ =~= old(self)@.remove(kv));
            },
        }
    }
}

// ───────────────────────────────── read and write ─────────────────────────────

/// The path of the lock file under the home directory.
pub fn lock_path(home: &str) -> (p: String)
    ensures
        p@ == home@ + "/.config/vex/lock.vex"@,
{
    let mut v = chars_of(home);
    let tail = chars_of("/.config/vex/lock.vex");
    push_all(&mut v, &tail);
    string_of(&v)
}

fn find_eq(l: &Vec<char>) -> (r: Option<usize>)
    ensures
        match r {
            Some(i) => find_char(l@, '=') == Some(i as int) && i < l.len(),
            None => find_char(l@, '=') == None::<int>,
        },
{
    let mut i: usize = 0;
    while i < l.len()
        invariant
            i <= l.len(),
            forall|j: int| 0 <= j < i ==> l@[j] != '=',
        decreases l.len() - i,
    {
        if l[i] == '=' {
            proof {
                lemma_find_char(l@, '=', i as int);
            }
            return Some(i);
        }
        i = i + 1;
    }
    proof {
        lemma_find_char(l@, '=', i as int);
    }
    None
}

/// Reads the text of a lock file.
pub fn read(content: &str) -> (t: LockTable)
    ensures
        t.wf(),
        t@ == spec_read(content@),
{
    let chars = chars_of(content);
    let ls = lines_of(&chars);
    let mut t = LockTable::new();
    let mut i: usize = 0;
    assert(views(ls@).take(0) =~= Seq::<Seq<char>>::empty());
    while i < ls.len()
        invariant
            i <= ls.len(),
            t.wf(),
            views(ls@) == lines(content@),
            t@ == read_lines(views(ls@).take(i as int)),
        decreases ls.len() - i,
    {
        assert(views(ls@).take(i + 1).drop_last() =~= views(ls@).take(i as int));
        assert(views(ls@).take(i + 1).last() == ls@[i as int]@);
        let l = &ls[i];
        match find_eq(l) {
            Some(p) => {
                let k = slice_of(l, 0, p);
                let v = slice_of(l, p + 1, l.len());
                assert(k@ =~= l@.take(p as int));
                assert(v@ =~= l@.skip(p + 1));
                t.insert(k, v);
            },
            None => {},
        }
        i = i + 1;
    }
    assert(views(ls@).take(ls.len() as int) =~= views(ls@));
    t
}

/// The text of a lock file for the table: `name=version` lines in sorted order.
pub fn write(packages: &LockTable) -> (text: String)
    requires
        packages.wf(),
    ensures
        is_lock_text(text@, packages@),
{
    let ghost ks = packages.key_views();
    let ghost m = packages@;
    let mut ls: Vec<Vec<char>> = Vec::new();
    let mut i: usize = 0;
    while i < packages.keys.len()
        invariant
            packages.wf(),
            ks == packages.key_views(),
            m == packages@,
            ks.len() == packages.keys.len(),
            i <= packages.keys.len(),
            views(ls@) == ks.take(i as int).map_values(|k: Seq<char>| entry_line(k, m[k])),
        decreases packages.keys.len() - i,
    {
        let mut line = slice_of(&packages.keys[i], 0, packages.keys[i].len());
        line.push('=');
        push_all(&mut line, &packages.vals[i]);
        proof {
            packages.lemma_index(i as int);
            assert(line@ =~= entry_line(ks[i as int], m[ks[i as int]]));
        }
        let ghost before = views(ls@);
        assert(before.len() == ls.len());
        assert(ks.take(i as int).map_values(|k: Seq<char>| entry_line(k, m[k])).len() == i);
        ls.push(line);
        assert(views(ls@) =~= ks.take(i + 1).map_values(|k: Seq<char>| entry_line(k, m[k]))) by {
            assert forall|t: int| 0 <= t < i + 1 implies #[trigger] views(ls@)[t] == ks.take(i + 1).map_values(|k: Seq<char>| entry_line(k, m[k]))[t] by {
                if t < i {
                    assert(views(ls@)[t] == before[t]);
                }
            }
        }
        i = i + 1;
    }
    assert(ks.take(ks.len() as int) =~= ks);
    let sorted_lines = sort_strs(&ls);
    let mut nl: Vec<char> = Vec::new();
    nl.push('\n');
    let text = join_of(&sorted_lines, &nl);
    proof {
        assert(nl@ =~= seq!['\n']);
        assert forall|k: Seq<char>| #[trigger] m.contains_key(k) <==> ks.contains(k) by {}
        assert(lists_keys(ks, m));
        assert(text@ == text_of(ks, m));
    }
    string_of(&text)
}

/// The lock file text after recording `version` for `pkg_name`.
pub fn update(content: &str, pkg_name: &str, version: &str) -> (text: String)
    ensures
        is_lock_text(text@, spec_read(content@).insert(pkg_name@, version@)),
{
    let mut lock = read(content);
    lock.insert(chars_of(pkg_name), chars_of(version));
    write(&lock)
}

/// The lock file text after dropping `pkg_name`.
pub fn remove(content: &str, pkg_name: &str) -> (text: String)
    ensures
        is_lock_text(text@, spec_read(content@).remove(pkg_name@)),
{
    let mut lock = read(content);
    lock.remove(&chars_of(pkg_name));
    write(&lock)
}

} // verus!
