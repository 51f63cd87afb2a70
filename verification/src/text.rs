//! Character-sequence operations with the meaning that Rust's `str` methods have,
//! stated over `Seq<char>` and implemented on `Vec<char>`.

use vstd::prelude::*;

verus! {

// ───────────────────────────── character classes ─────────────────────────────

/// The characters for which `char::is_whitespace` holds (Unicode `White_Space`).
pub open spec fn is_ws(c: char) -> bool {
    ||| ('\u{9}' <= c && c <= '\u{d}')
    ||| c == ' '
    ||| c == '\u{85}'
    ||| c == '\u{a0}'
    ||| c == '\u{1680}'
    ||| ('\u{2000}' <= c && c <= '\u{200a}')
    ||| c == '\u{2028}'
    ||| c == '\u{2029}'
    ||| c == '\u{202f}'
    ||| c == '\u{205f}'
    ||| c == '\u{3000}'
}

/// Executable whitespace test.
pub fn is_whitespace(c: char) -> (b: bool)
    ensures
        b == is_ws(c),
{
    ('\u{9}' <= c && c <= '\u{d}') || c == ' ' || c == '\u{85}' || c == '\u{a0}' || c
        == '\u{1680}' || ('\u{2000}' <= c && c <= '\u{200a}') || c == '\u{2028}' || c
        == '\u{2029}' || c == '\u{202f}' || c == '\u{205f}' || c == '\u{3000}'
}

/// A set of characters that a trim removes: whitespace, or one given character.
#[derive(Clone, Copy)]
pub enum CharClass {
    Whitespace,
    Exactly(char),
}

impl CharClass {
    pub open spec fn admits(self, c: char) -> bool {
        match self {
            CharClass::Whitespace => is_ws(c),
            CharClass::Exactly(d) => c == d,
        }
    }

    pub fn test(&self, c: char) -> (b: bool)
        ensures
            b == self.admits(c),
    {
        match self {
            CharClass::Whitespace => is_whitespace(c),
            CharClass::Exactly(d) => c == *d,
        }
    }
}

// ─────────────────────────────────── trims ───────────────────────────────────

/// Number of leading characters in the class.
pub open spec fn lead(s: Seq<char>, k: CharClass) -> nat
    decreases s.len(),
{
    if s.len() > 0 && k.admits(s[0]) {
        1 + lead(s.drop_first(), k)
    } else {
        0
    }
}

/// Number of trailing characters in the class.
pub open spec fn trail(s: Seq<char>, k: CharClass) -> nat
    decreases s.len(),
{
    if s.len() > 0 && k.admits(s.last()) {
        1 + trail(s.drop_last(), k)
    } else {
        0
    }
}

pub proof fn lemma_lead_bound(s: Seq<char>, k: CharClass)
    ensures
        lead(s, k) <= s.len(),
    decreases s.len(),
{
    if s.len() > 0 && k.admits(s[0]) {
        lemma_lead_bound(s.drop_first(), k);
    }
}

pub proof fn lemma_trail_bound(s: Seq<char>, k: CharClass)
    ensures
        trail(s, k) <= s.len(),
    decreases s.len(),
{
    if s.len() > 0 && k.admits(s.last()) {
        lemma_trail_bound(s.drop_last(), k);
    }
}

/// Leading characters of the class stop at one outside it.
pub proof fn lemma_lead_stops(s: Seq<char>, k: CharClass)
    ensures
        lead(s, k) < s.len() ==> !k.admits(s[lead(s, k) as int]),
    decreases s.len(),
{
    if s.len() > 0 && k.admits(s[0]) {
        lemma_lead_stops(s.drop_first(), k);
        if lead(s, k) < s.len() {
            assert(s.drop_first()[lead(s.drop_first(), k) as int] == s[lead(s, k) as int]);
        }
    }
}

/// Trailing characters of the class stop at one outside it.
pub proof fn lemma_trail_stops(s: Seq<char>, k: CharClass)
    ensures
        trail(s, k) < s.len() ==> !k.admits(s[s.len() - 1 - trail(s, k)]),
    decreases s.len(),
{
    if s.len() > 0 && k.admits(s.last()) {
        lemma_trail_stops(s.drop_last(), k);
        if trail(s, k) < s.len() {
            assert(s.drop_last()[s.drop_last().len() - 1 - trail(s.drop_last(), k)] == s[s.len() - 1 - trail(s, k)]);
        }
    }
}

/// Trimming twice is trimming once.
pub proof fn lemma_trim_idempotent(s: Seq<char>, k: CharClass)
    ensures
        trim(trim(s, k), k) == trim(s, k),
{
    lemma_lead_bound(s, k);
    lemma_lead_stops(s, k);
    let t1 = trim_start(s, k);
    assert(t1.len() > 0 ==> t1[0] == s[lead(s, k) as int]);
    lemma_trail_bound(t1, k);
    lemma_trail_stops(t1, k);
    let t = trim_end(t1, k);
    if t.len() > 0 {
        assert(t[0] == t1[0]);
        assert(!k.admits(t[0]));
        assert(lead(t, k) == 0);
        assert(trim_start(t, k) =~= t);
        assert(t.last() == t1[t1.len() - 1 - trail(t1, k)]);
        assert(trail(t, k) == 0);
        assert(trim_end(t, k) =~= t);
    } else {
        assert(trim(t, k) =~= t);
    }
}

/// `str::trim_start_matches` for a character pattern (`trim_start` for whitespace).
pub open spec fn trim_start(s: Seq<char>, k: CharClass) -> Seq<char> {
    s.skip(lead(s, k) as int)
}

/// `str::trim_end_matches` for a character pattern (`trim_end` for whitespace).
pub open spec fn trim_end(s: Seq<char>, k: CharClass) -> Seq<char> {
    s.take(s.len() - trail(s, k))
}

/// `str::trim_matches` for a character pattern (`trim` for whitespace).
pub open spec fn trim(s: Seq<char>, k: CharClass) -> Seq<char> {
    trim_end(trim_start(s, k), k)
}

/// `str::trim`.
pub open spec fn trim_ws(s: Seq<char>) -> Seq<char> {
    trim(s, CharClass::Whitespace)
}

/// The characters `s[a..b]` as a new vector.
pub fn slice_of(s: &Vec<char>, a: usize, b: usize) -> (res: Vec<char>)
    requires
        a <= b <= s.len(),
    ensures
        res@ == s@.subrange(a as int, b as int),
{
    let mut out: Vec<char> = Vec::new();
    let mut i = a;
    while i < b
        invariant
            a <= i <= b <= s.len(),
            out@ == s@.subrange(a as int, i as int),
        decreases b - i,
    {
        out.push(s[i]);
        i = i + 1;
    }
    out
}

pub fn lead_len(s: &Vec<char>, k: CharClass) -> (n: usize)
    ensures
        n == lead(s@, k),
{
    let mut i: usize = 0;
    assert(s@.skip(0) =~= s@);
    while i < s.len() && k.test(s[i])
        invariant
            i <= s.len(),
            lead(s@, k) == i + lead(s@.skip(i as int), k),
        decreases s.len() - i,
    {
        assert(s@.skip(i as int).drop_first() =~= s@.skip(i + 1));
        i = i + 1;
    }
    i
}

pub fn trail_len(s: &Vec<char>, k: CharClass) -> (n: usize)
    ensures
        n == trail(s@, k),
{
    let mut j: usize = s.len();
    assert(s@.take(j as int) =~= s@);
    while j > 0 && k.test(s[j - 1])
        invariant
            j <= s.len(),
            trail(s@, k) == (s.len() - j) + trail(s@.take(j as int), k),
        decreases j,
    {
        assert(s@.take(j as int).drop_last() =~= s@.take(j - 1));
        j = j - 1;
    }
    (s.len() - j) as usize
}

pub fn trim_start_of(s: &Vec<char>, k: CharClass) -> (res: Vec<char>)
    ensures
        res@ == trim_start(s@, k),
{
    let a = lead_len(s, k);
    proof {
        lemma_lead_bound(s@, k);
    }
    slice_of(s, a, s.len())
}

pub fn trim_end_of(s: &Vec<char>, k: CharClass) -> (res: Vec<char>)
    ensures
        res@ == trim_end(s@, k),
{
    let n = trail_len(s, k);
    proof {
        lemma_trail_bound(s@, k);
    }
    slice_of(s, 0, s.len() - n)
}

pub fn trim_of(s: &Vec<char>, k: CharClass) -> (res: Vec<char>)
    ensures
        res@ == trim(s@, k),
{
    let t = trim_start_of(s, k);
    trim_end_of(&t, k)
}


// ────────────────────────────── prefixes, matches ─────────────────────────────

/// `p` occurs in `s` at position `i`.
pub open spec fn matches_at(s: Seq<char>, p: Seq<char>, i: int) -> bool {
    0 <= i && i + p.len() <= s.len() && s.subrange(i, i + p.len()) == p
}

/// `str::starts_with` for a string pattern.
pub open spec fn starts_with(s: Seq<char>, p: Seq<char>) -> bool {
    matches_at(s, p, 0)
}

/// `str::ends_with` for a string pattern.
pub open spec fn ends_with(s: Seq<char>, p: Seq<char>) -> bool {
    matches_at(s, p, s.len() - p.len())
}

/// `str::contains` for a string pattern.
pub open spec fn contains(s: Seq<char>, p: Seq<char>) -> bool {
    exists|i: int| matches_at(s, p, i)
}

/// `str::trim_start_matches` for a non-empty string pattern: every leading copy removed.
pub open spec fn strip_prefix_all(s: Seq<char>, p: Seq<char>) -> Seq<char>
    decreases s.len(),
{
    if p.len() > 0 && starts_with(s, p) {
        strip_prefix_all(s.skip(p.len() as int), p)
    } else {
        s
    }
}

/// `str::trim_end_matches` for a non-empty string pattern: every trailing copy removed.
pub open spec fn strip_suffix_all(s: Seq<char>, p: Seq<char>) -> Seq<char>
    decreases s.len(),
{
    if p.len() > 0 && ends_with(s, p) {
        strip_suffix_all(s.take(s.len() - p.len()), p)
    } else {
        s
    }
}

/// Does `p` occur in `s` at position `i`?
pub fn matches_at_exec(s: &Vec<char>, p: &Vec<char>, i: usize) -> (b: bool)
    ensures
        b == matches_at(s@, p@, i as int),
{
    if i > s.len() || p.len() > s.len() - i {
        return false;
    }
    let mut j: usize = 0;
    while j < p.len()
        invariant
            i + p.len() <= s.len(),
            j <= p.len(),
            forall|k: int| 0 <= k < j ==> s@[i + k] == p@[k],
        decreases p.len() - j,
    {
        if s[i + j] != p[j] {
            assert(s@.subrange(i as int, i + p.len())[j as int] != p@[j as int]);
            return false;
        }
        j = j + 1;
    }
    assert(s@.subrange(i as int, i + p.len()) =~= p@);
    true
}

pub fn starts_with_exec(s: &Vec<char>, p: &Vec<char>) -> (b: bool)
    ensures
        b == starts_with(s@, p@),
{
    matches_at_exec(s, p, 0)
}

pub fn ends_with_exec(s: &Vec<char>, p: &Vec<char>) -> (b: bool)
    ensures
        b == ends_with(s@, p@),
{
    if p.len() > s.len() {
        false
    } else {
        matches_at_exec(s, p, s.len() - p.len())
    }
}

pub fn contains_exec(s: &Vec<char>, p: &Vec<char>) -> (b: bool)
    ensures
        b == contains(s@, p@),
{
    if p.len() > s.len() {
        return false;
    }
    if p.len() == 0 {
        assert(s@.subrange(0, 0) =~= p@);
        assert(matches_at(s@, p@, 0));
        return true;
    }
    let mut i: usize = 0;
    while i <= s.len() - p.len()
        invariant
            0 < p.len() <= s.len(),
            forall|k: int| 0 <= k < i ==> !matches_at(s@, p@, k),
        decreases s.len() - p.len() + 1 - i,
    {
        if matches_at_exec(s, p, i) {
            return true;
        }
        i = i + 1;
    }
    false
}

pub fn strip_prefix_all_of(s: &Vec<char>, p: &Vec<char>) -> (res: Vec<char>)
    requires
        p.len() > 0,
    ensures
        res@ == strip_prefix_all(s@, p@),
{
    let mut i: usize = 0;
    assert(s@.skip(0) =~= s@);
    while matches_at_exec(s, p, i)
        invariant
            p.len() > 0,
            i <= s.len(),
            strip_prefix_all(s@, p@) == strip_prefix_all(s@.skip(i as int), p@),
        decreases s.len() - i,
    {
        assert(s@.skip(i as int).subrange(0, p.len() as int) =~= s@.subrange(
            i as int,
            i + p.len(),
        ));
        assert(s@.skip(i as int).skip(p.len() as int) =~= s@.skip(i + p.len()));
        i = i + p.len();
    }
    assert(s@.skip(i as int).len() < p.len() || s@.skip(i as int).subrange(0, p.len() as int)
        =~= s@.subrange(i as int, i + p.len()));
    slice_of(s, i, s.len())
}

pub fn strip_suffix_all_of(s: &Vec<char>, p: &Vec<char>) -> (res: Vec<char>)
    requires
        p.len() > 0,
    ensures
        res@ == strip_suffix_all(s@, p@),
{
    let mut j: usize = s.len();
    assert(s@.take(j as int) =~= s@);
    while j >= p.len() && matches_at_exec(s, p, j - p.len())
        invariant
            p.len() > 0,
            j <= s.len(),
            strip_suffix_all(s@, p@) == strip_suffix_all(s@.take(j as int), p@),
        decreases j,
    {
        let ghost t = s@.take(j as int);
        assert(t.subrange(t.len() - p.len(), t.len() as int) =~= s@.subrange(
            j - p.len(),
            j as int,
        ));
        assert(t.take(t.len() - p.len()) =~= s@.take(j - p.len()));
        j = j - p.len();
    }
    let ghost t = s@.take(j as int);
    assert(j < p.len() || t.subrange(t.len() - p.len(), t.len() as int) =~= s@.subrange(
        j - p.len(),
        j as int,
    ));
    slice_of(s, 0, j)
}

/// Element-wise equality of two character vectors.
pub fn chars_eq(a: &Vec<char>, b: &Vec<char>) -> (r: bool)
    ensures
        r == (a@ == b@),
{
    if a.len() != b.len() {
        return false;
    }
    let r = matches_at_exec(a, b, 0);
    assert(a@.subrange(0, b.len() as int) =~= a@);
    r
}


// ───────────────────────────────── replacing ─────────────────────────────────

/// `str::replace` for a non-empty pattern: leftmost non-overlapping occurrences replaced.
pub open spec fn replace_all(s: Seq<char>, p: Seq<char>, r: Seq<char>) -> Seq<char>
    decreases s.len(),
{
    if p.len() == 0 || s.len() < p.len() {
        s
    } else if starts_with(s, p) {
        r + replace_all(s.skip(p.len() as int), p, r)
    } else {
        seq![s[0]] + replace_all(s.drop_first(), p, r)
    }
}

/// `str::replacen(p, r, 1)` for a non-empty pattern: the leftmost occurrence replaced.
pub open spec fn replace_first(s: Seq<char>, p: Seq<char>, r: Seq<char>) -> Seq<char>
    decreases s.len(),
{
    if p.len() == 0 || s.len() < p.len() {
        s
    } else if starts_with(s, p) {
        r + s.skip(p.len() as int)
    } else {
        seq![s[0]] + replace_first(s.drop_first(), p, r)
    }
}

/// Appends the characters of `b` to `a`.
pub fn push_all(a: &mut Vec<char>, b: &Vec<char>)
    ensures
        final(a)@ == old(a)@ + b@,
{
    let mut i: usize = 0;
    while i < b.len()
        invariant
            i <= b.len(),
            a@ == old(a)@ + b@.take(i as int),
        decreases b.len() - i,
    {
        a.push(b[i]);
        i = i + 1;
        assert(a@ =~= old(a)@ + b@.take(i as int));
    }
    assert(b@.take(b.len() as int) =~= b@);
}

pub fn replace_all_of(s: &Vec<char>, p: &Vec<char>, r: &Vec<char>) -> (res: Vec<char>)
    requires
        p.len() > 0,
    ensures
        res@ == replace_all(s@, p@, r@),
{
    let mut out: Vec<char> = Vec::new();
    let mut i: usize = 0;
    assert(s@.skip(0) =~= s@);
    while i < s.len() && s.len() - i >= p.len()
        invariant
            p.len() > 0,
            i <= s.len(),
            replace_all(s@, p@, r@) == out@ + replace_all(s@.skip(i as int), p@, r@),
        decreases s.len() - i,
    {
        let ghost t = s@.skip(i as int);
        assert(t.subrange(0, p.len() as int) =~= s@.subrange(i as int, i + p.len()));
        if matches_at_exec(s, p, i) {
            assert(t.skip(p.len() as int) =~= s@.skip(i + p.len()));
            push_all(&mut out, r);
            i = i + p.len();
        } else {
            assert(t.drop_first() =~= s@.skip(i + 1));
            out.push(s[i]);
            i = i + 1;
        }
    }
    let rest = slice_of(s, i, s.len());
    assert(rest@ =~= s@.skip(i as int));
    push_all(&mut out, &rest);
    out
}

pub fn replace_first_of(s: &Vec<char>, p: &Vec<char>, r: &Vec<char>) -> (res: Vec<char>)
    requires
        p.len() > 0,
    ensures
        res@ == replace_first(s@, p@, r@),
{
    let mut out: Vec<char> = Vec::new();
    let mut i: usize = 0;
    assert(s@.skip(0) =~= s@);
    while i < s.len() && s.len() - i >= p.len()
        invariant
            p.len() > 0,
            i <= s.len(),
            replace_first(s@, p@, r@) == out@ + replace_first(s@.skip(i as int), p@, r@),
        decreases s.len() - i,
    {
        let ghost t = s@.skip(i as int);
        assert(t.subrange(0, p.len() as int) =~= s@.subrange(i as int, i + p.len()));
        if matches_at_exec(s, p, i) {
            assert(t.skip(p.len() as int) =~= s@.skip(i + p.len()));
            push_all(&mut out, r);
            let rest = slice_of(s, i + p.len(), s.len());
            push_all(&mut out, &rest);
            assert(out@ =~= replace_first(s@, p@, r@));
            return out;
        } else {
            assert(t.drop_first() =~= s@.skip(i + 1));
            out.push(s[i]);
            i = i + 1;
        }
    }
    let rest = slice_of(s, i, s.len());
    assert(rest@ =~= s@.skip(i as int));
    push_all(&mut out, &rest);
    out
}

// ───────────────────────────────── splitting ─────────────────────────────────

/// The views of a vector of character vectors.
pub open spec fn views(v: Seq<Vec<char>>) -> Seq<Seq<char>> {
    v.map_values(|x: Vec<char>| x@)
}

/// `str::split` on one character: the pieces between occurrences, empty ones included.
pub open spec fn split(s: Seq<char>, c: char) -> Seq<Seq<char>>
    decreases s.len(),
{
    if s.len() == 0 {
        seq![seq![]]
    } else {
        let r = split(s.drop_last(), c);
        if s.last() == c {
            r.push(seq![])
        } else {
            r.update(r.len() - 1, r.last().push(s.last()))
        }
    }
}

pub proof fn lemma_split_nonempty(s: Seq<char>, c: char)
    ensures
        split(s, c).len() >= 1,
    decreases s.len(),
{
    if s.len() > 0 {
        lemma_split_nonempty(s.drop_last(), c);
    }
}

/// A separator between two texts separates their pieces.
pub proof fn lemma_split_at_sep(x: Seq<char>, y: Seq<char>, c: char)
    ensures
        split(x + seq![c] + y, c) == split(x, c) + split(y, c),
    decreases y.len(),
{
    let s = x + seq![c] + y;
    if y.len() == 0 {
        assert(s.drop_last() =~= x);
        assert(split(y, c) =~= seq![Seq::<char>::empty()]);
        assert(split(x, c).push(seq![]) =~= split(x, c) + split(y, c));
    } else {
        let y2 = y.drop_last();
        lemma_split_at_sep(x, y2, c);
        assert(s.drop_last() =~= x + seq![c] + y2);
        assert(s.last() == y.last());
        lemma_split_nonempty(y2, c);
        let a = split(x, c);
        let b = split(y2, c);
        if y.last() == c {
            assert((a + b).push(seq![]) =~= a + b.push(seq![]));
        } else {
            assert((a + b).update((a + b).len() - 1, (a + b).last().push(y.last())) =~= a + b.update(
                b.len() - 1,
                b.last().push(y.last()),
            ));
        }
    }
}

/// A text without the separator is one piece.
pub proof fn lemma_split_single(x: Seq<char>, c: char)
    requires
        !x.contains(c),
    ensures
        split(x, c) == seq![x],
{
    let e: Seq<char> = seq![];
    lemma_split_append(e, x, c);
    assert(e + x =~= x);
    assert(split(e, c) =~= seq![e]);
    assert(split(e, c).update(0, e + x) =~= seq![x]);
}

/// `replace_first` replaces the leftmost occurrence.
pub proof fn lemma_replace_first_at(s: Seq<char>, p: Seq<char>, r: Seq<char>, i: int)
    requires
        p.len() > 0,
        matches_at(s, p, i),
        forall|j: int| 0 <= j < i ==> !matches_at(s, p, j),
    ensures
        replace_first(s, p, r) == s.take(i) + r + s.skip(i + p.len()),
    decreases s.len(),
{
    if i == 0 {
        assert(starts_with(s, p));
        assert(s.take(0) + r =~= r);
    } else {
        assert(!matches_at(s, p, 0));
        let s2 = s.drop_first();
        assert(s2.subrange(i - 1, i - 1 + p.len()) =~= s.subrange(i, i + p.len()));
        assert forall|j: int| 0 <= j < i - 1 implies !matches_at(s2, p, j) by {
            if matches_at(s2, p, j) {
                assert(s2.subrange(j, j + p.len()) =~= s.subrange(j + 1, j + 1 + p.len()));
                assert(matches_at(s, p, j + 1));
            }
        }
        lemma_replace_first_at(s2, p, r, i - 1);
        assert(seq![s[0]] + (s2.take(i - 1) + r + s2.skip(i - 1 + p.len())) =~= s.take(i) + r + s.skip(i + p.len()));
    }
}

pub fn split_on(s: &Vec<char>, c: char) -> (res: Vec<Vec<char>>)
    ensures
        views(res@) == split(s@, c),
{
    let mut parts: Vec<Vec<char>> = Vec::new();
    let mut cur: Vec<char> = Vec::new();
    let mut i: usize = 0;
    assert(views(parts@).push(cur@) =~= split(s@.take(0), c));
    while i < s.len()
        invariant
            i <= s.len(),
            views(parts@).push(cur@) == split(s@.take(i as int), c),
        decreases s.len() - i,
    {
        let ghost before = s@.take(i as int);
        assert(s@.take(i + 1).drop_last() =~= before);
        proof {
            lemma_split_nonempty(before, c);
        }
        if s[i] == c {
            let done = cur;
            parts.push(done);
            cur = Vec::new();
            assert(views(parts@).push(cur@) =~= split(s@.take(i + 1), c));
        } else {
            cur.push(s[i]);
            assert(views(parts@).push(cur@) =~= split(s@.take(i + 1), c));
        }
        i = i + 1;
    }
    assert(s@.take(s.len() as int) =~= s@);
    parts.push(cur);
    assert(views(parts@) =~= split(s@, c));
    parts
}

/// A line with one trailing carriage return removed.
pub open spec fn strip_cr(l: Seq<char>) -> Seq<char> {
    if l.len() > 0 && l.last() == '\r' {
        l.drop_last()
    } else {
        l
    }
}

/// `strip_cr` applied to each line.
pub open spec fn strip_crs(p: Seq<Seq<char>>) -> Seq<Seq<char>> {
    p.map_values(|l: Seq<char>| strip_cr(l))
}

/// `str::lines`: split at `\n`, each `\r\n` counted as one line end, no empty last line.
pub open spec fn lines(s: Seq<char>) -> Seq<Seq<char>> {
    let p = split(s, '\n');
    let body = strip_crs(p.drop_last());
    if p.last().len() == 0 {
        body
    } else {
        body.push(p.last())
    }
}

pub fn strip_cr_of(l: Vec<char>) -> (res: Vec<char>)
    ensures
        res@ == strip_cr(l@),
{
    let ghost orig = l@;
    let mut l = l;
    if l.len() > 0 && l[l.len() - 1] == '\r' {
        l.pop();
        assert(l@ =~= strip_cr(orig));
    }
    l
}

pub fn lines_of(s: &Vec<char>) -> (res: Vec<Vec<char>>)
    ensures
        views(res@) == lines(s@),
{
    let parts = split_on(s, '\n');
    proof {
        lemma_split_nonempty(s@, '\n');
    }
    let n = parts.len();
    let ghost p = split(s@, '\n');
    let mut out: Vec<Vec<char>> = Vec::new();
    let mut i: usize = 0;
    while i + 1 < n
        invariant
            n == parts.len(),
            n >= 1,
            i + 1 <= n,
            views(parts@) == p,
            views(out@) == strip_crs(p.take(i as int)),
        decreases n - i,
    {
        let piece = slice_of(&parts[i], 0, parts[i].len());
        assert(piece@ =~= p[i as int]);
        let stripped = strip_cr_of(piece);
        let ghost old_out = out@;
        assert(views(old_out).len() == old_out.len());
        assert(p.len() == n);
        assert(strip_crs(p.take(i as int)).len() == i);
        out.push(stripped);
        assert forall|j: int| 0 <= j < i + 1 implies #[trigger] views(out@)[j] == strip_crs(
            p.take(i + 1),
        )[j] by {
            if j < i {
                assert(out@[j] == old_out[j]);
                assert(views(old_out)[j] == strip_crs(p.take(i as int))[j]);
            }
        }
        i = i + 1;
        assert(views(out@) =~= strip_crs(p.take(i as int)));
    }
    assert(p.take(i as int) =~= p.drop_last());
    let last = slice_of(&parts[n - 1], 0, parts[n - 1].len());
    assert(last@ =~= p.last());
    if last.len() > 0 {
        out.push(last);
        assert(views(out@) =~= lines(s@));
    }
    out
}

/// `str::split_whitespace`: the maximal runs of non-whitespace characters.
pub open spec fn words(s: Seq<char>) -> Seq<Seq<char>>
    decreases s.len(),
{
    if s.len() == 0 {
        seq![]
    } else {
        let r = words(s.drop_last());
        let c = s.last();
        if is_ws(c) {
            r
        } else if s.len() >= 2 && !is_ws(s[s.len() - 2]) {
            r.update(r.len() - 1, r.last().push(c))
        } else {
            r.push(seq![c])
        }
    }
}

pub proof fn lemma_words_nonempty(s: Seq<char>)
    requires
        s.len() > 0,
        !is_ws(s.last()),
    ensures
        words(s).len() > 0,
    decreases s.len(),
{
    if s.len() >= 2 && !is_ws(s[s.len() - 2]) {
        lemma_words_nonempty(s.drop_last());
    }
}

pub fn words_of(s: &Vec<char>) -> (res: Vec<Vec<char>>)
    ensures
        views(res@) == words(s@),
{
    let mut out: Vec<Vec<char>> = Vec::new();
    let mut cur: Vec<char> = Vec::new();
    let mut in_word = false;
    let mut i: usize = 0;
    assert(s@.take(0) =~= Seq::<char>::empty());
    while i < s.len()
        invariant
            i <= s.len(),
            in_word == (i > 0 && !is_ws(s@[i - 1])),
            in_word ==> views(out@).push(cur@) == words(s@.take(i as int)),
            !in_word ==> views(out@) == words(s@.take(i as int)),
        decreases s.len() - i,
    {
        let ghost before = s@.take(i as int);
        assert(s@.take(i + 1).drop_last() =~= before);
        let c = s[i];
        if is_whitespace(c) {
            if in_word {
                let w = cur;
                out.push(w);
                cur = Vec::new();
            }
            in_word = false;
            assert(views(out@) =~= words(s@.take(i + 1)));
        } else {
            if in_word {
                assert(before.len() >= 1 && before.last() == s@[i - 1]);
                proof {
                    lemma_words_nonempty(before);
                }
                cur.push(c);
                assert(views(out@).push(cur@) =~= words(s@.take(i + 1)));
            } else {
                cur = Vec::new();
                cur.push(c);
                assert(views(out@).push(cur@) =~= words(s@.take(i + 1)));
            }
            in_word = true;
        }
        i = i + 1;
    }
    assert(s@.take(s.len() as int) =~= s@);
    if in_word {
        out.push(cur);
        assert(views(out@) =~= words(s@));
    }
    out
}

/// `[T]::join` on strings: the parts with `sep` between neighbours.
pub open spec fn join(parts: Seq<Seq<char>>, sep: Seq<char>) -> Seq<char>
    decreases parts.len(),
{
    if parts.len() == 0 {
        seq![]
    } else if parts.len() == 1 {
        parts[0]
    } else {
        join(parts.drop_last(), sep) + sep + parts.last()
    }
}

pub fn join_of(parts: &Vec<Vec<char>>, sep: &Vec<char>) -> (res: Vec<char>)
    ensures
        res@ == join(views(parts@), sep@),
{
    let mut out: Vec<char> = Vec::new();
    let mut i: usize = 0;
    while i < parts.len()
        invariant
            i <= parts.len(),
            out@ == join(views(parts@).take(i as int), sep@),
        decreases parts.len() - i,
    {
        assert(views(parts@).take(i + 1).drop_last() =~= views(parts@).take(i as int));
        if i > 0 {
            push_all(&mut out, sep);
        }
        push_all(&mut out, &parts[i]);
        i = i + 1;
        assert(out@ =~= join(views(parts@).take(i as int), sep@));
    }
    assert(views(parts@).take(parts.len() as int) =~= views(parts@));
    out
}

// ──────────────────────────────── conversions ────────────────────────────────

/// The characters of a string slice.
pub fn chars_of(s: &str) -> (res: Vec<char>)
    ensures
        res@ == s@,
{
    let mut out: Vec<char> = Vec::new();
    for c in it: s.chars()
        invariant
            out@ == it.seq().take(it.index() as int),
    {
        out.push(c);
    }
    out
}

/// A `String` holding the given characters (`FromIterator<char>` for `String`).
#[verifier::external_body]
pub fn string_of(v: &Vec<char>) -> (s: String)
    ensures
        s@ == v@,
{
    v.iter().collect()
}

/// The concatenation of two strings.
pub fn cat(a: &str, b: &str) -> (r: String)
    ensures
        r@ == a@ + b@,
{
    let mut v = chars_of(a);
    push_all(&mut v, &chars_of(b));
    string_of(&v)
}


// ───────────────────────────── lexicographic order ────────────────────────────

/// The order of `str`'s `Ord` (byte order of UTF-8 equals code point order).
pub open spec fn lex_le(a: Seq<char>, b: Seq<char>) -> bool
    decreases a.len(),
{
    if a.len() == 0 {
        true
    } else if b.len() == 0 {
        false
    } else if a[0] != b[0] {
        a[0] < b[0]
    } else {
        lex_le(a.drop_first(), b.drop_first())
    }
}

pub proof fn lemma_lex_total(a: Seq<char>, b: Seq<char>)
    ensures
        lex_le(a, b) || lex_le(b, a),
    decreases a.len(),
{
    if a.len() > 0 && b.len() > 0 && a[0] == b[0] {
        lemma_lex_total(a.drop_first(), b.drop_first());
    }
}

pub proof fn lemma_lex_trans(a: Seq<char>, b: Seq<char>, c: Seq<char>)
    requires
        lex_le(a, b),
        lex_le(b, c),
    ensures
        lex_le(a, c),
    decreases a.len(),
{
    if a.len() > 0 && b.len() > 0 && c.len() > 0 && a[0] == b[0] && b[0] == c[0] {
        lemma_lex_trans(a.drop_first(), b.drop_first(), c.drop_first());
    }
}

pub proof fn lemma_lex_antisym(a: Seq<char>, b: Seq<char>)
    requires
        lex_le(a, b),
        lex_le(b, a),
    ensures
        a == b,
    decreases a.len(),
{
    if a.len() > 0 && b.len() > 0 {
        lemma_lex_antisym(a.drop_first(), b.drop_first());
        assert(a =~= seq![a[0]] + a.drop_first());
        assert(b =~= seq![b[0]] + b.drop_first());
    } else {
        assert(a =~= b);
    }
}

pub fn lex_le_exec(a: &Vec<char>, b: &Vec<char>) -> (r: bool)
    ensures
        r == lex_le(a@, b@),
{
    let mut i: usize = 0;
    assert(a@.skip(0) =~= a@ && b@.skip(0) =~= b@);
    while i < a.len() && i < b.len() && a[i] == b[i]
        invariant
            i <= a.len(),
            i <= b.len(),
            lex_le(a@, b@) == lex_le(a@.skip(i as int), b@.skip(i as int)),
        decreases a.len() - i,
    {
        assert(a@.skip(i as int).drop_first() =~= a@.skip(i + 1));
        assert(b@.skip(i as int).drop_first() =~= b@.skip(i + 1));
        i = i + 1;
    }
    if i == a.len() {
        true
    } else if i == b.len() {
        false
    } else {
        a[i] < b[i]
    }
}

/// The sequence is in non-decreasing `lex_le` order.
pub open spec fn sorted(s: Seq<Seq<char>>) -> bool {
    forall|i: int, j: int| 0 <= i < j < s.len() ==> lex_le(#[trigger] s[i], #[trigger] s[j])
}

/// `x` placed before the first element that it does not exceed.
pub open spec fn insert_sorted(t: Seq<Seq<char>>, x: Seq<char>) -> Seq<Seq<char>>
    decreases t.len(),
{
    if t.len() == 0 {
        seq![x]
    } else if lex_le(x, t[0]) {
        seq![x] + t
    } else {
        seq![t[0]] + insert_sorted(t.drop_first(), x)
    }
}

/// The elements in ascending order.
pub open spec fn sort_seq(s: Seq<Seq<char>>) -> Seq<Seq<char>>
    decreases s.len(),
{
    if s.len() == 0 {
        s
    } else {
        insert_sorted(sort_seq(s.drop_last()), s.last())
    }
}

pub proof fn lemma_insert_sorted(t: Seq<Seq<char>>, x: Seq<char>)
    requires
        sorted(t),
    ensures
        sorted(insert_sorted(t, x)),
        insert_sorted(t, x).to_multiset() == t.to_multiset().insert(x),
        insert_sorted(t, x).len() == t.len() + 1,
        forall|i: int|
            0 <= i < insert_sorted(t, x).len() ==> #[trigger] insert_sorted(t, x)[i] == x
                || t.contains(insert_sorted(t, x)[i]),
    decreases t.len(),
{
    broadcast use vstd::seq_lib::group_to_multiset_ensures;

    let r = insert_sorted(t, x);
    if t.len() == 0 {
        assert(r.to_multiset() =~= t.to_multiset().insert(x)) by {
            vstd::seq_lib::to_multiset_build(t, x);
            assert(t.push(x) =~= r);
        }
    } else if lex_le(x, t[0]) {
        vstd::seq_lib::to_multiset_insert(t, 0, x);
        assert(t.insert(0, x) =~= r);
        assert forall|i: int, j: int| 0 <= i < j < r.len() implies lex_le(
            #[trigger] r[i],
            #[trigger] r[j],
        ) by {
            if i == 0 {
                assert(r[j] == t[j - 1]);
                if j - 1 > 0 {
                    assert(lex_le(t[0], t[j - 1]));
                    lemma_lex_trans(x, t[0], t[j - 1]);
                }
            } else {
                assert(r[i] == t[i - 1] && r[j] == t[j - 1]);
            }
        }
        assert forall|i: int| 0 <= i < r.len() implies #[trigger] r[i] == x || t.contains(r[i]) by {
            if i > 0 {
                assert(r[i] == t[i - 1]);
            }
        }
    } else {
        let t2 = t.drop_first();
        assert(sorted(t2)) by {
            assert forall|i: int, j: int| 0 <= i < j < t2.len() implies lex_le(
                #[trigger] t2[i],
                #[trigger] t2[j],
            ) by {
                assert(t2[i] == t[i + 1] && t2[j] == t[j + 1]);
            }
        }
        lemma_insert_sorted(t2, x);
        let r2 = insert_sorted(t2, x);
        assert(r == seq![t[0]] + r2);
        lemma_lex_total(x, t[0]);
        assert forall|i: int, j: int| 0 <= i < j < r.len() implies lex_le(
            #[trigger] r[i],
            #[trigger] r[j],
        ) by {
            if i == 0 {
                assert(r[j] == r2[j - 1]);
                if r2[j - 1] == x {
                } else {
                    assert(t2.contains(r2[j - 1]));
                    let k = choose|k: int| 0 <= k < t2.len() && t2[k] == r2[j - 1];
                    assert(t[k + 1] == t2[k]);
                    assert(lex_le(t[0], t[k + 1]));
                }
            } else {
                assert(r[i] == r2[i - 1] && r[j] == r2[j - 1]);
            }
        }
        assert forall|i: int| 0 <= i < r.len() implies #[trigger] r[i] == x || t.contains(r[i]) by {
            if i == 0 {
                assert(t[0] == r[0]);
            } else {
                assert(r[i] == r2[i - 1]);
                if r2[i - 1] != x {
                    assert(t2.contains(r2[i - 1]));
                    let k = choose|k: int| 0 <= k < t2.len() && t2[k] == r2[i - 1];
                    assert(t[k + 1] == t2[k]);
                }
            }
        }
        assert(t =~= seq![t[0]] + t2);
        vstd::seq_lib::lemma_multiset_commutative(seq![t[0]], t2);
        vstd::seq_lib::lemma_multiset_commutative(seq![t[0]], r2);
        assert(r.to_multiset() =~= t.to_multiset().insert(x));
    }
}

pub proof fn lemma_sort_seq(s: Seq<Seq<char>>)
    ensures
        sorted(sort_seq(s)),
        sort_seq(s).to_multiset() == s.to_multiset(),
    decreases s.len(),
{
    broadcast use vstd::seq_lib::group_to_multiset_ensures;

    if s.len() > 0 {
        lemma_sort_seq(s.drop_last());
        lemma_insert_sorted(sort_seq(s.drop_last()), s.last());
        vstd::seq_lib::to_multiset_build(s.drop_last(), s.last());
        assert(s.drop_last().push(s.last()) =~= s);
    } else {
        assert(sorted(s));
    }
}

/// Two ascending sequences with the same elements are equal.
pub proof fn lemma_sorted_unique(a: Seq<Seq<char>>, b: Seq<Seq<char>>)
    requires
        sorted(a),
        sorted(b),
        a.to_multiset() == b.to_multiset(),
    ensures
        a == b,
    decreases a.len(),
{
    broadcast use vstd::seq_lib::group_to_multiset_ensures;

    assert(a.len() == b.len()) by {
        vstd::seq_lib::to_multiset_len(a);
        vstd::seq_lib::to_multiset_len(b);
    }
    if a.len() == 0 {
        assert(a =~= b);
    } else {
        assert(a.to_multiset().count(b[0]) > 0) by {
            vstd::seq_lib::to_multiset_contains(b, b[0]);
        }
        assert(a.contains(b[0]));
        assert(b.contains(a[0])) by {
            vstd::seq_lib::to_multiset_contains(a, a[0]);
        }
        let i = choose|i: int| 0 <= i < a.len() && a[i] == b[0];
        let j = choose|j: int| 0 <= j < b.len() && b[j] == a[0];
        assert(lex_le(a[0], b[0])) by {
            if i > 0 {
                assert(lex_le(a[0], a[i]));
            } else {
                lemma_lex_total(a[0], a[0]);
            }
        }
        assert(lex_le(b[0], a[0])) by {
            if j > 0 {
                assert(lex_le(b[0], b[j]));
            } else {
                lemma_lex_total(b[0], b[0]);
            }
        }
        lemma_lex_antisym(a[0], b[0]);
        let a2 = a.drop_first();
        let b2 = b.drop_first();
        assert(a =~= a2.insert(0, a[0]));
        assert(b =~= b2.insert(0, b[0]));
        vstd::seq_lib::to_multiset_insert(a2, 0, a[0]);
        vstd::seq_lib::to_multiset_insert(b2, 0, b[0]);
        assert(a2.to_multiset() =~= b2.to_multiset()) by {
            assert(a2.to_multiset() =~= a.to_multiset().remove(a[0]));
            assert(b2.to_multiset() =~= b.to_multiset().remove(b[0]));
        }
        assert(sorted(a2)) by {
            assert forall|x: int, y: int| 0 <= x < y < a2.len() implies lex_le(
                #[trigger] a2[x],
                #[trigger] a2[y],
            ) by {
                assert(a2[x] == a[x + 1] && a2[y] == a[y + 1]);
            }
        }
        assert(sorted(b2)) by {
            assert forall|x: int, y: int| 0 <= x < y < b2.len() implies lex_le(
                #[trigger] b2[x],
                #[trigger] b2[y],
            ) by {
                assert(b2[x] == b[x + 1] && b2[y] == b[y + 1]);
            }
        }
        lemma_sorted_unique(a2, b2);
        assert(a =~= b);
    }
}

/// The strings in ascending order (what `sort` on a `Vec<String>` gives).
pub fn sort_strs(v: &Vec<Vec<char>>) -> (res: Vec<Vec<char>>)
    ensures
        views(res@) == sort_seq(views(v@)),
{
    let res = sort_strs_by_insertion(v);
    proof {
        lemma_sort_seq(views(v@));
        lemma_sorted_unique(views(res@), sort_seq(views(v@)));
    }
    res
}

fn sort_strs_by_insertion(v: &Vec<Vec<char>>) -> (res: Vec<Vec<char>>)
    ensures
        sorted(views(res@)),
        views(res@).to_multiset() == views(v@).to_multiset(),
{
    broadcast use vstd::seq_lib::group_to_multiset_ensures;

    let mut out: Vec<Vec<char>> = Vec::new();
    let mut i: usize = 0;
    assert(views(v@).take(0) =~= Seq::<Seq<char>>::empty());
    while i < v.len()
        invariant
            i <= v.len(),
            sorted(views(out@)),
            views(out@).to_multiset() == views(v@).take(i as int).to_multiset(),
        decreases v.len() - i,
    {
        let x = slice_of(&v[i], 0, v[i].len());
        assert(x@ =~= v@[i as int]@);
        let mut j: usize = 0;
        while j < out.len() && lex_le_exec(&out[j], &x)
            invariant
                j <= out.len(),
                forall|k: int| 0 <= k < j ==> lex_le(#[trigger] views(out@)[k], x@),
            decreases out.len() - j,
        {
            j = j + 1;
        }
        let ghost before = views(out@);
        out.insert(j, x);
        assert(views(out@) =~= before.insert(j as int, x@));
        assert forall|a: int, b: int| 0 <= a < b < views(out@).len() implies lex_le(
            #[trigger] views(out@)[a],
            #[trigger] views(out@)[b],
        ) by {
            let s = views(out@);
            if b < j {
                assert(s[a] == before[a] && s[b] == before[b]);
            } else if b == j {
                assert(s[a] == before[a]);
            } else if a == j {
                assert(s[b] == before[b - 1]);
                assert(!lex_le(before[j as int], x@));
                lemma_lex_total(before[j as int], x@);
                if b - 1 > j {
                    lemma_lex_trans(x@, before[j as int], before[b - 1]);
                }
            } else if a < j {
                assert(s[a] == before[a] && s[b] == before[b - 1]);
                assert(lex_le(before[a], x@));
                lemma_lex_total(before[j as int], x@);
                lemma_lex_trans(before[a], x@, before[j as int]);
                if b - 1 > j {
                    lemma_lex_trans(before[a], before[j as int], before[b - 1]);
                }
            } else {
                assert(s[a] == before[a - 1] && s[b] == before[b - 1]);
            }
        }
        proof {
            vstd::seq_lib::to_multiset_insert(before, j as int, x@);
            assert(views(v@)[i as int] == x@);
            assert(views(v@).take(i + 1) =~= views(v@).take(i as int).push(x@));
            vstd::seq_lib::to_multiset_build(views(v@).take(i as int), x@);
        }
        i = i + 1;
    }
    assert(views(v@).take(v.len() as int) =~= views(v@));
    out
}


/// The views of a vector of strings.
pub open spec fn str_views(v: Seq<String>) -> Seq<Seq<char>> {
    v.map_values(|s: String| s@)
}

/// A copy of a vector of character vectors.
pub fn copy_strs(src: &Vec<Vec<char>>) -> (out: Vec<Vec<char>>)
    ensures
        views(out@) == views(src@),
{
    let mut out: Vec<Vec<char>> = Vec::new();
    let mut j: usize = 0;
    while j < src.len()
        invariant
            j <= src.len(),
            views(out@) == views(src@).take(j as int),
        decreases src.len() - j,
    {
        let e = slice_of(&src[j], 0, src[j].len());
        assert(e@ =~= src@[j as int]@);
        let ghost old_out = out@;
        assert(views(old_out).len() == j);
        out.push(e);
        assert forall|t: int| 0 <= t < j + 1 implies #[trigger] views(out@)[t] == views(
            src@,
        ).take(j + 1)[t] by {
            if t < j {
                assert(out@[t] == old_out[t]);
                assert(views(old_out)[t] == views(src@).take(j as int)[t]);
            }
        }
        j = j + 1;
        assert(views(out@) =~= views(src@).take(j as int));
    }
    assert(views(src@).take(src.len() as int) =~= views(src@));
    out
}

/// Character vectors as `String`s.
pub fn strings_of(src: &Vec<Vec<char>>) -> (out: Vec<String>)
    ensures
        str_views(out@) == views(src@),
{
    let mut out: Vec<String> = Vec::new();
    let mut j: usize = 0;
    while j < src.len()
        invariant
            j <= src.len(),
            str_views(out@) == views(src@).take(j as int),
        decreases src.len() - j,
    {
        let e = string_of(&src[j]);
        let ghost old_out = out@;
        assert(str_views(old_out).len() == j);
        out.push(e);
        assert forall|t: int| 0 <= t < j + 1 implies #[trigger] str_views(out@)[t] == views(
            src@,
        ).take(j + 1)[t] by {
            if t < j {
                assert(out@[t] == old_out[t]);
                assert(str_views(old_out)[t] == views(src@).take(j as int)[t]);
            }
        }
        j = j + 1;
        assert(str_views(out@) =~= views(src@).take(j as int));
    }
    assert(views(src@).take(src.len() as int) =~= views(src@));
    out
}

/// `String`s as character vectors.
pub fn chars_of_strings(src: &Vec<String>) -> (out: Vec<Vec<char>>)
    ensures
        views(out@) == str_views(src@),
{
    let mut out: Vec<Vec<char>> = Vec::new();
    let mut j: usize = 0;
    while j < src.len()
        invariant
            j <= src.len(),
            views(out@) == str_views(src@).take(j as int),
        decreases src.len() - j,
    {
        let e = chars_of(src[j].as_str());
        let ghost old_out = out@;
        assert(views(old_out).len() == j);
        out.push(e);
        assert forall|t: int| 0 <= t < j + 1 implies #[trigger] views(out@)[t] == str_views(
            src@,
        ).take(j + 1)[t] by {
            if t < j {
                assert(out@[t] == old_out[t]);
                assert(views(old_out)[t] == str_views(src@).take(j as int)[t]);
            }
        }
        j = j + 1;
        assert(views(out@) =~= str_views(src@).take(j as int));
    }
    assert(str_views(src@).take(src.len() as int) =~= str_views(src@));
    out
}


// ─────────────────────────────── join and split ───────────────────────────────

pub proof fn lemma_split_append(a: Seq<char>, b: Seq<char>, c: char)
    requires
        !b.contains(c),
    ensures
        split(a + b, c) == split(a, c).update(
            split(a, c).len() - 1,
            split(a, c).last() + b,
        ),
    decreases b.len(),
{
    lemma_split_nonempty(a, c);
    if b.len() == 0 {
        assert(a + b =~= a);
        assert(split(a, c).last() + b =~= split(a, c).last());
        assert(split(a, c).update(split(a, c).len() - 1, split(a, c).last()) =~= split(a, c));
    } else {
        let b2 = b.drop_last();
        assert(!b2.contains(c)) by {
            if b2.contains(c) {
                let i = choose|i: int| 0 <= i < b2.len() && b2[i] == c;
                assert(b[i] == c);
            }
        }
        lemma_split_append(a, b2, c);
        assert((a + b).drop_last() =~= a + b2);
        assert((a + b).last() == b.last());
        assert(b.last() != c) by {
            assert(b[b.len() - 1] == b.last());
        }
        assert(split(a, c).last() + b =~= (split(a, c).last() + b2).push(b.last()));
        assert(split(a + b, c) =~= split(a, c).update(
            split(a, c).len() - 1,
            split(a, c).last() + b,
        ));
    }
}

/// No element holds the character.
pub open spec fn none_contain(l: Seq<Seq<char>>, c: char) -> bool {
    forall|i: int| 0 <= i < l.len() ==> !(#[trigger] l[i]).contains(c)
}

pub proof fn lemma_split_join(l: Seq<Seq<char>>, c: char)
    requires
        l.len() >= 1,
        none_contain(l, c),
    ensures
        split(join(l, seq![c]), c) == l,
    decreases l.len(),
{
    if l.len() == 1 {
        let e: Seq<char> = seq![];
        lemma_split_append(e, l[0], c);
        assert(e + l[0] =~= l[0]);
        assert(split(e, c) =~= seq![e]);
        assert(split(join(l, seq![c]), c) =~= l);
    } else {
        let l2 = l.drop_last();
        assert(none_contain(l2, c)) by {
            assert forall|i: int| 0 <= i < l2.len() implies !(#[trigger] l2[i]).contains(c) by {
                assert(l2[i] == l[i]);
            }
        }
        lemma_split_join(l2, c);
        let j2 = join(l2, seq![c]);
        assert(join(l, seq![c]) == j2 + seq![c] + l.last());
        assert((j2 + seq![c]).drop_last() =~= j2);
        assert(split(j2 + seq![c], c) == l2.push(seq![]));
        assert(!l.last().contains(c)) by {
            assert(l[l.len() - 1] == l.last());
        }
        lemma_split_append(j2 + seq![c], l.last(), c);
        assert(Seq::<char>::empty() + l.last() =~= l.last());
        assert(split(join(l, seq![c]), c) =~= l);
    }
}

/// The pieces can be written one per line and read back by `lines`: no piece
/// holds a newline, none but the last ends with a carriage return, the last is
/// not empty.
pub open spec fn line_safe(l: Seq<Seq<char>>) -> bool {
    &&& none_contain(l, '\n')
    &&& forall|i: int| 0 <= i < l.len() - 1 ==> strip_cr(#[trigger] l[i]) == l[i]
    &&& (l.len() == 0 || l.last().len() > 0)
}

pub proof fn lemma_lines_join(l: Seq<Seq<char>>)
    requires
        line_safe(l),
    ensures
        lines(join(l, seq!['\n'])) == l,
{
    if l.len() == 0 {
        assert(split(Seq::<char>::empty(), '\n') =~= seq![Seq::<char>::empty()]);
        assert(strip_crs(split(Seq::<char>::empty(), '\n').drop_last()) =~= Seq::<
            Seq<char>,
        >::empty());
    } else {
        lemma_split_join(l, '\n');
        let p = split(join(l, seq!['\n']), '\n');
        assert(p == l);
        assert(strip_crs(p.drop_last()) =~= l.drop_last());
        assert(l.drop_last().push(l.last()) =~= l);
    }
}


// ─────────────────────────── lemmas on trims and lines ───────────────────────────

proof fn lemma_lead_drop_last(s: Seq<char>, k: CharClass)
    requires
        lead(s, k) < s.len(),
    ensures
        lead(s.drop_last(), k) == lead(s, k),
    decreases s.len(),
{
    if s.len() > 0 && k.admits(s[0]) {
        assert(s.drop_last().drop_first() =~= s.drop_first().drop_last());
        lemma_lead_drop_last(s.drop_first(), k);
        assert(s.drop_last()[0] == s[0]);
    } else if s.len() >= 2 {
        assert(s.drop_last()[0] == s[0]);
    }
}

proof fn lemma_lead_all(s: Seq<char>, k: CharClass)
    requires
        lead(s, k) == s.len(),
        s.len() > 0,
    ensures
        lead(s.drop_last(), k) == s.len() - 1,
    decreases s.len(),
{
    if s.len() > 1 {
        assert(k.admits(s[0]));
        assert(s.drop_last().drop_first() =~= s.drop_first().drop_last());
        lemma_lead_all(s.drop_first(), k);
        assert(s.drop_last()[0] == s[0]);
    }
}

/// Removing a trailing character of the class does not change the trim.
pub proof fn lemma_trim_drop_last(l: Seq<char>, k: CharClass)
    requires
        l.len() > 0,
        k.admits(l.last()),
    ensures
        trim(l.drop_last(), k) == trim(l, k),
{
    lemma_lead_bound(l, k);
    if lead(l, k) == l.len() {
        lemma_lead_all(l, k);
        assert(trim_start(l, k) =~= Seq::<char>::empty());
        assert(trim_start(l.drop_last(), k) =~= Seq::<char>::empty());
        assert(trail(Seq::<char>::empty(), k) == 0);
    } else {
        lemma_lead_drop_last(l, k);
        let a = lead(l, k);
        let t = trim_start(l, k);
        assert(trim_start(l.drop_last(), k) =~= t.drop_last());
        assert(t.len() > 0);
        assert(t.last() == l.last());
        assert(trail(t, k) == 1 + trail(t.drop_last(), k));
        lemma_trail_bound(t.drop_last(), k);
        assert(t.take(t.len() - trail(t, k)) =~= t.drop_last().take(t.drop_last().len() - trail(t.drop_last(), k)));
    }
}

pub proof fn lemma_split_no_char(s: Seq<char>, c: char)
    ensures
        none_contain(split(s, c), c),
    decreases s.len(),
{
    if s.len() > 0 {
        lemma_split_no_char(s.drop_last(), c);
        lemma_split_nonempty(s.drop_last(), c);
        let r = split(s.drop_last(), c);
        if s.last() != c {
            let w = r.last().push(s.last());
            assert(!w.contains(c)) by {
                if w.contains(c) {
                    let i = choose|i: int| 0 <= i < w.len() && w[i] == c;
                    assert(r.last()[i] == c);
                    assert(r[r.len() - 1].contains(c));
                }
            }
            assert forall|i: int| 0 <= i < split(s, c).len() implies !(#[trigger] split(s, c)[i]).contains(c) by {
                if i < r.len() - 1 {
                    assert(split(s, c)[i] == r[i]);
                }
            }
        } else {
            assert forall|i: int| 0 <= i < split(s, c).len() implies !(#[trigger] split(s, c)[i]).contains(c) by {
                if i < r.len() {
                    assert(split(s, c)[i] == r[i]);
                } else {
                    assert(split(s, c)[i] =~= Seq::<char>::empty());
                }
            }
        }
    }
}

/// No line holds a newline.
pub proof fn lemma_lines_no_newline(s: Seq<char>)
    ensures
        none_contain(lines(s), '\n'),
{
    lemma_split_no_char(s, '\n');
    lemma_split_nonempty(s, '\n');
    let p = split(s, '\n');
    assert forall|i: int| 0 <= i < lines(s).len() implies !(#[trigger] lines(s)[i]).contains('\n') by {
        if i < p.len() - 1 {
            assert(lines(s)[i] == strip_cr(p[i]));
            assert(!p[i].contains('\n'));
            if strip_cr(p[i]).contains('\n') {
                let j = choose|j: int| 0 <= j < strip_cr(p[i]).len() && strip_cr(p[i])[j] == '\n';
                assert(p[i][j] == '\n');
            }
        } else {
            assert(lines(s)[i] == p.last());
            assert(p[p.len() - 1] == p.last());
        }
    }
}

/// Each line of joined pieces is one of the pieces, perhaps without a trailing
/// carriage return.
pub proof fn lemma_lines_of_join(l: Seq<Seq<char>>)
    requires
        none_contain(l, '\n'),
    ensures
        forall|x: Seq<char>| #[trigger] lines(join(l, seq!['\n'])).contains(x) ==> exists|i: int|
            0 <= i < l.len() && (x == l[i] || x == strip_cr(l[i])),
{
    if l.len() == 0 {
        assert(split(Seq::<char>::empty(), '\n') =~= seq![Seq::<char>::empty()]);
        assert(lines(join(l, seq!['\n'])) =~= Seq::<Seq<char>>::empty());
    } else {
        lemma_split_join(l, '\n');
        assert forall|x: Seq<char>| #[trigger] lines(join(l, seq!['\n'])).contains(x) implies exists|i: int|
            0 <= i < l.len() && (x == l[i] || x == strip_cr(l[i])) by {
            let ls = lines(join(l, seq!['\n']));
            let t = choose|t: int| 0 <= t < ls.len() && ls[t] == x;
            if t < l.len() - 1 {
                assert(x == strip_cr(l[t]));
            } else {
                assert(x == l[l.len() - 1]);
            }
        }
    }
}

// ───────────────────────────────── numbers ───────────────────────────────────

pub open spec fn is_digit(c: char) -> bool {
    '0' <= c && c <= '9'
}

/// The value of a string of decimal digits.
pub open spec fn dec_value(s: Seq<char>) -> nat
    decreases s.len(),
{
    if s.len() == 0 {
        0
    } else {
        dec_value(s.drop_last()) * 10 + ((s.last() as u32) - ('0' as u32)) as nat
    }
}

/// The digits after an optional leading `+`.
pub open spec fn unsigned_digits(s: Seq<char>) -> Seq<char> {
    if s.len() > 0 && s[0] == '+' {
        s.drop_first()
    } else {
        s
    }
}

/// `str::parse::<u64>`: an optional `+`, then at least one decimal digit and
/// nothing else, of value at most `u64::MAX`.
pub open spec fn spec_parse_u64(s: Seq<char>) -> Option<u64> {
    let d = unsigned_digits(s);
    if d.len() > 0 && (forall|i: int| 0 <= i < d.len() ==> is_digit(#[trigger] d[i])) && dec_value(d)
        <= u64::MAX {
        Some(dec_value(d) as u64)
    } else {
        None
    }
}

pub fn parse_u64(s: &Vec<char>) -> (r: Option<u64>)
    ensures
        r == spec_parse_u64(s@),
{
    let start: usize = if s.len() > 0 && s[0] == '+' { 1 } else { 0 };
    let ghost d = unsigned_digits(s@);
    assert(d =~= s@.skip(start as int));
    if start >= s.len() {
        return None;
    }
    let mut acc: u64 = 0;
    let mut i: usize = start;
    assert(d.take(0) =~= Seq::<char>::empty());
    while i < s.len()
        invariant
            start <= i <= s.len(),
            d == s@.skip(start as int),
            d == unsigned_digits(s@),
            forall|j: int| 0 <= j < i - start ==> is_digit(#[trigger] d[j]),
            acc as nat == dec_value(d.take(i - start)),
        decreases s.len() - i,
    {
        let c = s[i];
        if !('0' <= c && c <= '9') {
            assert(d[i - start] == c);
            assert(!is_digit(d[i - start]));
            assert(!(forall|j: int| 0 <= j < d.len() ==> is_digit(#[trigger] d[j])));
            return None;
        }
        let digit = ((c as u32) - ('0' as u32)) as u64;
        assert(d.take(i + 1 - start).drop_last() =~= d.take(i - start));
        assert(d.take(i + 1 - start).last() == c);
        if acc > (u64::MAX - digit) / 10 {
            proof {
                assert(dec_value(d.take(i + 1 - start)) > u64::MAX) by (nonlinear_arith)
                    requires
                        acc > (u64::MAX - digit) / 10,
                        dec_value(d.take(i + 1 - start)) == acc * 10 + digit,
                        digit <= 9,
                ;
            }
            proof {
                if forall|j: int| 0 <= j < d.len() ==> is_digit(#[trigger] d[j]) {
                    lemma_dec_value_prefix(d, i + 1 - start, d.len() as int);
                    assert(d.take(d.len() as int) =~= d);
                }
            }
            return None;
        }
        assert(acc * 10 + digit <= u64::MAX) by (nonlinear_arith)
            requires
                acc <= (u64::MAX - digit) / 10,
                digit <= 9,
        ;
        acc = acc * 10 + digit;
        i = i + 1;
    }
    assert(d.take(s.len() - start) =~= d);
    Some(acc)
}

pub proof fn lemma_dec_value_prefix(d: Seq<char>, a: int, b: int)
    requires
        0 <= a <= b <= d.len(),
        forall|j: int| 0 <= j < b ==> is_digit(#[trigger] d[j]),
    ensures
        dec_value(d.take(a)) <= dec_value(d.take(b)),
    decreases b - a,
{
    if a < b {
        lemma_dec_value_prefix(d, a, b - 1);
        assert(d.take(b).drop_last() =~= d.take(b - 1));
        assert(d[b - 1] == d.take(b).last());
        assert(is_digit(d[b - 1]));
        let x = dec_value(d.take(b - 1));
        assert(dec_value(d.take(b)) >= x) by (nonlinear_arith)
            requires
                dec_value(d.take(b)) == x * 10 + ((d[b - 1] as u32) - ('0' as u32)) as nat,
        ;
    }
}

} // verus!
