//! The `.vex` configuration language: blocks of quoted entries under a key.
//!
//! ```text
//! key {
//!   "entry"
//!   "entry0"
//! }
//! ```

use vstd::prelude::*;
use crate::text::{
    is_ws, join, lead, trail, trim_start, line_safe, lemma_lines_join, none_contain, matches_at, strip_cr,
    chars_eq, chars_of, copy_strs, lines, lines_of, str_views, strings_of, starts_with, trim, trim_end, trim_end_of,
    trim_of, trim_ws, views, CharClass, split, strip_crs, lemma_split_at_sep, lemma_split_append,
    lemma_split_nonempty, lemma_split_join, lemma_lines_no_newline, lemma_trim_drop_last,
    lemma_trim_idempotent,
};

verus! {

/// The parsed form of a `.vex` file: each key with its list of entries.
pub struct VexMap {
    keys: Vec<Vec<char>>,
    vals: Vec<Vec<Vec<char>>>,
}

impl VexMap {
    pub closed spec fn key_views(&self) -> Seq<Seq<char>> {
        views(self.keys@)
    }

    pub closed spec fn val_views(&self) -> Seq<Seq<Seq<char>>> {
        self.vals@.map_values(|v: Vec<Vec<char>>| views(v@))
    }

    /// Each key once, and one entry list per key.
    pub closed spec fn wf(&self) -> bool {
        &&& self.keys.len() == self.vals.len()
        &&& self.key_views().no_duplicates()
    }
}

impl View for VexMap {
    type V = Map<Seq<char>, Seq<Seq<char>>>;

    closed spec fn view(&self) -> Map<Seq<char>, Seq<Seq<char>>> {
        Map::new(
            |k: Seq<char>| self.key_views().contains(k),
            |k: Seq<char>| self.val_views()[self.key_views().index_of(k)],
        )
    }
}

impl VexMap {
    /// The empty map.
    pub fn new() -> (m: VexMap)
        ensures
            m.wf(),
            m@ == Map::<Seq<char>, Seq<Seq<char>>>::empty(),
    {
        let m = VexMap { keys: Vec::new(), vals: Vec::new() };
        assert(m@ =~= Map::<Seq<char>, Seq<Seq<char>>>::empty());
        m
    }

    /// Position of a key, if present.
    fn find(&self, key: &Vec<char>) -> (r: Option<usize>)
        requires
            self.wf(),
        ensures
            match r {
                Some(i) => i < self.keys.len() && self.key_views()[i as int] == key@,
                None => !self.key_views().contains(key@),
            },
    {
        let mut i: usize = 0;
        while i < self.keys.len()
            invariant
                i <= self.keys.len(),
                forall|j: int| 0 <= j < i ==> self.key_views()[j] != key@,
            decreases self.keys.len() - i,
        {
            if chars_eq(&self.keys[i], key) {
                return Some(i);
            }
            i = i + 1;
        }
        None
    }

    /// Sets the entries of `key`, replacing what it had (as `HashMap::insert` does).
    pub fn insert(&mut self, key: Vec<char>, vals: Vec<Vec<char>>)
        requires
            old(self).wf(),
        ensures
            final(self).wf(),
            final(self)@ == old(self)@.insert(key@, views(vals@)),
    {
        let ghost old_keys = self.key_views();
        let ghost old_vals = self.val_views();
        let ghost kv = key@;
        let ghost vv = views(vals@);
        match self.find(&key) {
            Some(i) => {
                let ghost i_int = i as int;
                self.vals.set(i, vals);
                assert(self.key_views() == old_keys);
                assert(self.val_views() =~= old_vals.update(i_int, vv));
                assert forall|k: Seq<char>| #[trigger] self@.contains_key(k) == old(self)@.insert(
                    kv,
                    vv,
                ).contains_key(k) by {}
                assert forall|k: Seq<char>| self@.contains_key(k) implies #[trigger] self@[k]
                    == old(self)@.insert(kv, vv)[k] by {
                    let j = old_keys.index_of(k);
                    assert(0 <= j < old_keys.len() && old_keys[j] == k);
                    if k == kv {
                        assert(j == i_int);
                    } else {
                        assert(j != i_int);
                    }
                }
                assert(self@ =~= old(self)@.insert(kv, vv));
            },
            None => {
                self.keys.push(key);
                self.vals.push(vals);
                let ghost n = old_keys.len() as int;
                assert(self.key_views() =~= old_keys.push(kv));
                assert(self.val_views() =~= old_vals.push(vv));
                assert forall|a: int, b: int|
                    0 <= a < self.key_views().len() && 0 <= b < self.key_views().len() && a
                        != b implies self.key_views()[a] != self.key_views()[b] by {
                    if a == n {
                        assert(self.key_views()[b] == old_keys[b]);
                        if old_keys[b] == kv {
                            assert(old_keys.contains(kv));
                        }
                    } else if b == n {
                        assert(self.key_views()[a] == old_keys[a]);
                        if old_keys[a] == kv {
                            assert(old_keys.contains(kv));
                        }
                    } else {
                        assert(self.key_views()[a] == old_keys[a]);
                        assert(self.key_views()[b] == old_keys[b]);
                    }
                }
                assert forall|k: Seq<char>| #[trigger] self@.contains_key(k) == old(self)@.insert(
                    kv,
                    vv,
                ).contains_key(k) by {
                    if old_keys.contains(k) {
                        let j = old_keys.index_of(k);
                        assert(self.key_views()[j] == k);
                        assert(self.key_views().contains(k));
                    }
                    if k == kv {
                        assert(self.key_views()[n] == kv);
                        assert(self.key_views().contains(k));
                    }
                    if self.key_views().contains(k) && k != kv {
                        let j = self.key_views().index_of(k);
                        assert(j < n);
                        assert(old_keys[j] == k);
                        assert(old_keys.contains(k));
                    }
                }
                assert forall|k: Seq<char>| self@.contains_key(k) implies #[trigger] self@[k]
                    == old(self)@.insert(kv, vv)[k] by {
                    let j = self.key_views().index_of(k);
                    if k == kv {
                        assert(self.key_views()[n] == kv);
                        assert(j == n);
                    } else {
                        assert(j != n);
                        let j0 = old_keys.index_of(k);
                        assert(old_keys[j] == k);
                        assert(j0 == j);
                    }
                }
                assert(self@ =~= old(self)@.insert(kv, vv));
            },
        }
    }

    /// The entries of `key` as characters, if present.
    pub fn get_chars(&self, key: &Vec<char>) -> (r: Option<Vec<Vec<char>>>)
        requires
            self.wf(),
        ensures
            match r {
                Some(v) => self@.contains_key(key@) && views(v@) == self@[key@],
                None => !self@.contains_key(key@),
            },
    {
        match self.find(key) {
            Some(i) => {
                let out = copy_strs(&self.vals[i]);
                proof {
                    let ix = self.key_views().index_of(key@);
                    assert(self.key_views()[i as int] == key@);
                    assert(ix == i as int);
                }
                Some(out)
            },
            None => None,
        }
    }
}

// ─────────────────────────────── the parser ───────────────────────────────

/// What the parser carries from line to line.
pub struct ParseState {
    pub map: Map<Seq<char>, Seq<Seq<char>>>,
    pub key: Option<Seq<char>>,
    pub values: Seq<Seq<char>>,
}

pub open spec fn start_state() -> ParseState {
    ParseState { map: Map::empty(), key: None, values: seq![] }
}

/// One line of input: blank lines and `//` comments are skipped, `}` closes the
/// open key (storing the entries gathered so far), a line that starts with `"`
/// is an entry (quotes trimmed), and any other line opens a key (a trailing `{`
/// and surrounding whitespace removed). Entries gathered before any key count
/// toward the next key that is closed.
pub open spec fn step(st: ParseState, raw: Seq<char>) -> ParseState {
    let l = trim_ws(raw);
    if l.len() == 0 || starts_with(l, seq!['/', '/']) {
        st
    } else if l == seq!['}'] {
        match st.key {
            Some(k) => ParseState { map: st.map.insert(k, st.values), key: None, values: seq![] },
            None => st,
        }
    } else if l[0] == '"' {
        ParseState { values: st.values.push(trim(l, CharClass::Exactly('"'))), ..st }
    } else {
        ParseState { key: Some(trim_ws(trim_end(l, CharClass::Exactly('{')))), ..st }
    }
}

pub open spec fn run(ls: Seq<Seq<char>>) -> ParseState
    decreases ls.len(),
{
    if ls.len() == 0 {
        start_state()
    } else {
        step(run(ls.drop_last()), ls.last())
    }
}

/// The meaning of a `.vex` text.
pub open spec fn spec_parse_vex(input: Seq<char>) -> Map<Seq<char>, Seq<Seq<char>>> {
    run(lines(input)).map
}

/// Parses the text of a `.vex` file.
pub fn parse_vex(input: &str) -> (m: VexMap)
    ensures
        m.wf(),
        m@ == spec_parse_vex(input@),
{
    let chars = chars_of(input);
    let ls = lines_of(&chars);
    let mut map = VexMap::new();
    let mut key: Option<Vec<char>> = None;
    let mut values: Vec<Vec<char>> = Vec::new();
    let mut i: usize = 0;
    assert(views(values@) =~= Seq::<Seq<char>>::empty());
    assert(views(ls@).take(0) =~= Seq::<Seq<char>>::empty());
    while i < ls.len()
        invariant
            i <= ls.len(),
            map.wf(),
            views(ls@) == lines(input@),
            run(views(ls@).take(i as int)) == (ParseState {
                map: map@,
                key: match key {
                    Some(k) => Some(k@),
                    None => None,
                },
                values: views(values@),
            }),
        decreases ls.len() - i,
    {
        assert(views(ls@).take(i + 1).drop_last() =~= views(ls@).take(i as int));
        assert(views(ls@).take(i + 1).last() == ls@[i as int]@);
        let l = trim_of(&ls[i], CharClass::Whitespace);
        let is_comment = l.len() >= 2 && l[0] == '/' && l[1] == '/';
        assert(is_comment == starts_with(l@, seq!['/', '/'])) by {
            if l.len() >= 2 {
                assert(l@.subrange(0, 2) =~= seq![l@[0], l@[1]]);
            }
        }
        if l.len() == 0 || is_comment {
        } else if l.len() == 1 && l[0] == '}' {
            assert(l@ =~= seq!['}']);
            match key {
                Some(k) => {
                    let vs = values;
                    values = Vec::new();
                    map.insert(k, vs);
                    key = None;
                    assert(views(values@) =~= Seq::<Seq<char>>::empty());
                },
                None => {},
            }
        } else if l[0] == '"' {
            assert(l@ != seq!['}']);
            let v = trim_of(&l, CharClass::Exactly('"'));
            let ghost before = views(values@);
            values.push(v);
            assert(views(values@) =~= before.push(v@));
        } else {
            assert(l@ != seq!['}']) by {
                if l@ == seq!['}'] {
                    assert(l@.len() == 1 && l@[0] == '}');
                }
            }
            let t = trim_end_of(&l, CharClass::Exactly('{'));
            let k = trim_of(&t, CharClass::Whitespace);
            key = Some(k);
        }
        i = i + 1;
    }
    assert(views(ls@).take(ls.len() as int) =~= views(ls@));
    map
}


// ─────────────────────────── the documented form ───────────────────────────

/// The lines after a state, read from the first.
pub open spec fn run_from(st: ParseState, ls: Seq<Seq<char>>) -> ParseState
    decreases ls.len(),
{
    if ls.len() == 0 {
        st
    } else {
        step(run_from(st, ls.drop_last()), ls.last())
    }
}

proof fn lemma_run_from_concat(st: ParseState, a: Seq<Seq<char>>, b: Seq<Seq<char>>)
    ensures
        run_from(st, a + b) == run_from(run_from(st, a), b),
    decreases b.len(),
{
    if b.len() == 0 {
        assert(a + b =~= a);
    } else {
        lemma_run_from_concat(st, a, b.drop_last());
        assert((a + b).drop_last() =~= a + b.drop_last());
        assert((a + b).last() == b.last());
    }
}

proof fn lemma_run_is_run_from(ls: Seq<Seq<char>>)
    ensures
        run(ls) == run_from(start_state(), ls),
    decreases ls.len(),
{
    if ls.len() > 0 {
        lemma_run_is_run_from(ls.drop_last());
    }
}

/// A key that the documented form holds: one line, no surrounding whitespace,
/// not read as an entry, a comment or a closing brace, not ending in `{`.
pub open spec fn key_ok(k: Seq<char>) -> bool {
    &&& k.len() > 0
    &&& !is_ws(k[0])
    &&& !is_ws(k.last())
    &&& k[0] != '"'
    &&& k.last() != '{'
    &&& !starts_with(k, seq!['/', '/'])
    &&& !k.contains('\n')
}

/// An entry that the documented form holds: one line, not starting or ending
/// with a quote.
pub open spec fn entry_ok(v: Seq<char>) -> bool {
    &&& !v.contains('\n')
    &&& (v.len() == 0 || (v[0] != '"' && v.last() != '"'))
}

pub open spec fn key_line(k: Seq<char>) -> Seq<char> {
    k + seq![' ', '{']
}

pub open spec fn entry_line(v: Seq<char>) -> Seq<char> {
    seq![' ', ' ', '"'] + v + seq!['"']
}

pub open spec fn entry_lines(vs: Seq<Seq<char>>) -> Seq<Seq<char>> {
    vs.map_values(|v: Seq<char>| entry_line(v))
}

/// The lines of one block: `key {`, each entry quoted and indented, `}`.
pub open spec fn block_lines(k: Seq<char>, vs: Seq<Seq<char>>) -> Seq<Seq<char>> {
    seq![key_line(k)] + entry_lines(vs) + seq![seq!['}']]
}

/// The lines of several blocks, one after another.
pub open spec fn blocks_lines(bs: Seq<(Seq<char>, Seq<Seq<char>>)>) -> Seq<Seq<char>>
    decreases bs.len(),
{
    if bs.len() == 0 {
        Seq::empty()
    } else {
        blocks_lines(bs.drop_last()) + block_lines(bs.last().0, bs.last().1)
    }
}

/// What the blocks say: each key with its entries, a later block of a key
/// replacing an earlier one.
pub open spec fn blocks_map(bs: Seq<(Seq<char>, Seq<Seq<char>>)>) -> Map<Seq<char>, Seq<Seq<char>>>
    decreases bs.len(),
{
    if bs.len() == 0 {
        Map::empty()
    } else {
        blocks_map(bs.drop_last()).insert(bs.last().0, bs.last().1)
    }
}

pub open spec fn blocks_ok(bs: Seq<(Seq<char>, Seq<Seq<char>>)>) -> bool {
    forall|i: int| 0 <= i < bs.len() ==> key_ok(#[trigger] bs[i].0) && forall|j: int|
        0 <= j < bs[i].1.len() ==> entry_ok(#[trigger] bs[i].1[j])
}

proof fn lemma_step_key(st: ParseState, k: Seq<char>)
    requires
        key_ok(k),
    ensures
        step(st, key_line(k)) == (ParseState { key: Some(k), ..st }),
{
    let l = key_line(k);
    let w = CharClass::Whitespace;
    let b = CharClass::Exactly('{');
    assert(l[0] == k[0]);
    assert(lead(l, w) == 0);
    assert(l.last() == '{');
    assert(trail(l, w) == 0);
    assert(trim_ws(l) =~= l);
    assert(l.drop_last() =~= k + seq![' ']);
    assert(trail(l.drop_last(), b) == 0);
    assert(trail(l, b) == 1);
    assert(trim_end(l, b) =~= k + seq![' ']);
    let t = k + seq![' '];
    assert(t[0] == k[0]);
    assert(lead(t, w) == 0);
    assert(trim_start(t, w) =~= t);
    assert(t.drop_last() =~= k);
    assert(trail(k, w) == 0);
    assert(t.last() == ' ');
    assert(trail(t, w) == 1 + trail(t.drop_last(), w));
    assert(trail(t, w) == 1);
    assert(trim_end(t, w) =~= k);
    assert(trim_ws(t) =~= k);
    assert(l != seq!['}']) by {
        assert(l.len() >= 3);
    }
    assert(!starts_with(l, seq!['/', '/'])) by {
        if starts_with(l, seq!['/', '/']) {
            assert(l[0] == '/' && l[1] == '/');
            if k.len() >= 2 {
                assert(k.subrange(0, 2) =~= seq!['/', '/']);
            } else {
                assert(l[1] == ' ');
            }
        }
    }
}

proof fn lemma_step_entry(st: ParseState, v: Seq<char>)
    requires
        entry_ok(v),
    ensures
        step(st, entry_line(v)) == (ParseState { values: st.values.push(v), ..st }),
{
    let l = entry_line(v);
    let w = CharClass::Whitespace;
    let q = CharClass::Exactly('"');
    let l1 = l.drop_first();
    let l2 = l1.drop_first();
    assert(l1 =~= seq![' ', '"'] + v + seq!['"']);
    assert(l2 =~= seq!['"'] + v + seq!['"']);
    assert(l[0] == ' ');
    assert(lead(l, w) == 1 + lead(l1, w));
    assert(l1[0] == ' ');
    assert(lead(l1, w) == 1 + lead(l2, w));
    assert(l2[0] == '"');
    assert(lead(l2, w) == 0);
    assert(lead(l, w) == 2);
    assert(l.last() == '"');
    let t = trim_start(l, w);
    assert(t =~= seq!['"'] + v + seq!['"']);
    assert(t.last() == '"');
    assert(trail(t, w) == 0);
    assert(trim_ws(l) =~= t);
    assert(t[0] == '"');
    assert(t != seq!['}']);
    assert(!starts_with(t, seq!['/', '/'])) by {
        if starts_with(t, seq!['/', '/']) {
            assert(t.subrange(0, 2)[0] == t[0]);
        }
    }
    if v.len() == 0 {
        assert(t =~= seq!['"', '"']);
        let t1 = t.drop_first();
        let t2 = t1.drop_first();
        assert(t1 =~= seq!['"']);
        assert(t2 =~= Seq::<char>::empty());
        assert(lead(t, q) == 1 + lead(t1, q));
        assert(t1[0] == '"');
        assert(lead(t1, q) == 1 + lead(t2, q));
        assert(lead(t2, q) == 0);
        assert(lead(t, q) == 2);
        assert(trim_start(t, q) =~= Seq::<char>::empty());
        assert(trim(t, q) =~= v);
    } else {
        assert(t.drop_first() =~= v + seq!['"']);
        assert((v + seq!['"'])[0] == v[0]);
        assert(lead(t.drop_first(), q) == 0);
        assert(lead(t, q) == 1);
        let u = trim_start(t, q);
        assert(u =~= v + seq!['"']);
        assert(u.drop_last() =~= v);
        assert(trail(v, q) == 0);
        assert(trail(u, q) == 1);
        assert(trim(t, q) =~= v);
    }
}

proof fn lemma_run_entries(st: ParseState, vs: Seq<Seq<char>>)
    requires
        forall|j: int| 0 <= j < vs.len() ==> entry_ok(#[trigger] vs[j]),
    ensures
        run_from(st, entry_lines(vs)) == (ParseState { values: st.values + vs, ..st }),
    decreases vs.len(),
{
    if vs.len() == 0 {
        assert(entry_lines(vs) =~= Seq::<Seq<char>>::empty());
        assert(st.values + vs =~= st.values);
    } else {
        let v2 = vs.drop_last();
        lemma_run_entries(st, v2);
        assert(entry_lines(vs).drop_last() =~= entry_lines(v2));
        assert(entry_lines(vs).last() == entry_line(vs.last()));
        assert(entry_ok(vs[vs.len() - 1]));
        lemma_step_entry(ParseState { values: st.values + v2, ..st }, vs.last());
        assert((st.values + v2).push(vs.last()) =~= st.values + vs);
    }
}

proof fn lemma_run_block(m: Map<Seq<char>, Seq<Seq<char>>>, k: Seq<char>, vs: Seq<Seq<char>>)
    requires
        key_ok(k),
        forall|j: int| 0 <= j < vs.len() ==> entry_ok(#[trigger] vs[j]),
    ensures
        run_from(ParseState { map: m, key: None, values: seq![] }, block_lines(k, vs)) == (ParseState {
            map: m.insert(k, vs),
            key: None,
            values: seq![],
        }),
{
    let st = ParseState { map: m, key: None, values: seq![] };
    let a = seq![key_line(k)];
    lemma_run_from_concat(st, a + entry_lines(vs), seq![seq!['}']]);
    lemma_run_from_concat(st, a, entry_lines(vs));
    assert(a.drop_last() =~= Seq::<Seq<char>>::empty());
    assert(run_from(st, a.drop_last()) == st);
    assert(a.last() == key_line(k));
    assert(run_from(st, a) == step(st, key_line(k)));
    lemma_step_key(st, k);
    let sk = ParseState { key: Some(k), ..st };
    assert(run_from(st, a) == sk);
    lemma_run_entries(sk, vs);
    assert(Seq::<Seq<char>>::empty() + vs =~= vs);
    let se = ParseState { values: vs, ..sk };
    assert(run_from(sk, entry_lines(vs)) == se);
    let c = seq![seq!['}']];
    assert(c.drop_last() =~= Seq::<Seq<char>>::empty());
    assert(run_from(se, c.drop_last()) == se);
    assert(c.last() == seq!['}']);
    assert(run_from(se, c) == step(se, seq!['}']));
    let r: Seq<char> = seq!['}'];
    assert(trim_ws(r) =~= r) by {
        assert(lead(r, CharClass::Whitespace) == 0);
        assert(trim_start(r, CharClass::Whitespace) =~= r);
        assert(trail(r, CharClass::Whitespace) == 0);
    }
    assert(!starts_with(r, seq!['/', '/']));
    assert(step(se, r) == (ParseState { map: m.insert(k, vs), key: None, values: seq![] }));
    assert(block_lines(k, vs) == a + entry_lines(vs) + c);
}

proof fn lemma_run_blocks(bs: Seq<(Seq<char>, Seq<Seq<char>>)>)
    requires
        blocks_ok(bs),
    ensures
        run(blocks_lines(bs)) == (ParseState { map: blocks_map(bs), key: None, values: seq![] }),
    decreases bs.len(),
{
    lemma_run_is_run_from(blocks_lines(bs));
    if bs.len() == 0 {
        assert(start_state() == (ParseState { map: blocks_map(bs), key: None, values: seq![] }));
    } else {
        let b2 = bs.drop_last();
        assert(blocks_ok(b2)) by {
            assert forall|i: int| 0 <= i < b2.len() implies key_ok(#[trigger] b2[i].0) && forall|j: int|
                0 <= j < b2[i].1.len() ==> entry_ok(#[trigger] b2[i].1[j]) by {
                assert(b2[i] == bs[i]);
            }
        }
        lemma_run_blocks(b2);
        lemma_run_is_run_from(blocks_lines(b2));
        lemma_run_from_concat(start_state(), blocks_lines(b2), block_lines(bs.last().0, bs.last().1));
        assert(bs[bs.len() - 1] == bs.last());
        lemma_run_block(blocks_map(b2), bs.last().0, bs.last().1);
    }
}

proof fn lemma_blocks_line_safe(bs: Seq<(Seq<char>, Seq<Seq<char>>)>)
    requires
        blocks_ok(bs),
    ensures
        line_safe(blocks_lines(bs)),
    decreases bs.len(),
{
    let ls = blocks_lines(bs);
    if bs.len() > 0 {
        let b2 = bs.drop_last();
        assert(blocks_ok(b2)) by {
            assert forall|i: int| 0 <= i < b2.len() implies key_ok(#[trigger] b2[i].0) && forall|j: int|
                0 <= j < b2[i].1.len() ==> entry_ok(#[trigger] b2[i].1[j]) by {
                assert(b2[i] == bs[i]);
            }
        }
        lemma_blocks_line_safe(b2);
        let k = bs.last().0;
        let vs = bs.last().1;
        assert(bs[bs.len() - 1] == bs.last());
        let bl = block_lines(k, vs);
        let p = blocks_lines(b2);
        assert(ls == p + bl);
        assert forall|i: int| 0 <= i < ls.len() implies !(#[trigger] ls[i]).contains('\n') && strip_cr(ls[i]) == ls[i] by {
            if i < p.len() {
                assert(ls[i] == p[i]);
            } else {
                let t = i - p.len();
                assert(ls[i] == bl[t]);
                if t == 0 {
                    let l = key_line(k);
                    assert(l.last() == '{');
                    if l.contains('\n') {
                        let x = choose|x: int| 0 <= x < l.len() && l[x] == '\n';
                        assert(x < k.len());
                        assert(k[x] == '\n');
                        assert(k.contains('\n'));
                    }
                } else if t <= vs.len() {
                    let v = vs[t - 1];
                    assert(entry_ok(v));
                    let l = entry_line(v);
                    assert(bl[t] == l);
                    assert(l.last() == '"');
                    if l.contains('\n') {
                        let x = choose|x: int| 0 <= x < l.len() && l[x] == '\n';
                        assert(3 <= x < 3 + v.len());
                        assert(v[x - 3] == '\n');
                        assert(v.contains('\n'));
                    }
                } else {
                    assert(bl[t] == seq!['}']);
                    assert(!seq!['}'].contains('\n')) by {
                        if seq!['}'].contains('\n') {
                            let x = choose|x: int| 0 <= x < 1 && seq!['}'][x] == '\n';
                        }
                    }
                }
            }
        }
        assert(ls.last() == seq!['}']);
    }
}

/// The documented form: a text of blocks `key {`, one quoted entry per line,
/// `}` is read as each key with its entries, a later block of a key replacing an
/// earlier one.
pub proof fn lemma_parse_blocks(bs: Seq<(Seq<char>, Seq<Seq<char>>)>)
    requires
        blocks_ok(bs),
    ensures
        spec_parse_vex(join(blocks_lines(bs), seq!['\n'])) == blocks_map(bs),
{
    lemma_blocks_line_safe(bs);
    lemma_lines_join(blocks_lines(bs));
    lemma_run_blocks(bs);
}

/// Lines written one after another, each ended by `\n`.
pub open spec fn terminated(ls: Seq<Seq<char>>) -> Seq<char>
    decreases ls.len(),
{
    if ls.len() == 0 {
        Seq::empty()
    } else {
        terminated(ls.drop_last()) + ls.last() + seq!['\n']
    }
}

proof fn lemma_split_terminated(ls: Seq<Seq<char>>)
    requires
        none_contain(ls, '\n'),
    ensures
        split(terminated(ls), '\n') == ls.push(Seq::<char>::empty()),
    decreases ls.len(),
{
    let e = Seq::<char>::empty();
    if ls.len() == 0 {
        assert(split(e, '\n') =~= seq![e]);
        assert(ls.push(e) =~= seq![e]);
    } else {
        let l2 = ls.drop_last();
        assert forall|i: int| 0 <= i < l2.len() implies !(#[trigger] l2[i]).contains('\n') by {
            assert(l2[i] == ls[i]);
        }
        lemma_split_terminated(l2);
        let t2 = terminated(l2);
        let l = ls.last();
        assert(!ls[ls.len() - 1].contains('\n'));
        lemma_split_append(t2, l, '\n');
        let sp = l2.push(e);
        assert(sp.update(sp.len() - 1, sp.last() + l) =~= ls);
        lemma_split_at_sep(t2 + l, e, '\n');
        assert(t2 + l + seq!['\n'] + e =~= terminated(ls));
        assert(split(e, '\n') =~= seq![e]);
        assert(ls + seq![e] =~= ls.push(e));
    }
}

/// Reading lines that each end in `\n` gives them back, when none holds a
/// newline or ends in a carriage return.
pub proof fn lemma_lines_terminated(ls: Seq<Seq<char>>)
    requires
        none_contain(ls, '\n'),
        forall|i: int| 0 <= i < ls.len() ==> strip_cr(#[trigger] ls[i]) == ls[i],
    ensures
        lines(terminated(ls)) == ls,
{
    lemma_split_terminated(ls);
    let p = ls.push(Seq::<char>::empty());
    assert(p.drop_last() =~= ls);
    assert(strip_crs(ls) =~= ls);
}

/// The documented form, each line ended by `\n` (the last too), reads the same.
pub proof fn lemma_parse_blocks_terminated(bs: Seq<(Seq<char>, Seq<Seq<char>>)>)
    requires
        blocks_ok(bs),
    ensures
        spec_parse_vex(terminated(blocks_lines(bs))) == blocks_map(bs),
{
    let ls = blocks_lines(bs);
    lemma_blocks_line_safe(bs);
    assert forall|i: int| 0 <= i < ls.len() implies strip_cr(#[trigger] ls[i]) == ls[i] by {
        if i == ls.len() - 1 {
            assert(ls.last() == seq!['}']);
        }
    }
    lemma_lines_terminated(ls);
    lemma_run_blocks(bs);
}

/// A line is read as its text with all surrounding whitespace removed
/// (`str::trim`): any leading or trailing whitespace, tabs included, changes
/// nothing.
pub proof fn lemma_line_read_trimmed(st: ParseState, raw: Seq<char>)
    ensures
        step(st, raw) == step(st, trim_ws(raw)),
{
    lemma_trim_idempotent(raw, CharClass::Whitespace);
}

proof fn lemma_run_trimmed(st: ParseState, ls: Seq<Seq<char>>)
    ensures
        run_from(st, ls.map_values(|l: Seq<char>| trim_ws(l))) == run_from(st, ls),
    decreases ls.len(),
{
    let t = ls.map_values(|l: Seq<char>| trim_ws(l));
    if ls.len() > 0 {
        lemma_run_trimmed(st, ls.drop_last());
        assert(t.drop_last() =~= ls.drop_last().map_values(|l: Seq<char>| trim_ws(l)));
        assert(t.last() == trim_ws(ls.last()));
        lemma_line_read_trimmed(run_from(st, ls.drop_last()), ls.last());
    }
}

/// The documented form however it is indented: a text whose lines, each with
/// its surrounding whitespace removed, are those of the blocks reads as the
/// blocks (each key with its entries, a later block of a key replacing an
/// earlier one).
pub proof fn lemma_parse_blocks_any_indentation(text: Seq<char>, bs: Seq<(Seq<char>, Seq<Seq<char>>)>)
    requires
        blocks_ok(bs),
        lines(text).map_values(|l: Seq<char>| trim_ws(l)) == blocks_lines(bs).map_values(|l: Seq<char>| trim_ws(l)),
    ensures
        spec_parse_vex(text) == blocks_map(bs),
{
    let st = start_state();
    lemma_run_is_run_from(lines(text));
    lemma_run_is_run_from(blocks_lines(bs));
    lemma_run_trimmed(st, lines(text));
    lemma_run_trimmed(st, blocks_lines(bs));
    lemma_run_blocks(bs);
}

/// A line read without its final carriage return means the same.
proof fn lemma_step_strip_cr(st: ParseState, l: Seq<char>)
    ensures
        step(st, strip_cr(l)) == step(st, l),
{
    if l.len() > 0 && l.last() == '\r' {
        lemma_trim_drop_last(l, CharClass::Whitespace);
    }
}

proof fn lemma_run_strip_crs(st: ParseState, ls: Seq<Seq<char>>)
    ensures
        run_from(st, strip_crs(ls)) == run_from(st, ls),
    decreases ls.len(),
{
    if ls.len() > 0 {
        lemma_run_strip_crs(st, ls.drop_last());
        assert(strip_crs(ls).drop_last() =~= strip_crs(ls.drop_last()));
        assert(strip_crs(ls).last() == strip_cr(ls.last()));
        lemma_step_strip_cr(run_from(st, ls.drop_last()), ls.last());
    }
}

/// Writing a text's lines back joined by `\n` leaves its meaning as it was.
pub proof fn lemma_parse_rejoined(content: Seq<char>)
    ensures
        spec_parse_vex(join(lines(content), seq!['\n'])) == spec_parse_vex(content),
{
    let l = lines(content);
    let t = join(l, seq!['\n']);
    lemma_run_is_run_from(l);
    lemma_run_is_run_from(lines(t));
    if l.len() == 0 {
        assert(t == Seq::<char>::empty());
        assert(split(t, '\n') =~= seq![Seq::<char>::empty()]);
        assert(lines(t) =~= Seq::<Seq<char>>::empty());
    } else {
        lemma_lines_no_newline(content);
        lemma_split_join(l, '\n');
        let st = start_state();
        let a = l.drop_last();
        let z = l.last();
        assert(l =~= a.push(z));
        lemma_run_strip_crs(st, a);
        let r = run_from(st, a);
        assert(run_from(st, l) == step(r, z));
        if z.len() == 0 {
            assert(lines(t) == strip_crs(a));
            assert(trim_ws(z) =~= z);
            assert(step(r, z) == r);
        } else {
            assert(lines(t) == strip_crs(a).push(z));
            assert(strip_crs(a).push(z).drop_last() =~= strip_crs(a));
        }
    }
}

/// Keys that are pairwise distinct.
pub open spec fn distinct_keys(bs: Seq<(Seq<char>, Seq<Seq<char>>)>) -> bool {
    forall|i: int, j: int| 0 <= i < j < bs.len() ==> #[trigger] bs[i].0 != #[trigger] bs[j].0
}

/// With distinct keys, the blocks give one key each, with its entries in order.
pub proof fn lemma_blocks_map_distinct(bs: Seq<(Seq<char>, Seq<Seq<char>>)>)
    requires
        distinct_keys(bs),
    ensures
        blocks_map(bs).dom().finite(),
        blocks_map(bs).dom().len() == bs.len(),
        forall|i: int| 0 <= i < bs.len() ==> #[trigger] blocks_map(bs).contains_key(bs[i].0)
            && blocks_map(bs)[bs[i].0] == bs[i].1,
        forall|k: Seq<char>| #[trigger] blocks_map(bs).contains_key(k) ==> exists|i: int| 0 <= i < bs.len() && bs[i].0 == k,
    decreases bs.len(),
{
    if bs.len() == 0 {
        assert(blocks_map(bs).dom() =~= Set::<Seq<char>>::empty());
    } else {
        let b2 = bs.drop_last();
        assert forall|i: int, j: int| 0 <= i < j < b2.len() implies #[trigger] b2[i].0 != #[trigger] b2[j].0 by {
            assert(b2[i] == bs[i] && b2[j] == bs[j]);
            assert(bs[i].0 != bs[j].0);
        }
        lemma_blocks_map_distinct(b2);
        let m2 = blocks_map(b2);
        let k = bs.last().0;
        assert(bs[bs.len() - 1] == bs.last());
        assert(!m2.contains_key(k)) by {
            if m2.contains_key(k) {
                let i = choose|i: int| 0 <= i < b2.len() && b2[i].0 == k;
                assert(b2[i] == bs[i]);
                assert(bs[i].0 != bs[bs.len() - 1].0);
            }
        }
        assert(blocks_map(bs).dom() =~= m2.dom().insert(k));
        assert forall|i: int| 0 <= i < bs.len() implies #[trigger] blocks_map(bs).contains_key(bs[i].0)
            && blocks_map(bs)[bs[i].0] == bs[i].1 by {
            if i < bs.len() - 1 {
                assert(b2[i] == bs[i]);
                assert(m2.contains_key(b2[i].0));
            }
        }
        assert forall|x: Seq<char>| #[trigger] blocks_map(bs).contains_key(x) implies exists|i: int| 0 <= i < bs.len() && bs[i].0 == x by {
            if x != k {
                assert(m2.contains_key(x));
                let i = choose|i: int| 0 <= i < b2.len() && b2[i].0 == x;
                assert(b2[i] == bs[i]);
            }
        }
    }
}

/// The entries listed under `key` in a `.vex` text; none when the key is absent.
pub open spec fn spec_values(content: Seq<char>, key: Seq<char>) -> Seq<Seq<char>> {
    let m = spec_parse_vex(content);
    if m.contains_key(key) {
        m[key]
    } else {
        Seq::empty()
    }
}

/// The entries listed under `key`; none when the key is absent.
pub fn get_values(parsed_config: &VexMap, key: &str) -> (res: Vec<String>)
    requires
        parsed_config.wf(),
    ensures
        str_views(res@) == (if parsed_config@.contains_key(key@) {
            parsed_config@[key@]
        } else {
            Seq::<Seq<char>>::empty()
        }),
{
    let k = chars_of(key);
    match parsed_config.get_chars(&k) {
        Some(v) => strings_of(&v),
        None => {
            let out: Vec<String> = Vec::new();
            assert(str_views(out@) =~= Seq::<Seq<char>>::empty());
            out
        },
    }
}

} // verus!
