//! Install manifests (`.vex_manifest`): the version that was built and the
//! files and directories the build put in place, so that they can be removed.
//!
//! ```text
//! V 0.1.0
//! D /home/user/.vex/lib/sample
//! F /home/user/.vex/bin/sample
//! ```

use vstd::prelude::*;
use crate::text::{
    chars_of, join, join_of, lines, lines_of, line_safe, lemma_lines_join, none_contain, push_all,
    slice_of, string_of, strip_cr, views, str_views,
};

verus! {

/// Something a build installed.
pub enum ManifestEntry {
    File(String),
    Dir(String),
}

/// The abstract value of a `ManifestEntry`.
pub enum EntryView {
    File(Seq<char>),
    Dir(Seq<char>),
}

impl View for ManifestEntry {
    type V = EntryView;

    open spec fn view(&self) -> EntryView {
        match self {
            ManifestEntry::File(p) => EntryView::File(p@),
            ManifestEntry::Dir(p) => EntryView::Dir(p@),
        }
    }
}

/// What a build of a package installed.
pub struct Manifest {
    pub version: String,
    pub entries: Vec<ManifestEntry>,
}

pub open spec fn entry_views(es: Seq<ManifestEntry>) -> Seq<EntryView> {
    es.map_values(|e: ManifestEntry| e@)
}

// ──────────────────────────────── the text format ─────────────────────────────

/// The number of UTF-8 bytes of a character.
pub open spec fn utf8_width(c: char) -> nat {
    if (c as u32) < 0x80 {
        1
    } else if (c as u32) < 0x800 {
        2
    } else if (c as u32) < 0x10000 {
        3
    } else {
        4
    }
}

/// The number of UTF-8 bytes of a string (`str::len`).
pub open spec fn byte_len(s: Seq<char>) -> nat
    decreases s.len(),
{
    if s.len() == 0 {
        0
    } else {
        byte_len(s.drop_last()) + utf8_width(s.last())
    }
}

/// `&l[2..]`: the text after the first two bytes, when byte 2 starts a character.
pub open spec fn after_two_bytes(l: Seq<char>) -> Option<Seq<char>> {
    if l.len() >= 1 && utf8_width(l[0]) == 2 {
        Some(l.skip(1))
    } else if l.len() >= 2 && utf8_width(l[0]) == 1 && utf8_width(l[1]) == 1 {
        Some(l.skip(2))
    } else if l.len() == 0 {
        None
    } else {
        None
    }
}

/// The lines that `load` looks at: those longer than two bytes.
pub open spec fn kept_lines(ls: Seq<Seq<char>>) -> Seq<Seq<char>>
    decreases ls.len(),
{
    if ls.len() == 0 {
        ls
    } else if byte_len(ls.last()) > 2 {
        kept_lines(ls.drop_last()).push(ls.last())
    } else {
        kept_lines(ls.drop_last())
    }
}

/// An entry line: `D <path>` for a directory, any other `<c> <path>` for a file.
pub open spec fn entry_of_line(l: Seq<char>) -> EntryView {
    if l[0] == 'D' {
        EntryView::Dir(after_two_bytes(l)->0)
    } else {
        EntryView::File(after_two_bytes(l)->0)
    }
}

/// `load` does not panic on the text: every line that it slices starts a
/// character at byte 2.
pub open spec fn loadable(content: Seq<char>) -> bool {
    let k = kept_lines(lines(content));
    &&& (k.len() > 0 && k[0][0] == 'V' ==> after_two_bytes(k[0]) is Some)
    &&& forall|i: int| 1 <= i < k.len() ==> (#[trigger] after_two_bytes(k[i])) is Some
}

/// The version that `load` finds: the first kept line, if it starts with `V`.
pub open spec fn spec_load_version(content: Seq<char>) -> Seq<char> {
    let k = kept_lines(lines(content));
    if k.len() > 0 && k[0][0] == 'V' {
        after_two_bytes(k[0])->0
    } else {
        seq![]
    }
}

pub open spec fn entries_of_lines(ls: Seq<Seq<char>>) -> Seq<EntryView> {
    ls.map_values(|l: Seq<char>| entry_of_line(l))
}

/// The entries that `load` finds: every kept line after the first.
pub open spec fn spec_load_entries(content: Seq<char>) -> Seq<EntryView> {
    let k = kept_lines(lines(content));
    if k.len() == 0 {
        Seq::empty()
    } else {
        entries_of_lines(k.drop_first())
    }
}

/// The line that `save` writes for an entry.
pub open spec fn line_of_entry(e: EntryView) -> Seq<char> {
    match e {
        EntryView::File(p) => seq!['F', ' '] + p,
        EntryView::Dir(p) => seq!['D', ' '] + p,
    }
}

/// The lines that `save` writes.
pub open spec fn saved_lines(version: Seq<char>, es: Seq<EntryView>) -> Seq<Seq<char>> {
    seq![seq!['V', ' '] + version] + es.map_values(|e: EntryView| line_of_entry(e))
}

/// The text that `save` writes.
pub open spec fn spec_save(version: Seq<char>, es: Seq<EntryView>) -> Seq<char> {
    join(saved_lines(version, es), seq!['\n'])
}

fn utf8_width_of(c: char) -> (w: usize)
    ensures
        w == utf8_width(c),
{
    let u = c as u32;
    if u < 0x80 {
        1
    } else if u < 0x800 {
        2
    } else if u < 0x10000 {
        3
    } else {
        4
    }
}

proof fn lemma_byte_len_ge(s: Seq<char>)
    ensures
        byte_len(s) >= s.len(),
    decreases s.len(),
{
    if s.len() > 0 {
        lemma_byte_len_ge(s.drop_last());
    }
}

fn longer_than_two_bytes(l: &Vec<char>) -> (b: bool)
    ensures
        b == (byte_len(l@) > 2),
{
    proof {
        lemma_byte_len_ge(l@);
    }
    if l.len() >= 3 {
        true
    } else if l.len() == 2 {
        proof {
            assert(l@.drop_last().drop_last() =~= Seq::<char>::empty());
            assert(l@.drop_last().last() == l@[0]);
            assert(byte_len(l@.drop_last().drop_last()) == 0);
            assert(byte_len(l@.drop_last()) == utf8_width(l@[0]));
            assert(byte_len(l@) == utf8_width(l@[0]) + utf8_width(l@[1]));
        }
        utf8_width_of(l[0]) + utf8_width_of(l[1]) > 2
    } else if l.len() == 1 {
        proof {
            assert(l@.drop_last() =~= Seq::<char>::empty());
        }
        utf8_width_of(l[0]) > 2
    } else {
        false
    }
}

fn after_two_bytes_of(l: &Vec<char>) -> (r: Vec<char>)
    requires
        after_two_bytes(l@) is Some,
    ensures
        r@ == after_two_bytes(l@)->0,
{
    if utf8_width_of(l[0]) == 2 {
        slice_of(l, 1, l.len())
    } else {
        slice_of(l, 2, l.len())
    }
}

/// A path or version that one line of the manifest holds exactly.
pub open spec fn field_safe(s: Seq<char>) -> bool {
    s.len() > 0 && !s.contains('\n') && strip_cr(s) == s
}

pub open spec fn entry_path(e: EntryView) -> Seq<char> {
    match e {
        EntryView::File(p) => p,
        EntryView::Dir(p) => p,
    }
}

proof fn lemma_kept_all(ls: Seq<Seq<char>>)
    requires
        forall|i: int| 0 <= i < ls.len() ==> byte_len(#[trigger] ls[i]) > 2,
    ensures
        kept_lines(ls) == ls,
    decreases ls.len(),
{
    if ls.len() > 0 {
        let l2 = ls.drop_last();
        assert forall|i: int| 0 <= i < l2.len() implies byte_len(#[trigger] l2[i]) > 2 by {
            assert(l2[i] == ls[i]);
        }
        lemma_kept_all(l2);
        assert(byte_len(ls[ls.len() - 1]) > 2);
        assert(l2.push(ls.last()) =~= ls);
    }
}

proof fn lemma_tagged_line(tag: char, p: Seq<char>)
    requires
        field_safe(p),
        tag == 'V' || tag == 'F' || tag == 'D',
    ensures
        byte_len(seq![tag, ' '] + p) > 2,
        !(seq![tag, ' '] + p).contains('\n'),
        strip_cr(seq![tag, ' '] + p) == seq![tag, ' '] + p,
        after_two_bytes(seq![tag, ' '] + p) == Some(p),
        (seq![tag, ' '] + p)[0] == tag,
{
    let l = seq![tag, ' '] + p;
    lemma_byte_len_ge(l);
    assert(l.skip(2) =~= p);
    if l.contains('\n') {
        let i = choose|i: int| 0 <= i < l.len() && l[i] == '\n';
        assert(i >= 2);
        assert(p[i - 2] == '\n');
        assert(p.contains('\n'));
    }
    assert(l.last() == p.last());
}

/// Load after save: reading the text that `save` writes gives back the version
/// and the entries, when each of them is a non-empty single line that does not
/// end in a carriage return.
pub proof fn lemma_load_save(version: Seq<char>, es: Seq<EntryView>)
    requires
        field_safe(version),
        forall|i: int| 0 <= i < es.len() ==> field_safe(entry_path(#[trigger] es[i])),
    ensures
        loadable(spec_save(version, es)),
        spec_load_version(spec_save(version, es)) == version,
        spec_load_entries(spec_save(version, es)) == es,
{
    let l = saved_lines(version, es);
    lemma_tagged_line('V', version);
    assert forall|i: int| 0 <= i < l.len() implies byte_len(#[trigger] l[i]) > 2 && !l[i].contains('\n') && strip_cr(l[i]) == l[i] && after_two_bytes(l[i]) is Some by {
        if i > 0 {
            let e = es[i - 1];
            assert(l[i] == line_of_entry(e));
            match e {
                EntryView::File(p) => { lemma_tagged_line('F', p); },
                EntryView::Dir(p) => { lemma_tagged_line('D', p); },
            }
        }
    }
    assert(line_safe(l)) by {
        assert(none_contain(l, '\n'));
    }
    lemma_lines_join(l);
    lemma_kept_all(l);
    let k = kept_lines(lines(spec_save(version, es)));
    assert(k == l);
    assert(spec_load_version(spec_save(version, es)) == version);
    assert forall|i: int| 0 <= i < es.len() implies #[trigger] entries_of_lines(k.drop_first())[i] == es[i] by {
        let e = es[i];
        assert(k.drop_first()[i] == line_of_entry(e));
        match e {
            EntryView::File(p) => { lemma_tagged_line('F', p); },
            EntryView::Dir(p) => { lemma_tagged_line('D', p); },
        }
    }
    assert(spec_load_entries(spec_save(version, es)) =~= es);
}

impl Manifest {
    /// A manifest for `version` with nothing recorded.
    pub fn new(version: String) -> (m: Self)
        ensures
            m.version@ == version@,
            m.entries@.len() == 0,
    {
        Self { version, entries: Vec::new() }
    }

    /// Records an installed file.
    pub fn record_file(&mut self, path: String)
        ensures
            final(self).version == old(self).version,
            entry_views(final(self).entries@) == entry_views(old(self).entries@).push(
                EntryView::File(path@),
            ),
    {
        let ghost p = path@;
        self.entries.push(ManifestEntry::File(path));
        assert(entry_views(self.entries@) =~= entry_views(old(self).entries@).push(
            EntryView::File(p),
        ));
    }

    /// Records an installed directory.
    pub fn record_dir(&mut self, path: String)
        ensures
            final(self).version == old(self).version,
            entry_views(final(self).entries@) == entry_views(old(self).entries@).push(
                EntryView::Dir(path@),
            ),
    {
        let ghost p = path@;
        self.entries.push(ManifestEntry::Dir(path));
        assert(entry_views(self.entries@) =~= entry_views(old(self).entries@).push(
            EntryView::Dir(p),
        ));
    }

    /// The text of the manifest file: `V <version>`, then `F <path>` or `D <path>`
    /// per entry, one per line.
    pub fn save(&self) -> (text: String)
        ensures
            text@ == spec_save(self.version@, entry_views(self.entries@)),
    {
        let ghost es = entry_views(self.entries@);
        let mut ls: Vec<Vec<char>> = Vec::new();
        let mut first: Vec<char> = Vec::new();
        first.push('V');
        first.push(' ');
        push_all(&mut first, &chars_of(self.version.as_str()));
        assert(first@ =~= seq!['V', ' '] + self.version@);
        ls.push(first);
        assert(views(ls@) =~= saved_lines(self.version@, es).take(1));
        let mut i: usize = 0;
        while i < self.entries.len()
            invariant
                i <= self.entries.len(),
                es == entry_views(self.entries@),
                views(ls@) == saved_lines(self.version@, es).take(i + 1),
            decreases self.entries.len() - i,
        {
            let mut line: Vec<char> = Vec::new();
            match &self.entries[i] {
                ManifestEntry::File(p) => {
                    line.push('F');
                    line.push(' ');
                    push_all(&mut line, &chars_of(p.as_str()));
                },
                ManifestEntry::Dir(p) => {
                    line.push('D');
                    line.push(' ');
                    push_all(&mut line, &chars_of(p.as_str()));
                },
            }
            assert(line@ =~= line_of_entry(es[i as int]));
            let ghost before = views(ls@);
            assert(before.len() == ls.len());
            ls.push(line);
            assert(views(ls@) =~= saved_lines(self.version@, es).take(i + 2)) by {
                assert forall|t: int| 0 <= t < i + 2 implies #[trigger] views(ls@)[t] == saved_lines(self.version@, es).take(i + 2)[t] by {
                    if t < i + 1 {
                        assert(views(ls@)[t] == before[t]);
                    }
                }
            }
            i = i + 1;
        }
        assert(saved_lines(self.version@, es).take(i + 1) =~= saved_lines(self.version@, es));
        let mut nl: Vec<char> = Vec::new();
        nl.push('\n');
        assert(nl@ =~= seq!['\n']);
        let text = join_of(&ls, &nl);
        string_of(&text)
    }

    /// Reads the text of a manifest file.
    pub fn load(content: &str) -> (m: Self)
        requires
            loadable(content@),
        ensures
            m.version@ == spec_load_version(content@),
            entry_views(m.entries@) == spec_load_entries(content@),
    {
        let chars = chars_of(content);
        let ls = lines_of(&chars);
        let mut kept: Vec<Vec<char>> = Vec::new();
        let mut i: usize = 0;
        assert(views(ls@).take(0) =~= Seq::<Seq<char>>::empty());
        while i < ls.len()
            invariant
                i <= ls.len(),
                views(ls@) == lines(content@),
                views(kept@) == kept_lines(views(ls@).take(i as int)),
                forall|t: int| 0 <= t < kept.len() ==> (#[trigger] kept@[t])@.len() > 0,
            decreases ls.len() - i,
        {
            assert(views(ls@).take(i + 1).drop_last() =~= views(ls@).take(i as int));
            assert(views(ls@).take(i + 1).last() == ls@[i as int]@);
            if longer_than_two_bytes(&ls[i]) {
                let l = slice_of(&ls[i], 0, ls[i].len());
                assert(l@ =~= ls@[i as int]@);
                let ghost before = views(kept@);
                assert(l@.len() > 0) by {
                    if l@.len() == 0 {
                        assert(byte_len(l@) == 0);
                    }
                }
                kept.push(l);
                assert(views(kept@) =~= before.push(l@));
            }
            i = i + 1;
        }
        assert(views(ls@).take(ls.len() as int) =~= views(ls@));
        let ghost k = views(kept@);
        if kept.len() == 0 {
            let m = Self { version: string_of(&Vec::new()), entries: Vec::new() };
            assert(m.version@ =~= spec_load_version(content@));
            assert(entry_views(m.entries@) =~= spec_load_entries(content@));
            return m;
        }
        let version_chars = if kept[0][0] == 'V' {
            after_two_bytes_of(&kept[0])
        } else {
            Vec::new()
        };
        let mut entries: Vec<ManifestEntry> = Vec::new();
        let mut j: usize = 1;
        while j < kept.len()
            invariant
                1 <= j <= kept.len(),
                k == views(kept@),
                k == kept_lines(lines(content@)),
                loadable(content@),
                entry_views(entries@) == entries_of_lines(k.drop_first().take(j - 1)),
            decreases kept.len() - j,
        {
            assert(after_two_bytes(k[j as int]) is Some);
            let path = string_of(&after_two_bytes_of(&kept[j]));
            let e = if kept[j][0] == 'D' {
                ManifestEntry::Dir(path)
            } else {
                ManifestEntry::File(path)
            };
            assert(e@ == entry_of_line(k[j as int]));
            let ghost before = entry_views(entries@);
            assert(before.len() == entries.len());
            entries.push(e);
            assert(entry_views(entries@) =~= entries_of_lines(k.drop_first().take(j as int))) by {
                assert forall|t: int| 0 <= t < j implies #[trigger] entry_views(entries@)[t] == entries_of_lines(k.drop_first().take(j as int))[t] by {
                    if t < j - 1 {
                        assert(entry_views(entries@)[t] == before[t]);
                    }
                }
            }
            j = j + 1;
        }
        assert(k.drop_first().take(j - 1) =~= k.drop_first());
        let m = Self { version: string_of(&version_chars), entries };
        assert(m.version@ =~= spec_load_version(content@));
        m
    }
}

} // verus!
