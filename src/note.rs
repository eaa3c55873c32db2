//! The note format.
//!
//! A note is a header and a textual document. The header holds tags (`@tag`,
//! several to a line) and key-value attributes (`[Key: Value]`, one to a
//! line). An empty line ends the header; what follows is the document. A note
//! that begins with an empty line has an empty header.
use vstd::prelude::*;

use crate::error::{parse_error, FileError};
use crate::lexical::{
    char_len, find_char, find_char_from, push_char, split_on, split_str, sub_string, trim, trim_str,
};
use crate::filter::lemma_find_char_bounds;
use crate::record::str_eq;

verus! {

/// A note: tags, key-value attributes and content.
///
/// Keys are unique. A tag begins with `@` and has at least one more
/// character.
#[derive(Debug)]
pub struct Note {
    tags: Vec<String>,
    attrs: Vec<(String, String)>,
    content: String,
}

/// The mathematical form of a [Note].
pub struct NoteV {
    pub tags: Seq<Seq<char>>,
    pub attrs: Seq<(Seq<char>, Seq<char>)>,
    pub content: Seq<char>,
}

impl View for Note {
    type V = NoteV;

    closed spec fn view(&self) -> NoteV {
        NoteV { tags: self.tags.deep_view(), attrs: self.attrs.deep_view(), content: self.content@ }
    }
}

/// What one header line holds.
#[derive(Debug, PartialEq, Eq)]
pub enum Metadata {
    Tag(Vec<String>),
    KV(String, String),
}

pub enum MetadataV {
    Tag(Seq<Seq<char>>),
    KV(Seq<char>, Seq<char>),
}

impl View for Metadata {
    type V = MetadataV;

    open spec fn view(&self) -> MetadataV {
        match self {
            Metadata::Tag(v) => MetadataV::Tag(v.deep_view()),
            Metadata::KV(k, v) => MetadataV::KV(k@, v@),
        }
    }
}

/// Index of the attribute with key `k`, at or after `i`.
pub open spec fn find_key(attrs: Seq<(Seq<char>, Seq<char>)>, k: Seq<char>, i: int) -> Option<int>
    decreases attrs.len() - i,
{
    if i < 0 || i >= attrs.len() {
        None
    } else if attrs[i].0 == k {
        Some(i)
    } else {
        find_key(attrs, k, i + 1)
    }
}

/// No key occurs twice.
pub open spec fn keys_unique(attrs: Seq<(Seq<char>, Seq<char>)>) -> bool {
    forall|i: int, j: int| 0 <= i < j < attrs.len() ==> attrs[i].0 != attrs[j].0
}

/// The value stored under key `k`.
pub open spec fn attr_get(attrs: Seq<(Seq<char>, Seq<char>)>, k: Seq<char>) -> Option<Seq<char>> {
    match find_key(attrs, k, 0) {
        Some(i) => Some(attrs[i].1),
        None => None,
    }
}

/// The attributes once `k` is set to `v`: an existing key takes the new
/// value, a new one is added at the end.
pub open spec fn attr_insert(attrs: Seq<(Seq<char>, Seq<char>)>, k: Seq<char>, v: Seq<char>) -> Seq<(Seq<char>, Seq<char>)> {
    match find_key(attrs, k, 0) {
        Some(i) => attrs.update(i, (k, v)),
        None => attrs.push((k, v)),
    }
}

/// The attributes that setting the first `k` pairs in turn gives.
pub open spec fn attrs_from(pairs: Seq<(Seq<char>, Seq<char>)>, k: int) -> Seq<(Seq<char>, Seq<char>)>
    decreases k,
{
    if k <= 0 || k > pairs.len() {
        seq![]
    } else {
        attr_insert(attrs_from(pairs, k - 1), pairs[k - 1].0, pairs[k - 1].1)
    }
}

/// The attributes once key `k` is removed.
pub open spec fn attr_remove(attrs: Seq<(Seq<char>, Seq<char>)>, k: Seq<char>) -> Seq<(Seq<char>, Seq<char>)> {
    match find_key(attrs, k, 0) {
        Some(i) => attrs.remove(i),
        None => attrs,
    }
}

pub proof fn lemma_find_key(attrs: Seq<(Seq<char>, Seq<char>)>, k: Seq<char>, i: int)
    requires
        0 <= i,
    ensures
        find_key(attrs, k, i) matches Some(j) ==> i <= j < attrs.len() && attrs[j].0 == k,
        find_key(attrs, k, i) is None ==> forall|j: int| i <= j < attrs.len() ==> attrs[j].0 != k,
    decreases attrs.len() - i,
{
    if i < attrs.len() && attrs[i].0 != k {
        lemma_find_key(attrs, k, i + 1);
    }
}

pub proof fn lemma_insert_unique(attrs: Seq<(Seq<char>, Seq<char>)>, k: Seq<char>, v: Seq<char>)
    requires
        keys_unique(attrs),
    ensures
        keys_unique(attr_insert(attrs, k, v)),
{
    lemma_find_key(attrs, k, 0);
}

pub proof fn lemma_remove_unique(attrs: Seq<(Seq<char>, Seq<char>)>, k: Seq<char>)
    requires
        keys_unique(attrs),
    ensures
        keys_unique(attr_remove(attrs, k)),
{
    lemma_find_key(attrs, k, 0);
    match find_key(attrs, k, 0) {
        Some(i) => {
            let r = attrs.remove(i);
            assert forall|a: int, b: int| 0 <= a < b < r.len() implies r[a].0 != r[b].0 by {
                let a2 = if a < i { a } else { a + 1 };
                let b2 = if b < i { b } else { b + 1 };
                assert(r[a] == attrs[a2]);
                assert(r[b] == attrs[b2]);
            }
        },
        None => {},
    }
}

/// Index of the first tag at or after `i` equal to `t`.
pub open spec fn find_tag(tags: Seq<Seq<char>>, t: Seq<char>, i: int) -> Option<int>
    decreases tags.len() - i,
{
    if i < 0 || i >= tags.len() {
        None
    } else if tags[i] == t {
        Some(i)
    } else {
        find_tag(tags, t, i + 1)
    }
}

/// The pieces of a tag line that are not empty.
pub open spec fn nonempty(ps: Seq<Seq<char>>) -> Seq<Seq<char>>
    decreases ps.len(),
{
    if ps.len() == 0 {
        seq![]
    } else if ps.last().len() > 0 {
        nonempty(ps.drop_last()).push(ps.last())
    } else {
        nonempty(ps.drop_last())
    }
}

pub open spec fn good_tag(p: Seq<char>) -> bool {
    p.len() > 1 && p[0] == '@'
}

/// What a header line (without its newline) holds; `None` where it is
/// malformed.
pub open spec fn metadata_spec(line: Seq<char>) -> Option<MetadataV> {
    if line.len() > 0 && line[0] == '@' {
        let ps = split_on(line, ' ');
        if forall|i: int| 0 <= i < ps.len() && #[trigger] ps[i].len() > 0 ==> good_tag(ps[i]) {
            Some(MetadataV::Tag(nonempty(ps)))
        } else {
            None
        }
    } else if line.len() >= 2 && line[0] == '[' && line[line.len() - 1] == ']' {
        let inner = line.subrange(1, line.len() - 1);
        if find_char(inner, '[', 0) is Some || find_char(inner, ']', 0) is Some {
            None
        } else {
            match find_char(inner, ':', 0) {
                Some(i) => Some(MetadataV::KV(trim(inner.subrange(0, i)), trim(inner.subrange(i + 1, inner.len() as int)))),
                None => None,
            }
        }
    } else {
        None
    }
}

/// A line without its trailing newline.
pub open spec fn strip_newline(l: Seq<char>) -> Seq<char> {
    if l.len() > 0 && l.last() == '\n' {
        l.drop_last()
    } else {
        l
    }
}

/// The note whose header is read from position `pos` of `s`, with what was
/// read before; `Err(n)` where line `n` is malformed.
pub open spec fn parse_note_from(s: Seq<char>, pos: int, line: int, acc: NoteV) -> Result<NoteV, int>
    decreases s.len() + 1 - pos,
{
    if pos < 0 || pos >= s.len() {
        Ok(NoteV { content: seq![], ..acc })
    } else {
        proof {
            lemma_find_char_bounds(s, '\n', pos);
        }
        let end = match find_char(s, '\n', pos) {
            Some(e) => e,
            None => s.len() as int,
        };
        if end <= pos {
            Ok(NoteV { content: s.subrange(pos + 1, s.len() as int), ..acc })
        } else {
            match metadata_spec(s.subrange(pos, end)) {
                None => Err(line),
                Some(MetadataV::Tag(ts)) => parse_note_from(s, end + 1, line + 1, NoteV { tags: acc.tags + ts, ..acc }),
                Some(MetadataV::KV(k, v)) => parse_note_from(
                    s,
                    end + 1,
                    line + 1,
                    NoteV { attrs: attr_insert(acc.attrs, k, v), ..acc },
                ),
            }
        }
    }
}

/// The note that a text holds; `Err(n)` where line `n` is malformed.
pub open spec fn parse_note_spec(s: Seq<char>) -> Result<NoteV, int> {
    parse_note_from(s, 0, 1, NoteV { tags: seq![], attrs: seq![], content: seq![] })
}

/// The header lines of the tags.
pub open spec fn tags_text(ts: Seq<Seq<char>>) -> Seq<char>
    decreases ts.len(),
{
    if ts.len() == 0 {
        seq![]
    } else {
        tags_text(ts.drop_last()) + ts.last() + seq!['\n']
    }
}

/// The header lines of the attributes, `[key: value]` each.
pub open spec fn attrs_text(a: Seq<(Seq<char>, Seq<char>)>) -> Seq<char>
    decreases a.len(),
{
    if a.len() == 0 {
        seq![]
    } else {
        attrs_text(a.drop_last()) + seq!['['] + a.last().0 + seq![':', ' '] + a.last().1 + seq![']', '\n']
    }
}

/// A note as text: a line per tag, a line per attribute, an empty line and the
/// content.
pub open spec fn note_text(n: NoteV) -> Seq<char> {
    tags_text(n.tags) + attrs_text(n.attrs) + seq!['\n'] + n.content
}

/// Index of the attribute with key `k`.
fn key_position(attrs: &Vec<(String, String)>, k: &str) -> (r: Option<usize>)
    ensures
        r matches Some(i) ==> find_key(attrs.deep_view(), k@, 0) == Some(i as int) && i < attrs.len(),
        r is None ==> find_key(attrs.deep_view(), k@, 0) is None,
{
    let mut i: usize = 0;
    while i < attrs.len()
        invariant
            i <= attrs.len(),
            attrs.deep_view().len() == attrs.len(),
            find_key(attrs.deep_view(), k@, 0) == find_key(attrs.deep_view(), k@, i as int),
        decreases attrs.len() - i,
    {
        assert(attrs.deep_view()[i as int].0 == attrs[i as int].0@);
        if str_eq(attrs[i].0.as_str(), k) {
            return Some(i);
        }
        i += 1;
    }
    None
}

/// Set key `k` to `v` in the attribute list.
fn insert_attr(attrs: &mut Vec<(String, String)>, k: String, v: String)
    ensures
        final(attrs).deep_view() == attr_insert(old(attrs).deep_view(), k@, v@),
{
    let ghost before = attrs.deep_view();
    match key_position(attrs, k.as_str()) {
        Some(i) => {
            attrs.set(i, (k, v));
            assert(attrs.deep_view() =~= before.update(i as int, (k@, v@)));
        },
        None => {
            let ghost kv = (k@, v@);
            attrs.push((k, v));
            assert(attrs.deep_view() =~= before.push(kv));
        },
    }
}

/// Whether `p` is `@` followed by at least one character.
fn is_good_tag(p: &str) -> (r: bool)
    ensures
        r == good_tag(p@),
{
    char_len(p) > 1 && p.get_char(0) == '@'
}

/// Read the tags of a tag line.
fn read_tags(line: &str, line_num: usize) -> (r: Result<Metadata, FileError>)
    requires
        line@.len() > 0,
        line@[0] == '@',
    ensures
        r matches Ok(m) ==> metadata_spec(line@) == Some(m@),
        r matches Err(e) ==> metadata_spec(line@) is None && e.line_of() == Some(line_num),
{
    let pieces = split_str(line, ' ');
    let ghost ps = pieces.deep_view();
    let mut tags: Vec<String> = Vec::new();
    let mut i: usize = 0;
    while i < pieces.len()
        invariant
            ps == pieces.deep_view(),
            ps == split_on(line@, ' '),
            line@.len() > 0 && line@[0] == '@',
            ps.len() == pieces.len(),
            i <= pieces.len(),
            tags.deep_view() == nonempty(ps.subrange(0, i as int)),
            forall|j: int| 0 <= j < i && #[trigger] ps[j].len() > 0 ==> good_tag(ps[j]),
        decreases pieces.len() - i,
    {
        let p = pieces[i].as_str();
        assert(ps[i as int] == p@);
        assert(ps.subrange(0, i + 1).drop_last() =~= ps.subrange(0, i as int));
        assert(ps.subrange(0, i + 1).last() == p@);
        if char_len(p) > 0 {
            if !is_good_tag(p) {
                assert(ps[i as int].len() > 0 && !good_tag(ps[i as int]));
                assert(line@.len() > 0 && line@[0] == '@');
                return Err(parse_error("Tag is missing the '@' symbol or is empty", p, line_num));
            }
            let ghost before = tags.deep_view();
            tags.push(String::from_str(p));
            assert(tags.deep_view() =~= before.push(p@));
        }
        i += 1;
    }
    assert(ps.subrange(0, ps.len() as int) =~= ps);
    Ok(Metadata::Tag(tags))
}

impl Note {
    /// An empty note: no tags, no attributes, no content.
    pub fn empty() -> (r: Note)
        ensures
            r@.tags == Seq::<Seq<char>>::empty(),
            r@.attrs == Seq::<(Seq<char>, Seq<char>)>::empty(),
            r@.content == Seq::<char>::empty(),
    {
        let r = Note { tags: Vec::new(), attrs: Vec::new(), content: String::new() };
        assert(r@.tags =~= Seq::<Seq<char>>::empty());
        assert(r@.attrs =~= Seq::<(Seq<char>, Seq<char>)>::empty());
        r
    }

    /// Well-formed: no key occurs twice.
    pub open spec fn wf(&self) -> bool {
        keys_unique(self@.attrs)
    }

    /// A note with the given tags, attributes and content. Where a key occurs
    /// more than once, its last value stands.
    pub fn new(tags: &[String], attrs: Vec<(String, String)>, text: &str) -> (r: Note)
        ensures
            r.wf(),
            r@.tags == tags@.map_values(|t: String| t@),
            r@.attrs == attrs_from(attrs.deep_view(), attrs.len() as int),
            r@.content == text@,
    {
        let mut t: Vec<String> = Vec::new();
        let mut i: usize = 0;
        while i < tags.len()
            invariant
                i <= tags.len(),
                t.deep_view() == tags@.subrange(0, i as int).map_values(|x: String| x@),
            decreases tags.len() - i,
        {
            let ghost before = t.deep_view();
            let c = tags[i].clone();
            assert(c@ == tags@[i as int]@);
            t.push(c);
            assert(t.deep_view() =~= before.push(tags@[i as int]@));
            assert(tags@.subrange(0, i + 1).map_values(|x: String| x@) =~= tags@.subrange(0, i as int).map_values(|x: String| x@).push(tags@[i as int]@));
            i += 1;
        }
        assert(tags@.subrange(0, tags@.len() as int) =~= tags@);
        let mut a: Vec<(String, String)> = Vec::new();
        let mut j: usize = 0;
        assert(a.deep_view() =~= attrs_from(attrs.deep_view(), 0));
        while j < attrs.len()
            invariant
                j <= attrs.len(),
                keys_unique(a.deep_view()),
                a.deep_view() == attrs_from(attrs.deep_view(), j as int),
                attrs.deep_view().len() == attrs.len(),
            decreases attrs.len() - j,
        {
            let k = attrs[j].0.clone();
            let v = attrs[j].1.clone();
            assert(attrs.deep_view()[j as int] == (k@, v@));
            proof {
                lemma_insert_unique(a.deep_view(), k@, v@);
            }
            insert_attr(&mut a, k, v);
            j += 1;
        }

        Note { tags: t, attrs: a, content: String::from_str(text) }
    }

    /// Read one header line as tags or an attribute; a trailing newline is
    /// not part of the line.
    pub fn read_metadata_line(line: &str, line_num: usize) -> (r: Result<Metadata, FileError>)
        ensures
            r matches Ok(m) ==> metadata_spec(strip_newline(line@)) == Some(m@),
            r matches Err(e) ==> metadata_spec(strip_newline(line@)) is None && e.line_of() == Some(line_num),
    {
        let n = char_len(line);
        if n > 0 && line.get_char(n - 1) == '\n' {
            Note::read_metadata(line.substring_char(0, n - 1), line_num)
        } else {
            assert(line@.subrange(0, n as int) =~= line@);
            Note::read_metadata(line, line_num)
        }
    }

    /// Read one header line (without its newline) as tags or an attribute.
    fn read_metadata(line: &str, line_num: usize) -> (r: Result<Metadata, FileError>)
        ensures
            r matches Ok(m) ==> metadata_spec(line@) == Some(m@),
            r matches Err(e) ==> metadata_spec(line@) is None && e.line_of() == Some(line_num),
    {
        let n = char_len(line);
        if n > 0 && line.get_char(0) == '@' {
            return read_tags(line, line_num);
        }
        if n >= 2 && line.get_char(0) == '[' && line.get_char(n - 1) == ']' {
            let inner = line.substring_char(1, n - 1);
            let m = char_len(inner);
            if find_char_from(inner, m, '[', 0).is_some() || find_char_from(inner, m, ']', 0).is_some() {
                return Err(parse_error("Key-value pairs cannot contain '[' or ']'", inner, line_num));
            }
            return match find_char_from(inner, m, ':', 0) {
                Some(i) => {
                    let k = trim_str(inner.substring_char(0, i));
                    let v = trim_str(inner.substring_char(i + 1, m));
                    Ok(Metadata::KV(String::from_str(k), String::from_str(v)))
                },
                None => Err(parse_error("Invalid key/value metadata line", inner, line_num)),
            };
        }
        Err(parse_error("Invalid metadata object", line, line_num))
    }

    /// Parse a note: header lines up to the first empty line, then content.
    pub fn parse(s: &str) -> (r: Result<Note, FileError>)
        ensures
            r matches Ok(note) ==> parse_note_spec(s@) == Ok::<NoteV, int>(note@) && note.wf(),
            r matches Err(e) ==> parse_note_spec(s@) matches Err(l) && e.line_of() == Some(l as usize),
    {
        let n = char_len(s);
        let mut note = Note::empty();
        let mut pos: usize = 0;
        let mut idx: usize = 0;
        while pos < n
            invariant
                n == s@.len(),
                pos <= n,
                idx <= pos,
                note@.content == Seq::<char>::empty(),
                keys_unique(note@.attrs),
                parse_note_spec(s@) == parse_note_from(s@, pos as int, idx + 1, note@),
            decreases n - pos,
        {
            let end = match find_char_from(s, n, '\n', pos) {
                Some(e) => e,
                None => n,
            };
            proof {
                lemma_find_char_bounds(s@, '\n', pos as int);
            }
            if end == pos {
                note.content = sub_string(s, pos + 1, n);
                assert(note@ == NoteV { content: s@.subrange(pos + 1, n as int), ..note@ });
                return Ok(note);
            }
            let l = s.substring_char(pos, end);
            let ghost before = note@;
            let ghost pos0 = pos;
            assert(parse_note_from(s@, pos0 as int, idx + 1, before) == match metadata_spec(l@) {
                None => Err(idx + 1),
                Some(MetadataV::Tag(ts)) => parse_note_from(s@, end + 1, idx + 2, NoteV { tags: before.tags + ts, ..before }),
                Some(MetadataV::KV(k, v)) => parse_note_from(s@, end + 1, idx + 2, NoteV { attrs: attr_insert(before.attrs, k, v), ..before }),
            });
            match Note::read_metadata(l, idx + 1) {
                Err(e) => {
                    return Err(e);
                },
                Ok(Metadata::Tag(ts)) => {
                    let ghost tv = ts.deep_view();
                    let mut ts = ts;
                    let ghost t0 = note.tags.deep_view();
                    note.tags.append(&mut ts);
                    assert(note.tags.deep_view() =~= t0 + tv);
                    assert(note@ == NoteV { tags: before.tags + tv, ..before });
                },
                Ok(Metadata::KV(k, v)) => {
                    proof {
                        lemma_insert_unique(note@.attrs, k@, v@);
                    }
                    let ghost kv = k@;
                    let ghost vv = v@;
                    insert_attr(&mut note.attrs, k, v);
                    assert(note@ == NoteV { attrs: attr_insert(before.attrs, kv, vv), ..before });
                },
            }
            assert(parse_note_spec(s@) == parse_note_from(s@, end + 1, idx + 2, note@));
            if end >= n {
                assert(parse_note_from(s@, end + 1, idx + 2, note@) == parse_note_from(s@, n as int, idx + 2, note@));
                pos = n;
            } else {
                pos = end + 1;
            }
            idx += 1;
        }
        Ok(note)
    }

    /// Add the given tag to the note, with a leading `@` where it has none,
    /// unless the note has it already.
    pub fn insert_tag(&mut self, tag: &str)
        requires
            old(self).wf(),
        ensures
            final(self).wf(),
            final(self)@.attrs == old(self)@.attrs,
            final(self)@.content == old(self)@.content,
            ({
                let t = if tag@.len() > 0 && tag@[0] == '@' { tag@ } else { seq!['@'] + tag@ };
                final(self)@.tags == if old(self)@.tags.contains(t) {
                    old(self)@.tags
                } else {
                    old(self)@.tags.push(t)
                }
            }),
    {
        let n = char_len(tag);
        let t = if n > 0 && tag.get_char(0) == '@' {
            String::from_str(tag)
        } else {
            proof {
                reveal_strlit("@");
            }
            let mut a = String::from_str("@");
            assert("@"@ =~= seq!['@']);
            a.append(tag);
            assert(a@ =~= seq!['@'] + tag@);
            a
        };
        if !self.contains_tag(t.as_str()) {
            let ghost before = self.tags.deep_view();
            let ghost tv = t@;
            self.tags.push(t);
            assert(self.tags.deep_view() =~= before.push(tv));
        }
    }

    /// Index of the first tag equal to `tag`.
    fn tag_position(&self, tag: &str) -> (r: Option<usize>)
        ensures
            r matches Some(i) ==> i < self@.tags.len() && self@.tags[i as int] == tag@ && find_tag(self@.tags, tag@, 0) == Some(i as int),
            r is None ==> !self@.tags.contains(tag@) && find_tag(self@.tags, tag@, 0) is None,
    {
        let mut i: usize = 0;
        while i < self.tags.len()
            invariant
                i <= self.tags.len(),
                self@.tags == self.tags.deep_view(),
                self@.tags.len() == self.tags.len(),
                forall|j: int| 0 <= j < i ==> self@.tags[j] != tag@,
                find_tag(self@.tags, tag@, 0) == find_tag(self@.tags, tag@, i as int),
            decreases self.tags.len() - i,
        {
            assert(self@.tags[i as int] == self.tags[i as int]@);
            if str_eq(self.tags[i].as_str(), tag) {
                return Some(i);
            }
            i += 1;
        }
        None
    }

    /// Remove the first occurrence of the specified tag and return it.
    pub fn remove_tag(&mut self, tag: &str) -> (r: Option<String>)
        requires
            old(self).wf(),
        ensures
            final(self).wf(),
            final(self)@.attrs == old(self)@.attrs,
            final(self)@.content == old(self)@.content,
            find_tag(old(self)@.tags, tag@, 0) is None ==> r is None && final(self)@.tags == old(self)@.tags,
            find_tag(old(self)@.tags, tag@, 0) matches Some(i) ==> (r matches Some(t) && t@ == tag@)
                && final(self)@.tags == old(self)@.tags.remove(i),
    {
        match self.tag_position(tag) {
            Some(i) => {
                let ghost before = self.tags.deep_view();
                let t = self.tags.remove(i);
                assert(self.tags.deep_view() =~= before.remove(i as int));
                assert(before[i as int] == tag@);
                Some(t)
            },
            None => None,
        }
    }

    /// Check whether the note contains the specified tag.
    pub fn contains_tag(&self, tag: &str) -> (r: bool)
        ensures
            r == self@.tags.contains(tag@),
    {
        match self.tag_position(tag) {
            Some(i) => {
                assert(self@.tags[i as int] == tag@);
                true
            },
            None => false,
        }
    }

    /// The list of tags on the note.
    pub fn tags(&self) -> (r: &[String])
        ensures
            r@.map_values(|t: String| t@) == self@.tags,
    {
        let r = self.tags.as_slice();
        assert(r@.map_values(|t: String| t@) =~= self@.tags);
        r
    }

    /// The value of the attribute with the given key.
    pub fn get_attribute(&self, key: &str) -> (r: Option<&String>)
        ensures
            r matches Some(v) ==> attr_get(self@.attrs, key@) == Some(v@),
            r is None ==> attr_get(self@.attrs, key@) is None,
    {
        match key_position(&self.attrs, key) {
            Some(i) => {
                assert(self@.attrs[i as int].1 == self.attrs[i as int].1@);
                Some(&self.attrs[i].1)
            },
            None => None,
        }
    }

    /// Add or update the specified attribute.
    pub fn set_attribute(&mut self, key: &str, value: &str)
        requires
            old(self).wf(),
        ensures
            final(self).wf(),
            final(self)@.attrs == attr_insert(old(self)@.attrs, key@, value@),
            final(self)@.tags == old(self)@.tags,
            final(self)@.content == old(self)@.content,
    {
        proof {
            lemma_insert_unique(self@.attrs, key@, value@);
        }
        insert_attr(&mut self.attrs, String::from_str(key), String::from_str(value));
    }

    /// Remove the attribute with the given key and return its value.
    pub fn remove_attribute(&mut self, key: &str) -> (r: Option<String>)
        requires
            old(self).wf(),
        ensures
            final(self).wf(),
            final(self)@.attrs == attr_remove(old(self)@.attrs, key@),
            r matches Some(v) ==> attr_get(old(self)@.attrs, key@) == Some(v@),
            r is None ==> attr_get(old(self)@.attrs, key@) is None,
            final(self)@.tags == old(self)@.tags,
            final(self)@.content == old(self)@.content,
    {
        proof {
            lemma_remove_unique(self@.attrs, key@);
        }
        match key_position(&self.attrs, key) {
            Some(i) => {
                let ghost before = self.attrs.deep_view();
                let (_, v) = self.attrs.remove(i);
                assert(self.attrs.deep_view() =~= before.remove(i as int));
                Some(v)
            },
            None => None,
        }
    }

    /// Check whether the note has the specified attribute.
    pub fn contains_attribute(&self, key: &str) -> (r: bool)
        ensures
            r == (attr_get(self@.attrs, key@) is Some),
    {
        key_position(&self.attrs, key).is_some()
    }

    /// The keys of the attributes, in the order they were added.
    pub fn attribute_keys(&self) -> (r: Vec<String>)
        ensures
            r.deep_view() == self@.attrs.map_values(|a: (Seq<char>, Seq<char>)| a.0),
    {
        let mut r: Vec<String> = Vec::new();
        let mut i: usize = 0;
        while i < self.attrs.len()
            invariant
                i <= self.attrs.len(),
                self@.attrs == self.attrs.deep_view(),
                r.deep_view() == self@.attrs.subrange(0, i as int).map_values(|a: (Seq<char>, Seq<char>)| a.0),
            decreases self.attrs.len() - i,
        {
            let ghost before = r.deep_view();
            let k = self.attrs[i].0.clone();
            assert(self@.attrs[i as int].0 == k@);
            r.push(k);
            assert(r.deep_view() =~= before.push(self@.attrs[i as int].0));
            assert(r.deep_view() =~= self@.attrs.subrange(0, i + 1).map_values(|a: (Seq<char>, Seq<char>)| a.0));
            i += 1;
        }
        assert(self@.attrs.subrange(0, self.attrs.len() as int) =~= self@.attrs);
        r
    }

    /// The attributes as key-value pairs, in the order they were added.
    pub fn attributes(&self) -> (r: Vec<(String, String)>)
        ensures
            r.deep_view() == self@.attrs,
    {
        let mut r: Vec<(String, String)> = Vec::new();
        let mut i: usize = 0;
        while i < self.attrs.len()
            invariant
                i <= self.attrs.len(),
                self@.attrs == self.attrs.deep_view(),
                r.deep_view() == self@.attrs.subrange(0, i as int),
            decreases self.attrs.len() - i,
        {
            let k = self.attrs[i].0.clone();
            let v = self.attrs[i].1.clone();
            let ghost before = r.deep_view();
            assert(self@.attrs[i as int] == (k@, v@));
            r.push((k, v));
            assert(r.deep_view() =~= before.push(self@.attrs[i as int]));
            assert(r.deep_view() =~= self@.attrs.subrange(0, i + 1));
            i += 1;
        }
        assert(self@.attrs.subrange(0, self.attrs.len() as int) =~= self@.attrs);
        r
    }

    /// The note's content (document).
    pub fn content(&self) -> (r: &str)
        ensures
            r@ == self@.content,
    {
        self.content.as_str()
    }

    /// The note as text, as it is saved to a file.
    pub fn to_text(&self) -> (r: String)
        ensures
            r@ == note_text(self@),
    {
        let mut s = String::new();
        let mut i: usize = 0;
        assert(s@ =~= tags_text(self@.tags.subrange(0, 0)));
        while i < self.tags.len()
            invariant
                i <= self.tags.len(),
                self@.tags == self.tags.deep_view(),
                self@.tags.len() == self.tags.len(),
                s@ == tags_text(self@.tags.subrange(0, i as int)),
            decreases self.tags.len() - i,
        {
            let ghost s0 = s@;
            assert(self@.tags[i as int] == self.tags[i as int]@);
            s.append(self.tags[i].as_str());
            push_char(&mut s, '\n');
            assert(self@.tags.subrange(0, i + 1).drop_last() =~= self@.tags.subrange(0, i as int));
            assert(s@ =~= s0 + self@.tags[i as int] + seq!['\n']);
            i += 1;
        }
        assert(self@.tags.subrange(0, self.tags.len() as int) =~= self@.tags);
        let ghost t = s@;
        let mut j: usize = 0;
        assert(s@ =~= t + attrs_text(self@.attrs.subrange(0, 0)));
        while j < self.attrs.len()
            invariant
                j <= self.attrs.len(),
                self@.attrs == self.attrs.deep_view(),
                self@.attrs.len() == self.attrs.len(),
                s@ == t + attrs_text(self@.attrs.subrange(0, j as int)),
            decreases self.attrs.len() - j,
        {
            let ghost s0 = s@;
            let ghost kv = self@.attrs[j as int];
            assert(kv == (self.attrs[j as int].0@, self.attrs[j as int].1@));
            push_char(&mut s, '[');
            s.append(self.attrs[j].0.as_str());
            push_char(&mut s, ':');
            push_char(&mut s, ' ');
            s.append(self.attrs[j].1.as_str());
            push_char(&mut s, ']');
            push_char(&mut s, '\n');
            assert(self@.attrs.subrange(0, j + 1).drop_last() =~= self@.attrs.subrange(0, j as int));
            assert(s@ =~= s0 + seq!['['] + kv.0 + seq![':', ' '] + kv.1 + seq![']', '\n']);
            j += 1;
        }
        assert(self@.attrs.subrange(0, self.attrs.len() as int) =~= self@.attrs);
        let ghost u = s@;
        push_char(&mut s, '\n');
        s.append(self.content.as_str());
        assert(s@ =~= u + seq!['\n'] + self@.content);
        s
    }

    /// Remove all tags from the note and return them.
    pub fn take_tags(&mut self) -> (r: Vec<String>)
        requires
            old(self).wf(),
        ensures
            final(self).wf(),
            r.deep_view() == old(self)@.tags,
            final(self)@.tags == Seq::<Seq<char>>::empty(),
            final(self)@.attrs == old(self)@.attrs,
            final(self)@.content == old(self)@.content,
    {
        let mut r: Vec<String> = Vec::new();
        std::mem::swap(&mut r, &mut self.tags);
        assert(self.tags.deep_view() =~= Seq::<Seq<char>>::empty());
        r
    }

    /// Erase the note's content.
    pub fn clear_content(&mut self)
        requires
            old(self).wf(),
        ensures
            final(self).wf(),
            final(self)@.content == Seq::<char>::empty(),
            final(self)@.tags == old(self)@.tags,
            final(self)@.attrs == old(self)@.attrs,
    {
        self.content = String::new();
    }
}

impl std::str::FromStr for Note {
    type Err = FileError;

    fn from_str(s: &str) -> (r: Result<Note, FileError>)
        ensures
            r matches Ok(note) ==> parse_note_spec(s@) == Ok::<NoteV, int>(note@) && note.wf(),
            r matches Err(e) ==> parse_note_spec(s@) matches Err(l) && e.line_of() == Some(l as usize),
    {
        Note::parse(s)
    }
}

} // verus!
