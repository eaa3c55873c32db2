//! Contacts: the information that a contact's note holds.
//!
//! A contact is stored as a note whose content, if it parses as a note, is the
//! next note of the contact, and so on. The first note is in the group
//! `default`; a later note that has tags is in the group named by its first
//! tag (without the `@`), one without tags in the group of the note before it.
//! Group names are lower-cased. A field of a group is looked up in the first
//! note of that group.
use vstd::prelude::*;

use multimap::MultiMap;

use crate::filter::{Condition, FilterOp, Function};
use crate::lexical::{char_len, find_char_from, lower_of, lowercase, trim, trim_str};
use crate::note::{attr_get, parse_note_spec, Note, NoteV};
use crate::record::{compare, default_group, matches_by, regex_is_match, split_group};

verus! {

#[verifier::external_type_specification]
#[verifier::external_body]
#[verifier::reject_recursive_types(K)]
#[verifier::reject_recursive_types(V)]
#[verifier::reject_recursive_types(S)]
pub struct ExMultiMap<K, V, S>(MultiMap<K, V, S>);

/// Positions of notes, keyed by group name.
pub type GroupIndex = MultiMap<String, usize>;

/// What a multimap from group names to note positions holds: for each key,
/// its values in the order they were inserted.
pub uninterp spec fn group_index(m: MultiMap<String, usize>) -> Map<Seq<char>, Seq<usize>>;

pub open spec fn no_groups() -> Map<Seq<char>, Seq<usize>> {
    Map::empty()
}

/// Relies on `MultiMap::new`: a multimap without keys.
#[verifier::external_body]
fn index_new() -> (r: GroupIndex)
    ensures
        group_index(r) == no_groups(),
{
    MultiMap::new()
}

/// Relies on `MultiMap::insert`: the value is pushed onto the key's values,
/// or the key is added with the value alone.
#[verifier::external_body]
fn index_insert(m: &mut MultiMap<String, usize>, k: String, v: usize)
    ensures
        group_index(*final(m)) == (if group_index(*old(m)).contains_key(k@) {
            group_index(*old(m)).insert(k@, group_index(*old(m))[k@].push(v))
        } else {
            group_index(*old(m)).insert(k@, seq![v])
        }),
{
    m.insert(k, v)
}

/// Relies on `MultiMap::get`: the first value of the key, if it has one. It
/// indexes the key's values, so a key must not have none.
#[verifier::external_body]
fn index_get(m: &MultiMap<String, usize>, k: &str) -> (r: Option<usize>)
    requires
        group_index(*m).contains_key(k@) ==> group_index(*m)[k@].len() > 0,
    ensures
        r == (if group_index(*m).contains_key(k@) {
            Some(group_index(*m)[k@][0])
        } else {
            None::<usize>
        }),
{
    m.get(k).copied()
}

/// The information of a person or organisation.
#[derive(Debug)]
pub struct Contact {
    tags: Vec<String>,
    groups: Vec<String>,
    notes: Vec<Note>,
    info: MultiMap<String, usize>,
}

/// The mathematical form of a [Contact]: its tags, its groups in the order
/// they first appear, its notes, and for each group the positions of its notes.
pub struct ContactV {
    pub tags: Seq<Seq<char>>,
    pub groups: Seq<Seq<char>>,
    pub notes: Seq<NoteV>,
    pub info: Map<Seq<char>, Seq<usize>>,
}

impl View for Contact {
    type V = ContactV;

    closed spec fn view(&self) -> ContactV {
        ContactV {
            tags: self.tags.deep_view(),
            groups: self.groups.deep_view(),
            notes: self.notes@.map_values(|n: Note| n@),
            info: group_index(self.info),
        }
    }
}

/// Each group has a note, and every position is one of a note.
pub open spec fn index_ok(info: Map<Seq<char>, Seq<usize>>, n: int) -> bool {
    forall|g: Seq<char>| #[trigger] info.contains_key(g) ==> info[g].len() > 0 && forall|j: int|
        0 <= j < info[g].len() ==> info[g][j] < n
}

impl Contact {
    #[verifier::type_invariant]
    closed spec fn inv(self) -> bool {
        index_ok(group_index(self.info), self.notes.len() as int)
    }
}

/// Why a note is no contact.
#[derive(Clone, Copy, Debug, PartialEq, Eq, Structural)]
pub enum ContactError {
    /// The contact has no name.
    NoName,
}

/// The notes of a contact, starting at `n`, following at most `fuel` levels.
/// A note that holds another one keeps no content.
pub open spec fn chain_from(n: NoteV, fuel: nat) -> Seq<NoteV>
    decreases fuel,
{
    if fuel == 0 {
        seq![n]
    } else {
        match parse_note_spec(n.content) {
            Ok(child) => {
                let p = NoteV { content: seq![], ..n };
                if child.content.len() == 0 {
                    seq![p, child]
                } else {
                    seq![p] + chain_from(child, (fuel - 1) as nat)
                }
            },
            Err(_) => seq![n],
        }
    }
}

/// The levels a contact may have: one more than its content's length, as
/// each level below the first takes at least one character.
pub open spec fn chain_fuel(n: NoteV) -> nat {
    if n.content.len() < usize::MAX {
        (n.content.len() + 1) as nat
    } else {
        n.content.len()
    }
}

/// A tag without its leading `@`.
pub open spec fn tag_name(t: Seq<char>) -> Seq<char> {
    if t.len() > 0 {
        t.subrange(1, t.len() as int)
    } else {
        t
    }
}

/// The group of the `i`-th note.
pub open spec fn note_group(notes: Seq<NoteV>, i: int) -> Seq<char>
    decreases i + 1,
{
    if i < 0 || i >= notes.len() {
        default_group()
    } else if notes[i].tags.len() > 0 {
        tag_name(notes[i].tags[0])
    } else {
        note_group(notes, i - 1)
    }
}

/// The groups (each once, in order) and the positions of the notes of each
/// group, for the first `k` notes.
pub open spec fn build_index(notes: Seq<NoteV>, k: int) -> (Seq<Seq<char>>, Map<Seq<char>, Seq<usize>>)
    decreases k,
{
    if k <= 0 || k > notes.len() {
        (seq![], Map::empty())
    } else {
        let (gs, m) = build_index(notes, k - 1);
        let g = lower_of(note_group(notes, k - 1));
        if m.contains_key(g) {
            (gs, m.insert(g, m[g].push((k - 1) as usize)))
        } else {
            (gs.push(g), m.insert(g, seq![(k - 1) as usize]))
        }
    }
}

/// The contact that a note holds, before its name is checked.
pub open spec fn contact_spec(note: NoteV) -> ContactV {
    let root = NoteV { tags: seq![], ..note };
    let notes = chain_from(root, chain_fuel(root));
    let (gs, m) = build_index(notes, notes.len() as int);
    ContactV { tags: note.tags, groups: gs, notes, info: m }
}

/// The value of field `f` in group `g`: the field of the group's first note.
pub open spec fn field_of(c: ContactV, g: Seq<char>, f: Seq<char>) -> Option<Seq<char>> {
    if c.info.contains_key(lower_of(g)) {
        attr_get(c.notes[c.info[lower_of(g)][0] as int].attrs, f)
    } else {
        None
    }
}

/// The value that a condition's field name addresses in a contact.
pub open spec fn contact_look(c: ContactV) -> spec_fn(Seq<char>) -> Option<Seq<char>> {
    |f: Seq<char>| field_of(c, split_group(f).0, split_group(f).1)
}

pub open spec fn key_name() -> Seq<char> {
    seq!['N', 'a', 'm', 'e']
}

pub open spec fn key_full_name() -> Seq<char> {
    seq!['F', 'u', 'l', 'l', ' ', 'N', 'a', 'm', 'e']
}

pub open spec fn key_given_name() -> Seq<char> {
    seq!['G', 'i', 'v', 'e', 'n', ' ', 'N', 'a', 'm', 'e']
}

pub open spec fn key_first_name() -> Seq<char> {
    seq!['F', 'i', 'r', 's', 't', ' ', 'N', 'a', 'm', 'e']
}

pub open spec fn key_family_name() -> Seq<char> {
    seq!['F', 'a', 'm', 'i', 'l', 'y', ' ', 'N', 'a', 'm', 'e']
}

pub open spec fn key_last_name() -> Seq<char> {
    seq!['L', 'a', 's', 't', ' ', 'N', 'a', 'm', 'e']
}

/// The default group's field `a`, or else its field `b`.
pub open spec fn either_field(c: ContactV, a: Seq<char>, b: Seq<char>) -> Option<Seq<char>> {
    match field_of(c, default_group(), a) {
        Some(v) => Some(v),
        None => field_of(c, default_group(), b),
    }
}

pub open spec fn or_empty(v: Option<Seq<char>>) -> Seq<char> {
    match v {
        Some(s) => s,
        None => seq![],
    }
}

/// A contact's name: its Name or Full Name, else its given (or first) name
/// and its family (or last) name, as far as it has them.
pub open spec fn name_spec(c: ContactV) -> Option<Seq<char>> {
    match either_field(c, key_name(), key_full_name()) {
        Some(v) => Some(v),
        None => {
            let given = either_field(c, key_given_name(), key_first_name());
            let family = either_field(c, key_family_name(), key_last_name());
            if given is Some || family is Some {
                Some(trim(or_empty(given) + seq![' '] + or_empty(family)))
            } else {
                None
            }
        },
    }
}

pub open spec fn notes_view(v: Seq<Note>) -> Seq<NoteV> {
    v.map_values(|n: Note| n@)
}

/// The notes of a contact.
fn note_chain(root: Note) -> (r: Vec<Note>)
    requires
        root.wf(),
    ensures
        notes_view(r@) == chain_from(root@, chain_fuel(root@)),
{
    let len = char_len(root.content());
    let fuel0: usize = if len < usize::MAX { len + 1 } else { len };
    let ghost full = chain_from(root@, chain_fuel(root@));
    let mut fuel = fuel0;
    let mut notes: Vec<Note> = Vec::new();
    let mut cur: Option<Note> = Some(root);
    assert(notes_view(notes@) =~= Seq::<NoteV>::empty());
    while cur.is_some()
        invariant
            cur matches Some(p) ==> p.wf() && notes_view(notes@) + chain_from(p@, fuel as nat) == full,
            cur is None ==> notes_view(notes@) == full,
        decreases fuel as int + if cur is Some { 1int } else { 0int },
    {
        let mut parent = cur.unwrap();
        let ghost nv = notes_view(notes@);
        let ghost pv = parent@;
        if fuel == 0 {
            notes.push(parent);
            assert(notes_view(notes@) =~= nv.push(pv));
            assert(notes_view(notes@) =~= nv + chain_from(pv, 0));
            cur = None;
        } else {
            match Note::parse(parent.content()) {
                Ok(child) => {
                    parent.clear_content();
                    let ghost cleared = parent@;
                    assert(cleared == NoteV { content: seq![], ..pv });
                    notes.push(parent);
                    assert(notes_view(notes@) =~= nv.push(cleared));
                    if char_len(child.content()) == 0 {
                        let ghost cv = child@;
                        notes.push(child);
                        assert(notes_view(notes@) =~= nv + seq![cleared, cv]);
                        cur = None;
                    } else {
                        assert(chain_from(pv, fuel as nat) == seq![cleared] + chain_from(child@, (fuel - 1) as nat));
                        assert(notes_view(notes@) + chain_from(child@, (fuel - 1) as nat) =~= nv + chain_from(
                            pv,
                            fuel as nat,
                        ));
                        cur = Some(child);
                        fuel -= 1;
                    }
                },
                Err(_) => {
                    notes.push(parent);
                    assert(notes_view(notes@) =~= nv + chain_from(pv, fuel as nat));
                    cur = None;
                },
            }
        }
    }
    notes
}

impl Contact {
    /// Create a contact from the given note.
    pub fn new(contact: Note) -> (r: Result<Contact, ContactError>)
        requires
            contact.wf(),
        ensures
            r matches Ok(c) ==> c@ == contact_spec(contact@),
            r is Ok <==> name_spec(contact_spec(contact@)) is Some,
    {
        let mut root = contact;
        let ghost cv = root@;
        let tags = root.take_tags();
        assert(root@ == NoteV { tags: seq![], ..cv });
        let notes = note_chain(root);
        let ghost ns = notes_view(notes@);
        let mut groups: Vec<String> = Vec::new();
        let mut info = index_new();
        let mut last_group = String::from_str("default");
        proof {
            reveal_strlit("default");
        }
        assert(last_group@ =~= default_group());
        assert(groups.deep_view() =~= Seq::<Seq<char>>::empty());
        let mut k: usize = 0;
        while k < notes.len()
            invariant
                k <= notes.len(),
                ns == notes_view(notes@),
                ns.len() == notes.len(),
                last_group@ == note_group(ns, k - 1),
                (groups.deep_view(), group_index(info)) == build_index(ns, k as int),
                index_ok(group_index(info), k as int),
            decreases notes.len() - k,
        {
            let note = &notes[k];
            assert(ns[k as int] == note@);
            let tags_k = note.tags();
            if tags_k.len() > 0 {
                let t = tags_k[0].as_str();
                assert(t@ == note@.tags[0]);
                let tl = char_len(t);
                if tl >= 1 {
                    last_group = String::from_str(t.substring_char(1, tl));
                } else {
                    last_group = String::from_str(t);
                }
            }
            assert(last_group@ == note_group(ns, k as int));
            let g = lowercase(last_group.as_str());
            let ghost m0 = group_index(info);
            let present = index_get(&info, g.as_str()).is_some();
            if !present {
                let ghost g0 = groups.deep_view();
                groups.push(g.clone());
                assert(groups.deep_view() =~= g0.push(g@));
            }
            index_insert(&mut info, g, k);
            assert(index_ok(group_index(info), k + 1)) by {
                assert forall|h: Seq<char>| #[trigger] group_index(info).contains_key(h) implies group_index(
                    info,
                )[h].len() > 0 && forall|j: int|
                    0 <= j < group_index(info)[h].len() ==> group_index(info)[h][j] < k + 1 by {
                    if m0.contains_key(h) {
                        assert(m0[h].len() > 0);
                    }
                }
            }
            k += 1;
        }
        let c = Contact { tags, groups, notes, info };
        if c.name().is_some() {
            Ok(c)
        } else {
            Err(ContactError::NoName)
        }
    }

    /// The value of a field of the given group: the field of the group's
    /// first note.
    pub fn get_field_from(&self, group: &str, name: &str) -> (r: Option<&String>)
        ensures
            r matches Some(v) ==> field_of(self@, group@, name@) == Some(v@),
            r is None ==> field_of(self@, group@, name@) is None,
    {
        proof {
            use_type_invariant(self);
        }
        let g = lowercase(group);
        match index_get(&self.info, g.as_str()) {
            Some(i) => {
                assert(self@.notes[i as int] == self.notes[i as int]@);
                self.notes[i].get_attribute(name)
            },
            None => None,
        }
    }

    /// The value of a field of the default group.
    pub fn get_field(&self, name: &str) -> (r: Option<&String>)
        ensures
            r matches Some(v) ==> field_of(self@, default_group(), name@) == Some(v@),
            r is None ==> field_of(self@, default_group(), name@) is None,
    {
        proof {
            reveal_strlit("default");
        }
        let g = "default";
        assert(g@ =~= default_group());
        self.get_field_from(g, name)
    }

    /// The value that a condition's field name (`group:field` or `field`)
    /// addresses.
    pub fn field_value(&self, f: &str) -> (r: Option<&String>)
        ensures
            r matches Some(v) ==> contact_look(self@)(f@) == Some(v@),
            r is None ==> contact_look(self@)(f@) is None,
    {
        let n = char_len(f);
        match find_char_from(f, n, ':', 0) {
            Some(i) => self.get_field_from(f.substring_char(0, i), f.substring_char(i + 1, n)),
            None => self.get_field(f),
        }
    }

    /// The value of the default group's field `a`, or else of its field `b`.
    fn either_field(&self, a: &str, b: &str) -> (r: Option<&String>)
        ensures
            r matches Some(v) ==> either_field(self@, a@, b@) == Some(v@),
            r is None ==> either_field(self@, a@, b@) is None,
    {
        match self.get_field(a) {
            Some(v) => Some(v),
            None => self.get_field(b),
        }
    }

    /// The contact's name; see [name_spec].
    pub fn name(&self) -> (r: Option<String>)
        ensures
            r matches Some(v) ==> name_spec(self@) == Some(v@),
            r is None ==> name_spec(self@) is None,
    {
        proof {
            reveal_strlit("Name");
            reveal_strlit("Full Name");
            reveal_strlit("Given Name");
            reveal_strlit("First Name");
            reveal_strlit("Family Name");
            reveal_strlit("Last Name");
            reveal_strlit(" ");
        }
        assert("Name"@ =~= key_name());
        assert("Full Name"@ =~= key_full_name());
        assert("Given Name"@ =~= key_given_name());
        assert("First Name"@ =~= key_first_name());
        assert("Family Name"@ =~= key_family_name());
        assert("Last Name"@ =~= key_last_name());
        assert(" "@ =~= seq![' ']);
        if let Some(v) = self.either_field("Name", "Full Name") {
            return Some(v.clone());
        }
        let given = self.either_field("Given Name", "First Name");
        let family = self.either_field("Family Name", "Last Name");
        if given.is_none() && family.is_none() {
            return None;
        }
        let mut s = String::new();
        if let Some(g) = given {
            s.append(g.as_str());
        }
        s.append(" ");
        if let Some(f) = family {
            s.append(f.as_str());
        }
        assert(s@ =~= or_empty(either_field(self@, key_given_name(), key_first_name())) + seq![' ']
            + or_empty(either_field(self@, key_family_name(), key_last_name())));
        Some(String::from_str(trim_str(s.as_str())))
    }

    /// The groups of the contact, each once, in order.
    pub fn groups(&self) -> (r: &[String])
        ensures
            r@.map_values(|g: String| g@) == self@.groups,
    {
        let r = self.groups.as_slice();
        assert(r@.map_values(|g: String| g@) =~= self@.groups);
        r
    }

    /// The tags of the contact (those of its first note).
    pub fn tags(&self) -> (r: &[String])
        ensures
            r@.map_values(|t: String| t@) == self@.tags,
    {
        let r = self.tags.as_slice();
        assert(r@.map_values(|t: String| t@) =~= self@.tags);
        r
    }

    /// Whether the contact satisfies a condition; `None` for a `REF` or
    /// `SPLIT` clause that the evaluation reaches.
    pub fn matches(&self, condition: &Condition) -> (r: Option<bool>)
        ensures
            r == matches_by(condition@, contact_look(self@)),
        decreases condition,
    {
        match condition {
            Condition::All => Some(true),
            Condition::Filter(f, op, v) => match self.field_value(f.as_str()) {
                None => Some(*op == FilterOp::Not),
                Some(a) => Some(compare(*op, a.as_str(), v.as_str())),
            },
            Condition::Function(Function::Regex(f, p)) => match self.field_value(f.as_str()) {
                None => Some(false),
                Some(a) => Some(regex_is_match(p.as_str(), a.as_str()) == Some(true)),
            },
            Condition::Function(_) => None,
            Condition::And(b) => match self.matches(&b.0) {
                Some(true) => self.matches(&b.1),
                x => x,
            },
            Condition::Or(b) => match self.matches(&b.0) {
                Some(false) => self.matches(&b.1),
                x => x,
            },
        }
    }
}

} // verus!
