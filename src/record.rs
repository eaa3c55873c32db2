//! Records and the evaluation of conditions against them.
//!
//! A record holds string values addressed by a group name and a field name.
//! Group names are compared once lower-cased, field names exactly.
//! A condition's field `group:field` looks in `group`; a bare `field` looks in
//! the group `default`.
use vstd::prelude::*;

use crate::filter::{CondV, Condition, FilterOp, Function, FunctionV};
use crate::lexical::{char_len, find_char, find_char_from, lower_of, lowercase};
use crate::number::{num_cmp, num_compare, num_of, parse_num};

verus! {

/// One value of a record: its group, its field name and the value.
#[derive(Debug)]
pub struct Entry {
    pub group: String,
    pub field: String,
    pub value: String,
}

/// A record's data, such as the fields of a contact.
#[derive(Debug)]
pub struct Record {
    entries: Vec<Entry>,
}

impl View for Record {
    type V = Seq<(Seq<char>, Seq<char>, Seq<char>)>;

    closed spec fn view(&self) -> Seq<(Seq<char>, Seq<char>, Seq<char>)> {
        self.entries@.map_values(|e: Entry| (e.group@, e.field@, e.value@))
    }
}

/// Two group names that are equal once lower-cased.
pub open spec fn same_name(a: Seq<char>, b: Seq<char>) -> bool {
    lower_of(a) == lower_of(b)
}

pub open spec fn entry_is(e: (Seq<char>, Seq<char>, Seq<char>), g: Seq<char>, f: Seq<char>) -> bool {
    same_name(e.0, g) && e.1 == f
}

/// Index of the first entry at or after `i` for group `g` and field `f`.
pub open spec fn find_entry(es: Seq<(Seq<char>, Seq<char>, Seq<char>)>, g: Seq<char>, f: Seq<char>, i: int) -> Option<int>
    decreases es.len() - i,
{
    if i < 0 || i >= es.len() {
        None
    } else if entry_is(es[i], g, f) {
        Some(i)
    } else {
        find_entry(es, g, f, i + 1)
    }
}

/// The value of field `f` in group `g`.
pub open spec fn lookup(es: Seq<(Seq<char>, Seq<char>, Seq<char>)>, g: Seq<char>, f: Seq<char>) -> Option<Seq<char>> {
    match find_entry(es, g, f, 0) {
        Some(i) => Some(es[i].2),
        None => None,
    }
}

pub open spec fn default_group() -> Seq<char> {
    seq!['d', 'e', 'f', 'a', 'u', 'l', 't']
}

/// The group and the field that a condition's field name addresses.
pub open spec fn split_group(f: Seq<char>) -> (Seq<char>, Seq<char>) {
    match find_char(f, ':', 0) {
        Some(i) => (f.subrange(0, i), f.subrange(i + 1, f.len() as int)),
        None => (default_group(), f),
    }
}

/// Whether a stored value `a` stands in relation `op` to the query's value
/// `v`. Ordering operators compare numbers and fail where either side is not
/// one.
pub open spec fn compare_spec(op: FilterOp, a: Seq<char>, v: Seq<char>) -> bool {
    match op {
        FilterOp::EqualTo => a == v,
        FilterOp::Not => a != v,
        _ => match (num_of(a), num_of(v)) {
            (Some(x), Some(y)) => match num_cmp(x, y) {
                Some(c) => match op {
                    FilterOp::LessThan => c < 0,
                    FilterOp::LessEq => c <= 0,
                    FilterOp::GreaterThan => c > 0,
                    _ => c >= 0,
                },
                None => false,
            },
            _ => false,
        },
    }
}

/// What the regular expression `pattern` gives on `text`: `None` where it is
/// no valid pattern, else whether it matches somewhere in `text`.
pub uninterp spec fn regex_outcome(pattern: Seq<char>, text: Seq<char>) -> Option<bool>;

/// Relies on `regex::Regex::new`, which compiles `pattern` or fails, and on
/// `regex::Regex::is_match`, which tells whether the compiled pattern matches
/// anywhere in `text`. Both results depend on the two strings alone.
#[verifier::external_body]
pub(crate) fn regex_is_match(pattern: &str, text: &str) -> (r: Option<bool>)
    ensures
        r == regex_outcome(pattern@, text@),
{
    match regex::Regex::new(pattern) {
        Ok(re) => Some(re.is_match(text)),
        Err(_) => None,
    }
}

/// Whether a condition holds where `look` gives the value that a field name
/// (`group:field` or `field`) addresses; `None` for a `REF` or `SPLIT` clause,
/// which a single record cannot decide. `AND` and `OR` look at their right side
/// only where the left one does not settle the result.
pub open spec fn matches_by(c: CondV, look: spec_fn(Seq<char>) -> Option<Seq<char>>) -> Option<bool>
    decreases c,
{
    match c {
        CondV::All => Some(true),
        CondV::Filter(f, op, v) => match look(f) {
            None => Some(op == FilterOp::Not),
            Some(a) => Some(compare_spec(op, a, v)),
        },
        CondV::Function(FunctionV::Regex(f, p)) => match look(f) {
            None => Some(false),
            Some(a) => Some(regex_outcome(p, a) == Some(true)),
        },
        CondV::Function(_) => None,
        CondV::And(l, rr) => match matches_by(*l, look) {
            Some(true) => matches_by(*rr, look),
            x => x,
        },
        CondV::Or(l, rr) => match matches_by(*l, look) {
            Some(false) => matches_by(*rr, look),
            x => x,
        },
    }
}

/// The value that a field name addresses in a record.
pub open spec fn record_look(r: Seq<(Seq<char>, Seq<char>, Seq<char>)>) -> spec_fn(Seq<char>) -> Option<Seq<char>> {
    |f: Seq<char>| lookup(r, split_group(f).0, split_group(f).1)
}

/// Whether a record satisfies a condition.
pub open spec fn matches_spec(c: CondV, r: Seq<(Seq<char>, Seq<char>, Seq<char>)>) -> Option<bool> {
    matches_by(c, record_look(r))
}

/// Whether two group names are equal once lower-cased.
pub fn same_name_str(a: &str, b: &str) -> (r: bool)
    ensures
        r == same_name(a@, b@),
{
    let la = lowercase(a);
    let lb = lowercase(b);
    str_eq(la.as_str(), lb.as_str())
}

/// Whether two strings hold the same characters.
pub fn str_eq(a: &str, b: &str) -> (r: bool)
    ensures
        r == (a@ == b@),
{
    let n = char_len(a);
    if n != char_len(b) {
        return false;
    }
    let mut i: usize = 0;
    while i < n
        invariant
            n == a@.len(),
            n == b@.len(),
            i <= n,
            forall|k: int| 0 <= k < i ==> a@[k] == b@[k],
        decreases n - i,
    {
        if a.get_char(i) != b.get_char(i) {
            return false;
        }
        i += 1;
    }
    assert(a@ =~= b@);
    true
}

/// Whether the stored value `a` stands in relation `op` to `v`.
pub fn compare(op: FilterOp, a: &str, v: &str) -> (r: bool)
    ensures
        r == compare_spec(op, a@, v@),
{
    match op {
        FilterOp::EqualTo => str_eq(a, v),
        FilterOp::Not => !str_eq(a, v),
        _ => match (parse_num(a), parse_num(v)) {
            (Some(x), Some(y)) => match num_compare(&x, &y) {
                Some(c) => match op {
                    FilterOp::LessThan => c < 0,
                    FilterOp::LessEq => c <= 0,
                    FilterOp::GreaterThan => c > 0,
                    _ => c >= 0,
                },
                None => false,
            },
            _ => false,
        },
    }
}

impl Record {
    /// A record with no values.
    pub fn new() -> (r: Record)
        ensures
            r@ == Seq::<(Seq<char>, Seq<char>, Seq<char>)>::empty(),
    {
        let r = Record { entries: Vec::new() };
        assert(r@ =~= Seq::<(Seq<char>, Seq<char>, Seq<char>)>::empty());
        r
    }

    /// Index of the entry for `field` in `group`.
    fn position(&self, group: &str, field: &str) -> (r: Option<usize>)
        ensures
            r matches Some(i) ==> find_entry(self@, group@, field@, 0) == Some(i as int) && i < self@.len(),
            r is None ==> find_entry(self@, group@, field@, 0) is None,
    {
        let mut i: usize = 0;
        while i < self.entries.len()
            invariant
                i <= self.entries.len(),
                self@.len() == self.entries.len(),
                find_entry(self@, group@, field@, 0) == find_entry(self@, group@, field@, i as int),
            decreases self.entries.len() - i,
        {
            let e = &self.entries[i];
            assert(self@[i as int] == (e.group@, e.field@, e.value@));
            if same_name_str(e.group.as_str(), group) && str_eq(e.field.as_str(), field) {
                return Some(i);
            }
            i += 1;
        }
        None
    }

    /// Set `field` of `group` to `value`: an existing entry for them (the
    /// group in any case) takes the new value, else a new entry is added.
    pub fn set_field(&mut self, group: &str, field: &str, value: &str)
        ensures
            find_entry(old(self)@, group@, field@, 0) matches Some(i) ==> final(self)@ == old(self)@.update(
                i,
                (old(self)@[i].0, old(self)@[i].1, value@),
            ),
            find_entry(old(self)@, group@, field@, 0) is None ==> final(self)@ == old(self)@.push(
                (group@, field@, value@),
            ),
    {
        match self.position(group, field) {
            Some(i) => {
                let ghost before = self@;
                let g = self.entries[i].group.clone();
                let f = self.entries[i].field.clone();
                self.entries.set(i, Entry { group: g, field: f, value: String::from_str(value) });
                assert(self@ =~= before.update(i as int, (before[i as int].0, before[i as int].1, value@)));
            },
            None => {
                let ghost before = self@;
                self.entries.push(
                    Entry {
                        group: String::from_str(group),
                        field: String::from_str(field),
                        value: String::from_str(value),
                    },
                );
                assert(self@ =~= before.push((group@, field@, value@)));
            },
        }
    }

    /// The value of `field` in `group`.
    pub fn get_field_from(&self, group: &str, field: &str) -> (r: Option<&String>)
        ensures
            r matches Some(v) ==> lookup(self@, group@, field@) == Some(v@),
            r is None ==> lookup(self@, group@, field@) is None,
    {
        match self.position(group, field) {
            Some(i) => {
                assert(self@[i as int].2 == self.entries[i as int].value@);
                Some(&self.entries[i].value)
            },
            None => None,
        }
    }

    /// The value of `field` in the `default` group.
    pub fn get_field(&self, field: &str) -> (r: Option<&String>)
        ensures
            r matches Some(v) ==> lookup(self@, default_group(), field@) == Some(v@),
            r is None ==> lookup(self@, default_group(), field@) is None,
    {
        proof {
            reveal_strlit("default");
        }
        let g = "default";
        assert(g@ =~= default_group());
        self.get_field_from(g, field)
    }

    /// The value that a condition's field name (`group:field` or `field`)
    /// addresses.
    pub fn field_value(&self, f: &str) -> (r: Option<&String>)
        ensures
            r matches Some(v) ==> lookup(self@, split_group(f@).0, split_group(f@).1) == Some(v@),
            r is None ==> lookup(self@, split_group(f@).0, split_group(f@).1) is None,
    {
        let n = char_len(f);
        match find_char_from(f, n, ':', 0) {
            Some(i) => self.get_field_from(f.substring_char(0, i), f.substring_char(i + 1, n)),
            None => self.get_field(f),
        }
    }

    /// Evaluate a condition against this record; `None` where it holds a
    /// `REF` or `SPLIT` clause that the evaluation reaches.
    pub fn matches(&self, condition: &Condition) -> (r: Option<bool>)
        ensures
            r == matches_spec(condition@, self@),
        decreases condition,
    {
        match condition {
            Condition::All => Some(true),
            Condition::Filter(f, op, v) => match self.field_value(f.as_str()) {
                None => Some(*op == FilterOp::Not),
                Some(a) => Some(compare(*op, a.as_str(), v.as_str())),
            },
            Condition::Function(Function::Regex(f, p)) => match self.field_value(f.as_str()) {
                None => Some(false),
                Some(a) => Some(regex_is_match(p.as_str(), a.as_str()) == Some(true)),
            },
            Condition::Function(_) => None,
            Condition::And(b) => match self.matches(&b.0) {
                Some(true) => self.matches(&b.1),
                x => x,
            },
            Condition::Or(b) => match self.matches(&b.0) {
                Some(false) => self.matches(&b.1),
                x => x,
            },
        }
    }
}

} // verus!
