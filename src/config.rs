//! Configuration in a simple INI format.
//!
//! - A group is named within brackets; the group before any is `DEFAULT`.
//! - `variable = value` assigns; the value may hold `=`.
//! - Whitespace around lines, group names, variables and values is dropped.
//! - A line that begins with `;` is a comment.
//! - Where a variable is set twice, the last value stands.
use vstd::prelude::*;

use crate::error::{parse_error, FileError};
use crate::lexical::{
    char_len, find_char, find_char_from, split_on, split_str, trim, trim_end, trim_end_str,
    trim_start, trim_start_str, trim_str,
};
use crate::lexical::push_char;
use crate::record::str_eq;

verus! {

/// The values of a configuration, keyed by group and variable.
#[derive(Debug)]
pub struct Config {
    values: Vec<(String, String, String)>,
}

pub type ConfigV = Seq<(Seq<char>, Seq<char>, Seq<char>)>;

impl View for Config {
    type V = ConfigV;

    closed spec fn view(&self) -> ConfigV {
        self.values.deep_view()
    }
}

pub open spec fn default_group_name() -> Seq<char> {
    seq!['D', 'E', 'F', 'A', 'U', 'L', 'T']
}

/// Index of the value of `var` in `group`, at or after `i`.
pub open spec fn find_value(vals: ConfigV, group: Seq<char>, var: Seq<char>, i: int) -> Option<int>
    decreases vals.len() - i,
{
    if i < 0 || i >= vals.len() {
        None
    } else if vals[i].0 == group && vals[i].1 == var {
        Some(i)
    } else {
        find_value(vals, group, var, i + 1)
    }
}

/// The value of `var` in `group`.
pub open spec fn config_get(vals: ConfigV, group: Seq<char>, var: Seq<char>) -> Option<Seq<char>> {
    match find_value(vals, group, var, 0) {
        Some(i) => Some(vals[i].2),
        None => None,
    }
}

/// The values once `var` in `group` is set to `val`.
pub open spec fn config_insert(vals: ConfigV, group: Seq<char>, var: Seq<char>, val: Seq<char>) -> ConfigV {
    match find_value(vals, group, var, 0) {
        Some(i) => vals.update(i, (group, var, val)),
        None => vals.push((group, var, val)),
    }
}

/// Each (group, variable) pair has one value at most.
pub open spec fn unique_keys(vals: ConfigV) -> bool {
    forall|i: int, j: int|
        0 <= i < j < vals.len() ==> !(#[trigger] vals[i].0 == #[trigger] vals[j].0 && vals[i].1 == vals[j].1)
}

pub proof fn lemma_find_value_is(vals: ConfigV, g: Seq<char>, k: Seq<char>, i: int, j: int)
    requires
        0 <= i <= j < vals.len(),
        vals[j].0 == g && vals[j].1 == k,
        forall|m: int| i <= m < j ==> !(vals[m].0 == g && vals[m].1 == k),
    ensures
        find_value(vals, g, k, i) == Some(j),
    decreases j - i,
{
    if i < j {
        lemma_find_value_is(vals, g, k, i + 1, j);
    }
}

pub proof fn lemma_find_value_none(vals: ConfigV, g: Seq<char>, k: Seq<char>, i: int)
    requires
        0 <= i,
        forall|m: int| i <= m < vals.len() ==> !(vals[m].0 == g && vals[m].1 == k),
    ensures
        find_value(vals, g, k, i) is None,
    decreases vals.len() - i,
{
    if i < vals.len() {
        lemma_find_value_none(vals, g, k, i + 1);
    }
}

pub proof fn lemma_find_value_facts(vals: ConfigV, g: Seq<char>, k: Seq<char>, i: int)
    requires
        0 <= i,
    ensures
        find_value(vals, g, k, i) matches Some(j) ==> i <= j < vals.len() && vals[j].0 == g && vals[j].1 == k
            && forall|m: int| i <= m < j ==> !(vals[m].0 == g && vals[m].1 == k),
        find_value(vals, g, k, i) is None ==> forall|m: int| i <= m < vals.len() ==> !(vals[m].0 == g && vals[m].1 == k),
    decreases vals.len() - i,
{
    if i < vals.len() {
        lemma_find_value_facts(vals, g, k, i + 1);
    }
}

/// Setting a value keeps every key unique, gives the key its new value, and
/// leaves every other key's value as it was.
pub proof fn lemma_insert(vals: ConfigV, g: Seq<char>, k: Seq<char>, v: Seq<char>, g2: Seq<char>, k2: Seq<char>)
    requires
        unique_keys(vals),
    ensures
        unique_keys(config_insert(vals, g, k, v)),
        config_get(config_insert(vals, g, k, v), g, k) == Some(v),
        !(g2 == g && k2 == k) ==> config_get(config_insert(vals, g, k, v), g2, k2) == config_get(vals, g2, k2),
{
    let r = config_insert(vals, g, k, v);
    lemma_find_value_facts(vals, g, k, 0);
    lemma_find_value_facts(vals, g2, k2, 0);
    match find_value(vals, g, k, 0) {
        Some(i) => {
            assert(forall|m: int| 0 <= m < r.len() ==> r[m].0 == vals[m].0 && r[m].1 == vals[m].1);
            lemma_find_value_is(r, g, k, 0, i);
            if !(g2 == g && k2 == k) {
                match find_value(vals, g2, k2, 0) {
                    Some(j) => {
                        lemma_find_value_is(r, g2, k2, 0, j);
                        assert(r[j] == vals[j]);
                    },
                    None => {
                        lemma_find_value_none(r, g2, k2, 0);
                    },
                }
            }
        },
        None => {
            assert(forall|m: int| 0 <= m < vals.len() ==> r[m] == vals[m]);
            lemma_find_value_is(r, g, k, 0, vals.len() as int);
            if !(g2 == g && k2 == k) {
                match find_value(vals, g2, k2, 0) {
                    Some(j) => {
                        lemma_find_value_is(r, g2, k2, 0, j);
                    },
                    None => {
                        lemma_find_value_none(r, g2, k2, 0);
                    },
                }
            }
        },
    }
}

/// The values of `a` with each value of `b[0..k]` set in turn.
pub open spec fn config_merge(a: ConfigV, b: ConfigV, k: int) -> ConfigV
    decreases k,
{
    if k <= 0 || k > b.len() {
        a
    } else {
        let m = config_merge(a, b, k - 1);
        config_insert(m, b[k - 1].0, b[k - 1].1, b[k - 1].2)
    }
}

/// The variables of group `g`, in order.
pub open spec fn vars_of(vals: ConfigV, g: Seq<char>) -> Seq<Seq<char>>
    decreases vals.len(),
{
    if vals.len() == 0 {
        seq![]
    } else if vals.last().0 == g {
        vars_of(vals.drop_last(), g).push(vals.last().1)
    } else {
        vars_of(vals.drop_last(), g)
    }
}

/// The (variable, value) pairs of group `g`, in order.
pub open spec fn group_entries(vals: ConfigV, g: Seq<char>) -> Seq<(Seq<char>, Seq<char>)>
    decreases vals.len(),
{
    if vals.len() == 0 {
        seq![]
    } else if vals.last().0 == g {
        group_entries(vals.drop_last(), g).push((vals.last().1, vals.last().2))
    } else {
        group_entries(vals.drop_last(), g)
    }
}

pub open spec fn pairs_view(v: Seq<(String, String)>) -> Seq<(Seq<char>, Seq<char>)> {
    v.map_values(|a: (String, String)| (a.0@, a.1@))
}

/// The groups of the first `k` values, each once, in the order they first
/// appear.
pub open spec fn group_order(vals: ConfigV, k: int) -> Seq<Seq<char>>
    decreases k,
{
    if k <= 0 || k > vals.len() {
        seq![]
    } else {
        let gs = group_order(vals, k - 1);
        if gs.contains(vals[k - 1].0) {
            gs
        } else {
            gs.push(vals[k - 1].0)
        }
    }
}

/// `variable = value` lines.
pub open spec fn entries_text(es: Seq<(Seq<char>, Seq<char>)>) -> Seq<char>
    decreases es.len(),
{
    if es.len() == 0 {
        seq![]
    } else {
        entries_text(es.drop_last()) + es.last().0 + seq![' ', '=', ' '] + es.last().1 + seq!['\n']
    }
}

/// For each group, a `[group]` line and the lines of its variables.
pub open spec fn groups_text(vals: ConfigV, gs: Seq<Seq<char>>) -> Seq<char>
    decreases gs.len(),
{
    if gs.len() == 0 {
        seq![]
    } else {
        groups_text(vals, gs.drop_last()) + seq!['['] + gs.last() + seq![']', '\n'] + entries_text(
            group_entries(vals, gs.last()),
        )
    }
}

/// A configuration as INI text.
pub open spec fn config_text(vals: ConfigV) -> Seq<char> {
    groups_text(vals, group_order(vals, vals.len() as int))
}

/// `g` names the group of some value.
pub open spec fn is_group_of(vals: ConfigV, g: Seq<char>) -> bool {
    exists|j: int| 0 <= j < vals.len() && vals[j].0 == g
}

/// The state of reading a configuration: the current group, the values and
/// the line numbers of the errors so far.
pub struct ReadState {
    pub group: Seq<char>,
    pub values: ConfigV,
    pub errors: Seq<int>,
}

/// What reading line number `num` (its text `raw`) does.
pub open spec fn read_line_spec(st: ReadState, raw: Seq<char>, num: int) -> ReadState {
    let line = trim(raw);
    if line.len() == 0 || line[0] == ';' {
        st
    } else if line[0] == '[' {
        if line[line.len() - 1] == ']' && line.len() >= 2 {
            ReadState { group: trim(line.subrange(1, line.len() - 1)), ..st }
        } else {
            ReadState { errors: st.errors.push(num), ..st }
        }
    } else {
        match find_char(line, '=', 0) {
            Some(i) => {
                let var = trim_end(line.subrange(0, i));
                if var.len() == 0 {
                    ReadState { errors: st.errors.push(num), ..st }
                } else {
                    ReadState {
                        values: config_insert(
                            st.values,
                            st.group,
                            var,
                            trim_start(line.subrange(i + 1, line.len() as int)),
                        ),
                        ..st
                    }
                }
            },
            None => ReadState { errors: st.errors.push(num), ..st },
        }
    }
}

/// The state after reading the first `k` lines.
pub open spec fn read_lines_spec(lines: Seq<Seq<char>>, k: int) -> ReadState
    decreases k,
{
    if k <= 0 || k > lines.len() {
        ReadState { group: default_group_name(), values: seq![], errors: seq![] }
    } else {
        read_line_spec(read_lines_spec(lines, k - 1), lines[k - 1], k)
    }
}

/// What reading a configuration text gives: its values, or the line numbers
/// of all malformed lines.
pub open spec fn read_config_spec(text: Seq<char>) -> Result<ConfigV, Seq<int>> {
    let lines = split_on(text, '\n');
    let st = read_lines_spec(lines, lines.len() as int);
    if st.errors.len() == 0 {
        Ok(st.values)
    } else {
        Err(st.errors)
    }
}

/// The line numbers of a list of errors.
pub open spec fn error_lines(es: Seq<FileError>) -> Seq<int> {
    es.map_values(|e: FileError| match e.line_of() {
        Some(l) => l as int,
        None => -1,
    })
}

/// Index of the value of `var` in `group`.
fn value_position(vals: &Vec<(String, String, String)>, group: &str, var: &str) -> (r: Option<usize>)
    ensures
        r matches Some(i) ==> find_value(vals.deep_view(), group@, var@, 0) == Some(i as int) && i < vals.len(),
        r is None ==> find_value(vals.deep_view(), group@, var@, 0) is None,
{
    let mut i: usize = 0;
    while i < vals.len()
        invariant
            i <= vals.len(),
            vals.deep_view().len() == vals.len(),
            find_value(vals.deep_view(), group@, var@, 0) == find_value(vals.deep_view(), group@, var@, i as int),
        decreases vals.len() - i,
    {
        assert(vals.deep_view()[i as int] == (vals[i as int].0@, vals[i as int].1@, vals[i as int].2@));
        if str_eq(vals[i].0.as_str(), group) && str_eq(vals[i].1.as_str(), var) {
            return Some(i);
        }
        i += 1;
    }
    None
}

/// Set `var` in `group` to `val`.
fn insert_value(vals: &mut Vec<(String, String, String)>, group: String, var: String, val: String)
    ensures
        final(vals).deep_view() == config_insert(old(vals).deep_view(), group@, var@, val@),
{
    let ghost before = vals.deep_view();
    let ghost t = (group@, var@, val@);
    match value_position(vals, group.as_str(), var.as_str()) {
        Some(i) => {
            vals.set(i, (group, var, val));
            assert(vals.deep_view() =~= before.update(i as int, t));
        },
        None => {
            vals.push((group, var, val));
            assert(vals.deep_view() =~= before.push(t));
        },
    }
}

impl Config {
    #[verifier::type_invariant]
    closed spec fn inv(self) -> bool {
        unique_keys(self.values.deep_view())
    }
}

/// After a merge, every value that `other` sets stands; every other value of
/// `self` stands as well.
pub proof fn lemma_merge_values(a: ConfigV, b: ConfigV, g: Seq<char>, k: Seq<char>)
    requires
        unique_keys(a),
        unique_keys(b),
    ensures
        unique_keys(config_merge(a, b, b.len() as int)),
        config_get(b, g, k) is Some ==> config_get(config_merge(a, b, b.len() as int), g, k) == config_get(b, g, k),
        config_get(b, g, k) is None ==> config_get(config_merge(a, b, b.len() as int), g, k) == config_get(a, g, k),
{
    lemma_merge_prefix(a, b, g, k, b.len() as int);
    assert(b.subrange(0, b.len() as int) =~= b);
}

proof fn lemma_merge_prefix(a: ConfigV, b: ConfigV, g: Seq<char>, k: Seq<char>, n: int)
    requires
        unique_keys(a),
        unique_keys(b),
        0 <= n <= b.len(),
    ensures
        unique_keys(config_merge(a, b, n)),
        config_get(b.subrange(0, n), g, k) is Some ==> config_get(config_merge(a, b, n), g, k) == config_get(
            b.subrange(0, n),
            g,
            k,
        ),
        config_get(b.subrange(0, n), g, k) is None ==> config_get(config_merge(a, b, n), g, k) == config_get(a, g, k),
    decreases n,
{
    let p = b.subrange(0, n);
    if n == 0 {
        lemma_find_value_none(p, g, k, 0);
    } else {
        lemma_merge_prefix(a, b, g, k, n - 1);
        let m = config_merge(a, b, n - 1);
        let e = b[n - 1];
        lemma_insert(m, e.0, e.1, e.2, g, k);
        let q = b.subrange(0, n - 1);
        lemma_find_value_facts(q, g, k, 0);
        lemma_find_value_facts(p, g, k, 0);
        if e.0 == g && e.1 == k {
            // The key's only value in `b` is its last one here.
            assert forall|i: int| 0 <= i < n - 1 implies !(q[i].0 == g && q[i].1 == k) by {
                assert(q[i] == b[i]);
            }
            lemma_find_value_none(q, g, k, 0);
            lemma_find_value_is(p, g, k, 0, n - 1);
        } else {
            match find_value(q, g, k, 0) {
                Some(j) => {
                    lemma_find_value_is(p, g, k, 0, j);
                },
                None => {
                    lemma_find_value_none(p, g, k, 0);
                },
            }
        }
    }
}

impl Default for Config {
    fn default() -> (r: Config)
        ensures
            r@ == Seq::<(Seq<char>, Seq<char>, Seq<char>)>::empty(),
    {
        Config::new()
    }
}

impl Config {
    /// A configuration with no values.
    pub fn new() -> (r: Config)
        ensures
            r@ == Seq::<(Seq<char>, Seq<char>, Seq<char>)>::empty(),
    {
        let r = Config { values: Vec::new() };
        assert(r@ =~= Seq::<(Seq<char>, Seq<char>, Seq<char>)>::empty());
        r
    }

    /// Read a configuration from the text of an INI file.
    ///
    /// Returns the configuration, or an error for each malformed line.
    pub fn read_from_str(text: &str) -> (r: Result<Config, Vec<FileError>>)
        ensures
            r matches Ok(c) ==> read_config_spec(text@) == Ok::<ConfigV, Seq<int>>(c@),
            r matches Err(es) ==> read_config_spec(text@) == Err::<ConfigV, Seq<int>>(error_lines(es@)),
    {
        let lines = split_str(text, '\n');
        let ghost ls = lines.deep_view();
        let mut group = String::from_str("DEFAULT");
        proof {
            reveal_strlit("DEFAULT");
            assert("DEFAULT"@ =~= default_group_name());
        }
        let mut values: Vec<(String, String, String)> = Vec::new();
        let mut errors: Vec<FileError> = Vec::new();
        let mut k: usize = 0;
        assert(values.deep_view() =~= Seq::<(Seq<char>, Seq<char>, Seq<char>)>::empty());
        assert(error_lines(errors@) =~= Seq::<int>::empty());
        while k < lines.len()
            invariant
                ls == lines.deep_view(),
                ls == split_on(text@, '\n'),
                unique_keys(values.deep_view()),
                ls.len() == lines.len(),
                k <= lines.len(),
                read_lines_spec(ls, k as int) == (ReadState {
                    group: group@,
                    values: values.deep_view(),
                    errors: error_lines(errors@),
                }),
            decreases lines.len() - k,
        {
            let num = k + 1;
            let raw = lines[k].as_str();
            assert(ls[k as int] == raw@);
            let line = trim_str(raw);
            let n = char_len(line);
            let ghost e0 = errors@;
            if n == 0 || line.get_char(0) == ';' {
            } else if line.get_char(0) == '[' {
                if n >= 2 && line.get_char(n - 1) == ']' {
                    group = String::from_str(trim_str(line.substring_char(1, n - 1)));
                } else {
                    errors.push(parse_error("Missing closing bracket for group name", line, num));
                    assert(error_lines(errors@) =~= error_lines(e0).push(num as int));
                }
            } else {
                match find_char_from(line, n, '=', 0) {
                    Some(i) => {
                        let var = trim_end_str(line.substring_char(0, i));
                        if char_len(var) == 0 {
                            errors.push(parse_error("Assignment requires a variable name", line, num));
                            assert(error_lines(errors@) =~= error_lines(e0).push(num as int));
                        } else {
                            let val = trim_start_str(line.substring_char(i + 1, n));
                            proof {
                                lemma_insert(values.deep_view(), group@, var@, val@, seq![], seq![]);
                            }
                            insert_value(
                                &mut values,
                                group.clone(),
                                String::from_str(var),
                                String::from_str(val),
                            );
                        }
                    },
                    None => {
                        errors.push(parse_error("Expected a variable assignment", line, num));
                        assert(error_lines(errors@) =~= error_lines(e0).push(num as int));
                    },
                }
            }
            assert(ls.subrange(0, k + 1) =~= ls.subrange(0, k as int).push(raw@));
            k += 1;
        }
        if errors.len() == 0 {
            Ok(Config { values })
        } else {
            Err(errors)
        }
    }

    /// Merge two configurations; where both set a variable, `other`'s value
    /// stands.
    pub fn merge_with(self, other: Config) -> (r: Config)
        ensures
            r@ == config_merge(self@, other@, other@.len() as int),
            forall|g: Seq<char>, k: Seq<char>|
                #![trigger config_get(r@, g, k)]
                config_get(other@, g, k) is Some ==> config_get(r@, g, k) == config_get(other@, g, k),
            forall|g: Seq<char>, k: Seq<char>|
                #![trigger config_get(r@, g, k)]
                config_get(other@, g, k) is None ==> config_get(r@, g, k) == config_get(self@, g, k),
    {
        proof {
            use_type_invariant(&self);
            use_type_invariant(&other);
        }
        let ghost sv = self@;
        let ghost ov = other@;
        let mut values = self.values;
        let ghost a = values.deep_view();
        let ghost b = other.values.deep_view();
        let mut k: usize = 0;
        while k < other.values.len()
            invariant
                k <= other.values.len(),
                b == other.values.deep_view(),
                b.len() == other.values.len(),
                values.deep_view() == config_merge(a, b, k as int),
                unique_keys(a),
                unique_keys(b),
            decreases other.values.len() - k,
        {
            assert(b[k as int] == (other.values[k as int].0@, other.values[k as int].1@, other.values[k as int].2@));
            proof {
                lemma_merge_prefix(a, b, seq![], seq![], k + 1);
            }
            insert_value(
                &mut values,
                other.values[k].0.clone(),
                other.values[k].1.clone(),
                other.values[k].2.clone(),
            );
            k += 1;
        }
        proof {
            lemma_merge_prefix(a, b, seq![], seq![], b.len() as int);
            assert forall|g: Seq<char>, kk: Seq<char>| #[trigger] config_get(values.deep_view(), g, kk) == (if config_get(ov, g, kk) is Some { config_get(ov, g, kk) } else { config_get(sv, g, kk) }) by {
                lemma_merge_values(a, b, g, kk);
            }
        }
        Config { values }
    }

    /// Set `var` in `group` to `val`.
    pub fn set(self, group: &str, var: &str, val: &str) -> (r: Config)
        ensures
            r@ == config_insert(self@, group@, var@, val@),
    {
        proof {
            use_type_invariant(&self);
            lemma_insert(self@, group@, var@, val@, seq![], seq![]);
        }
        let mut values = self.values;
        insert_value(&mut values, String::from_str(group), String::from_str(var), String::from_str(val));
        Config { values }
    }

    /// Set `var` in the `DEFAULT` group to `val`.
    pub fn set_default(self, var: &str, val: &str) -> (r: Config)
        ensures
            r@ == config_insert(self@, default_group_name(), var@, val@),
    {
        proof {
            reveal_strlit("DEFAULT");
        }
        assert("DEFAULT"@ =~= default_group_name());
        self.set("DEFAULT", var, val)
    }

    /// The value of `var` in `group`.
    pub fn get(&self, group: &str, var: &str) -> (r: Option<&String>)
        ensures
            r matches Some(v) ==> config_get(self@, group@, var@) == Some(v@),
            r is None ==> config_get(self@, group@, var@) is None,
    {
        match value_position(&self.values, group, var) {
            Some(i) => {
                assert(self@[i as int].2 == self.values[i as int].2@);
                Some(&self.values[i].2)
            },
            None => None,
        }
    }

    /// The value of `var` in the `DEFAULT` group.
    pub fn get_default(&self, var: &str) -> (r: Option<&String>)
        ensures
            r matches Some(v) ==> config_get(self@, default_group_name(), var@) == Some(v@),
            r is None ==> config_get(self@, default_group_name(), var@) is None,
    {
        proof {
            reveal_strlit("DEFAULT");
        }
        assert("DEFAULT"@ =~= default_group_name());
        self.get("DEFAULT", var)
    }

    /// The names of the groups that hold values, each once, in the order of
    /// their first value.
    pub fn groups(&self) -> (r: Vec<String>)
        ensures
            forall|i: int| 0 <= i < self@.len() ==> r.deep_view().contains(#[trigger] self@[i].0),
            forall|i: int| 0 <= i < r.deep_view().len() ==> is_group_of(self@, #[trigger] r.deep_view()[i]),
            forall|i: int, j: int| 0 <= i < j < r.deep_view().len() ==> r.deep_view()[i] != r.deep_view()[j],
    {
        let mut r: Vec<String> = Vec::new();
        let mut k: usize = 0;
        while k < self.values.len()
            invariant
                k <= self.values.len(),
                self@ == self.values.deep_view(),
                self@.len() == self.values.len(),
                forall|i: int| 0 <= i < k ==> r.deep_view().contains(#[trigger] self@[i].0),
                forall|i: int| 0 <= i < r.deep_view().len() ==> is_group_of(self@, #[trigger] r.deep_view()[i]),
                forall|i: int, j: int| 0 <= i < j < r.deep_view().len() ==> r.deep_view()[i] != r.deep_view()[j],
            decreases self.values.len() - k,
        {
            let g = self.values[k].0.as_str();
            assert(self@[k as int].0 == g@);
            let mut found = false;
            let mut m: usize = 0;
            while m < r.len()
                invariant
                    m <= r.len(),
                    r.deep_view().len() == r.len(),
                    found ==> r.deep_view().contains(g@),
                    !found ==> forall|i: int| 0 <= i < m ==> r.deep_view()[i] != g@,
                decreases r.len() - m,
            {
                assert(r.deep_view()[m as int] == r[m as int]@);
                if str_eq(r[m].as_str(), g) {
                    found = true;
                    assert(r.deep_view()[m as int] == g@);
                }
                m += 1;
            }
            if !found {
                let ghost before = r.deep_view();
                r.push(String::from_str(g));
                assert(r.deep_view() =~= before.push(g@));
                assert(r.deep_view()[before.len() as int] == g@);
                assert forall|i: int| 0 <= i < r.deep_view().len() implies is_group_of(self@, #[trigger] r.deep_view()[i]) by {
                    if i < before.len() {
                        assert(r.deep_view()[i] == before[i]);
                        assert(is_group_of(self@, before[i]));
                    } else {
                        assert(self@[k as int].0 == r.deep_view()[i]);
                    }
                }
                assert forall|i: int| 0 <= i < k + 1 implies r.deep_view().contains(#[trigger] self@[i].0) by {
                    if i < k {
                        let w = choose|w: int| 0 <= w < before.len() && before[w] == self@[i].0;
                        assert(r.deep_view()[w] == self@[i].0);
                    } else {
                        assert(r.deep_view()[before.len() as int] == self@[i].0);
                    }
                }
            }
            k += 1;
        }
        r
    }

    /// The variables set in `group`, in the order they were first set.
    pub fn variables_in_group(&self, group: &str) -> (r: Vec<String>)
        ensures
            r.deep_view() == vars_of(self@, group@),
    {
        let mut r: Vec<String> = Vec::new();
        let mut k: usize = 0;
        while k < self.values.len()
            invariant
                k <= self.values.len(),
                self@ == self.values.deep_view(),
                self@.len() == self.values.len(),
                r.deep_view() == vars_of(self@.subrange(0, k as int), group@),
            decreases self.values.len() - k,
        {
            let ghost before = r.deep_view();
            let ghost t = self@[k as int];
            assert(t == (self.values[k as int].0@, self.values[k as int].1@, self.values[k as int].2@));
            assert(self@.subrange(0, k + 1).drop_last() =~= self@.subrange(0, k as int));
            if str_eq(self.values[k].0.as_str(), group) {
                r.push(self.values[k].1.clone());
                assert(r.deep_view() =~= before.push(t.1));
            }
            k += 1;
        }
        assert(self@.subrange(0, self.values.len() as int) =~= self@);
        r
    }

    /// The variables of `group` with their values, in order.
    pub fn group_entries(&self, group: &str) -> (r: Vec<(String, String)>)
        ensures
            pairs_view(r@) == group_entries(self@, group@),
    {
        let mut r: Vec<(String, String)> = Vec::new();
        let mut k: usize = 0;
        assert(pairs_view(r@) =~= Seq::<(Seq<char>, Seq<char>)>::empty());
        while k < self.values.len()
            invariant
                k <= self.values.len(),
                self@ == self.values.deep_view(),
                self@.len() == self.values.len(),
                pairs_view(r@) == group_entries(self@.subrange(0, k as int), group@),
            decreases self.values.len() - k,
        {
            let ghost before = pairs_view(r@);
            let ghost t = self@[k as int];
            assert(t == (self.values[k as int].0@, self.values[k as int].1@, self.values[k as int].2@));
            assert(self@.subrange(0, k + 1).drop_last() =~= self@.subrange(0, k as int));
            if str_eq(self.values[k].0.as_str(), group) {
                r.push((self.values[k].1.clone(), self.values[k].2.clone()));
                assert(pairs_view(r@) =~= before.push((t.1, t.2)));
            }
            k += 1;
        }
        assert(self@.subrange(0, self.values.len() as int) =~= self@);
        r
    }

    /// The groups in the order they first appear.
    fn group_list(&self) -> (r: Vec<String>)
        ensures
            r.deep_view() == group_order(self@, self@.len() as int),
    {
        let mut r: Vec<String> = Vec::new();
        let mut k: usize = 0;
        assert(r.deep_view() =~= group_order(self@, 0));
        while k < self.values.len()
            invariant
                k <= self.values.len(),
                self@ == self.values.deep_view(),
                self@.len() == self.values.len(),
                r.deep_view() == group_order(self@, k as int),
            decreases self.values.len() - k,
        {
            let g = self.values[k].0.as_str();
            assert(self@[k as int].0 == g@);
            let mut found = false;
            let mut m: usize = 0;
            while m < r.len()
                invariant
                    m <= r.len(),
                    r.deep_view().len() == r.len(),
                    found == exists|i: int| 0 <= i < m && r.deep_view()[i] == g@,
                decreases r.len() - m,
            {
                assert(r.deep_view()[m as int] == r[m as int]@);
                if !found && str_eq(r[m].as_str(), g) {
                    found = true;
                }
                m += 1;
            }
            if !found {
                let ghost before = r.deep_view();
                r.push(String::from_str(g));
                assert(r.deep_view() =~= before.push(g@));
            }
            k += 1;
        }
        r
    }

    /// The configuration as INI text: for each group, in the order its first
    /// value was set, a `[group]` line and a `variable = value` line per
    /// variable.
    pub fn to_text(&self) -> (r: String)
        ensures
            r@ == config_text(self@),
    {
        let gs = self.group_list();
        let ghost gv = gs.deep_view();
        let mut s = String::new();
        let mut i: usize = 0;
        assert(s@ =~= groups_text(self@, gv.subrange(0, 0)));
        while i < gs.len()
            invariant
                i <= gs.len(),
                gv == gs.deep_view(),
                gv.len() == gs.len(),
                s@ == groups_text(self@, gv.subrange(0, i as int)),
            decreases gs.len() - i,
        {
            let g = gs[i].as_str();
            assert(gv[i as int] == g@);
            let ghost s0 = s@;
            push_char(&mut s, '[');
            s.append(g);
            push_char(&mut s, ']');
            push_char(&mut s, '\n');
            let es = self.group_entries(g);
            let ghost ev = pairs_view(es@);
            let ghost s1 = s@;
            let mut j: usize = 0;
            assert(s@ =~= s1 + entries_text(ev.subrange(0, 0)));
            while j < es.len()
                invariant
                    j <= es.len(),
                    ev == pairs_view(es@),
                    ev.len() == es.len(),
                    s@ == s1 + entries_text(ev.subrange(0, j as int)),
                decreases es.len() - j,
            {
                let ghost t0 = s@;
                assert(ev[j as int] == (es[j as int].0@, es[j as int].1@));
                s.append(es[j].0.as_str());
                push_char(&mut s, ' ');
                push_char(&mut s, '=');
                push_char(&mut s, ' ');
                s.append(es[j].1.as_str());
                push_char(&mut s, '\n');
                assert(ev.subrange(0, j + 1).drop_last() =~= ev.subrange(0, j as int));
                assert(s@ =~= t0 + ev[j as int].0 + seq![' ', '=', ' '] + ev[j as int].1 + seq!['\n']);
                j += 1;
            }
            assert(ev.subrange(0, es.len() as int) =~= ev);
            assert(gv.subrange(0, i + 1).drop_last() =~= gv.subrange(0, i as int));
            assert(s@ =~= s0 + seq!['['] + g@ + seq![']', '\n'] + entries_text(group_entries(self@, g@)));
            i += 1;
        }
        assert(gv.subrange(0, gs.len() as int) =~= gv);
        s
    }
}

} // verus!
