//! Settings of the contact application: the field separator and the aliases
//! of its configuration, checked when the configuration is loaded.
use vstd::prelude::*;

use crate::config::{
    config_get, config_insert, config_merge, default_group_name, group_entries, pairs_view, Config,
    ConfigV,
};
use crate::error::FileError;
use crate::filter::{parse_query_spec, Filter};
use crate::lexical::{char_len, is_quoted, is_quoted_spec, push_char, trim_start, trim_start_str};

verus! {

/// Errors met while reading and checking the configuration.
#[derive(Debug, Clone)]
pub enum ConfigurationError {
    Config(FileError),
    InvalidValue { data: String, rules: String },
    MissingOption(String),
    Environment(String),
}

/// A malformed Unicode escape; holds the text after the backslash.
#[derive(Debug)]
pub struct UnescapeError(pub String);

/// The literal `pat` stands at position `i` of `s`.
pub open spec fn lit_at(s: Seq<char>, i: int, pat: Seq<char>) -> bool {
    0 <= i && i + pat.len() <= s.len() && s.subrange(i, i + pat.len()) == pat
}

fn literal_at(s: &str, n: usize, i: usize, pat: &[char]) -> (r: bool)
    requires
        n == s@.len(),
    ensures
        r == lit_at(s@, i as int, pat@),
{
    if pat.len() > n || i > n - pat.len() {
        return false;
    }
    let mut j: usize = 0;
    while j < pat.len()
        invariant
            j <= pat.len(),
            i + pat@.len() <= n,
            n == s@.len(),
            forall|k: int| 0 <= k < j ==> s@[i + k] == pat@[k],
        decreases pat.len() - j,
    {
        if s.get_char(i + j) != pat[j] {
            assert(s@.subrange(i as int, i + pat@.len())[j as int] != pat@[j as int]);
            return false;
        }
        j += 1;
    }
    assert(s@.subrange(i as int, i + pat@.len()) =~= pat@);
    true
}

/// `s[i..]` with each `pat` replaced by `rep`, left to right.
pub open spec fn replace_from(s: Seq<char>, i: int, pat: Seq<char>, rep: Seq<char>) -> Seq<char>
    decreases s.len() - i,
{
    if i < 0 || i >= s.len() || pat.len() == 0 {
        if 0 <= i <= s.len() { s.subrange(i, s.len() as int) } else { seq![] }
    } else if lit_at(s, i, pat) {
        rep + replace_from(s, i + pat.len(), pat, rep)
    } else {
        seq![s[i]] + replace_from(s, i + 1, pat, rep)
    }
}

/// Relies on `char::from_u32`, which gives the character with code `u`, or
/// `None` where `u` is a surrogate (0xD800 to 0xDFFF) or above 0x10FFFF.
#[verifier::external_body]
fn char_from_u32(u: u32) -> (r: Option<char>)
    ensures
        r matches Some(c) ==> c as u32 == u,
        r is None <==> (0xD800 <= u <= 0xDFFF || u > 0x10FFFF),
{
    char::from_u32(u)
}

/// Replace each `pat` in `s` by `rep`.
pub fn replace_all(s: &str, pat: &[char], rep: &str) -> (r: String)
    requires
        pat@.len() > 0,
    ensures
        r@ == replace_from(s@, 0, pat@, rep@),
{
    let n = char_len(s);
    let mut out = String::new();
    let mut i: usize = 0;
    assert(out@ =~= Seq::<char>::empty());
    while i < n
        invariant
            n == s@.len(),
            i <= n,
            pat@.len() > 0,
            out@ + replace_from(s@, i as int, pat@, rep@) == replace_from(s@, 0, pat@, rep@),
        decreases n - i,
    {
        let ghost o0 = out@;
        if literal_at(s, n, i, pat) {
            out.append(rep);
            assert(out@ + replace_from(s@, i + pat@.len(), pat@, rep@) =~= o0 + replace_from(s@, i as int, pat@, rep@));
            i += pat.len();
        } else {
            push_char(&mut out, s.get_char(i));
            assert(out@ + replace_from(s@, i + 1, pat@, rep@) =~= o0 + replace_from(s@, i as int, pat@, rep@));
            i += 1;
        }
    }
    assert(out@ =~= out@ + replace_from(s@, i as int, pat@, rep@));
    out
}

pub open spec fn is_hex(c: char) -> bool {
    ('0' <= c && c <= '9') || ('a' <= c && c <= 'f') || ('A' <= c && c <= 'F')
}

pub open spec fn hex_digit_val(c: char) -> int {
    if '0' <= c && c <= '9' {
        c as int - '0' as int
    } else if 'a' <= c && c <= 'f' {
        c as int - 'a' as int + 10
    } else {
        c as int - 'A' as int + 10
    }
}

/// The value of four hexadecimal digits at `i`.
pub open spec fn hex4(s: Seq<char>, i: int) -> int {
    hex_digit_val(s[i]) * 4096 + hex_digit_val(s[i + 1]) * 256 + hex_digit_val(s[i + 2]) * 16 + hex_digit_val(s[i + 3])
}

/// End of the run of hexadecimal digits that starts at `i`.
pub open spec fn hex_end(s: Seq<char>, i: int) -> int
    decreases s.len() - i,
{
    if 0 <= i < s.len() && is_hex(s[i]) {
        hex_end(s, i + 1)
    } else {
        i
    }
}

/// The character codes of `s[i..]` once each `\uXXXX` is replaced by the
/// character with that code, appended to `out`; `None` where an escape is
/// malformed or names no character.
pub open spec fn unescape_from(s: Seq<char>, i: int, out: Seq<int>) -> Option<Seq<int>>
    decreases s.len() - i,
{
    if i < 0 || i >= s.len() {
        Some(out)
    } else if s[i] == '\\' {
        if i + 1 < s.len() && s[i + 1] == 'u' && hex_end(s, i + 2) == i + 6 {
            proof {
                lemma_hex_end_bounds(s, i + 2);
            }
            let u = hex4(s, i + 2);
            if 0xD800 <= u <= 0xDFFF {
                None
            } else {
                unescape_from(s, i + 6, out.push(u))
            }
        } else {
            None
        }
    } else {
        unescape_from(s, i + 1, out.push((s[i] as u32) as int))
    }
}

pub open spec fn codes(s: Seq<char>) -> Seq<int> {
    s.map_values(|c: char| (c as u32) as int)
}

fn is_hex_char(c: char) -> (r: bool)
    ensures
        r == is_hex(c),
{
    ('0' <= c && c <= '9') || ('a' <= c && c <= 'f') || ('A' <= c && c <= 'F')
}

fn hex_value(c: char) -> (r: u32)
    requires
        is_hex(c),
    ensures
        r as int == hex_digit_val(c),
        r < 16,
{
    if '0' <= c && c <= '9' {
        c as u32 - '0' as u32
    } else if 'a' <= c && c <= 'f' {
        c as u32 - 'a' as u32 + 10
    } else {
        c as u32 - 'A' as u32 + 10
    }
}

/// Unescape the Unicode escape sequences (`\uXXXX`, four hexadecimal digits)
/// within the given string.
pub fn unescape_unicode(s: &str) -> (r: Result<String, UnescapeError>)
    ensures
        r matches Ok(t) ==> unescape_from(s@, 0, seq![]) == Some(codes(t@)),
        r is Err ==> unescape_from(s@, 0, seq![]) is None,
{
    let n = char_len(s);
    let mut out = String::new();
    let mut i: usize = 0;
    assert(codes(out@) =~= Seq::<int>::empty());
    while i < n
        invariant
            n == s@.len(),
            i <= n,
            unescape_from(s@, 0, seq![]) == unescape_from(s@, i as int, codes(out@)),
        decreases n - i,
    {
        let c = s.get_char(i);
        let ghost o0 = out@;
        if c == '\\' {
            let ok_prefix = i + 1 < n && s.get_char(i + 1) == 'u';
            if !ok_prefix {
                return Err(UnescapeError(String::from_str(s.substring_char(i + 1, n))));
            }
            let mut e = i + 2;
            while e < n && is_hex_char(s.get_char(e))
                invariant
                    n == s@.len(),
                    i + 2 <= e <= n,
                    hex_end(s@, i + 2) == hex_end(s@, e as int),
                decreases n - e,
            {
                e += 1;
            }
            assert(hex_end(s@, e as int) == e);
            if e - i != 6 {
                return Err(UnescapeError(String::from_str(s.substring_char(i + 1, n))));
            }
            proof {
                lemma_hex_run(s@, i + 2, e as int);
            }
            let u = hex_value(s.get_char(i + 2)) * 4096 + hex_value(s.get_char(i + 3)) * 256 + hex_value(
                s.get_char(i + 4),
            ) * 16 + hex_value(s.get_char(i + 5));
            match char_from_u32(u) {
                Some(d) => {
                    push_char(&mut out, d);
                    assert(codes(out@) =~= codes(o0).push(u as int));
                },
                None => {
                    return Err(UnescapeError(String::from_str(s.substring_char(i + 1, n))));
                },
            }
            i += 6;
        } else {
            push_char(&mut out, c);
            assert(codes(out@) =~= codes(o0).push((c as u32) as int));
            i += 1;
        }
    }
    Ok(out)
}

pub proof fn lemma_hex_end_bounds(s: Seq<char>, i: int)
    requires
        0 <= i <= s.len(),
    ensures
        i <= hex_end(s, i) <= s.len(),
    decreases s.len() - i,
{
    if i < s.len() && is_hex(s[i]) {
        lemma_hex_end_bounds(s, i + 1);
    }
}

proof fn lemma_hex_run(s: Seq<char>, i: int, e: int)
    requires
        0 <= i <= e <= s.len(),
        hex_end(s, i) == e,
    ensures
        forall|k: int| i <= k < e ==> is_hex(#[trigger] s[k]),
    decreases e - i,
{
    if i < e {
        lemma_hex_run(s, i + 1, e);
    }
}

pub open spec fn space_tag() -> Seq<char> {
    seq!['{', 'S', 'P', 'A', 'C', 'E', '}']
}

pub open spec fn tab_tag() -> Seq<char> {
    seq!['{', 'T', 'A', 'B', '}']
}

/// What checking a field separator gives: the character codes of the
/// separator to use, or `None` where it is invalid. A separator of more than
/// one character must be quoted; `{SPACE}`, `{TAB}` and Unicode escapes are
/// replaced.
pub open spec fn separator_spec(val: Seq<char>) -> Option<Seq<int>> {
    if val.len() > 1 && !is_quoted_spec(val) {
        None
    } else {
        let inner = if is_quoted_spec(val) { val.subrange(1, val.len() - 1) } else { val };
        let a = replace_from(inner, 0, space_tag(), seq![' ']);
        let b = replace_from(a, 0, tab_tag(), seq!['\t']);
        unescape_from(b, 0, seq![])
    }
}

/// Validate the field separator and interpret its special values.
pub fn validate_field_separator(val: &str) -> (r: Result<String, ConfigurationError>)
    ensures
        r matches Ok(t) ==> separator_spec(val@) == Some(codes(t@)),
        r is Err ==> separator_spec(val@) is None,
{
    let n = char_len(val);
    let quoted = is_quoted(val);
    if n > 1 && !quoted {
        return Err(
            ConfigurationError::InvalidValue {
                data: String::from_str(val),
                rules: String::from_str("field_separator strings must be quoted"),
            },
        );
    }
    let inner = if quoted { val.substring_char(1, n - 1) } else { val };
    let sp: [char; 7] = ['{', 'S', 'P', 'A', 'C', 'E', '}'];
    let tb: [char; 5] = ['{', 'T', 'A', 'B', '}'];
    assert(sp@ =~= space_tag());
    assert(tb@ =~= tab_tag());
    proof {
        reveal_strlit(" ");
        reveal_strlit("\t");
    }
    assert(" "@ =~= seq![' ']);
    assert("\t"@ =~= seq!['\t']);
    let a = replace_all(inner, &sp, " ");
    let b = replace_all(a.as_str(), &tb, "\t");
    match unescape_unicode(b.as_str()) {
        Ok(v) => Ok(v),
        Err(e) => Err(
            ConfigurationError::InvalidValue {
                data: e.0,
                rules: String::from_str("Invalid Unicode escape sequence"),
            },
        ),
    }
}

/// First position at or after `i` where the literal `pat` stands.
pub open spec fn find_lit(s: Seq<char>, pat: Seq<char>, i: int) -> Option<int>
    decreases s.len() - i,
{
    if i < 0 || i >= s.len() {
        None
    } else if lit_at(s, i, pat) {
        Some(i)
    } else {
        find_lit(s, pat, i + 1)
    }
}

/// The pieces of `t[start..]` between the separators `pat`.
pub open spec fn split_lit_from(t: Seq<char>, pat: Seq<char>, start: int) -> Seq<Seq<char>>
    decreases t.len() - start,
{
    if start < 0 || start > t.len() || pat.len() == 0 {
        seq![]
    } else {
        match find_lit(t, pat, start) {
            Some(i) => if start <= i && i + pat.len() <= t.len() {
                seq![t.subrange(start, i)] + split_lit_from(t, pat, i + pat.len())
            } else {
                seq![]
            },
            None => seq![t.subrange(start, t.len() as int)],
        }
    }
}

pub proof fn lemma_find_lit(s: Seq<char>, pat: Seq<char>, i: int)
    requires
        0 <= i,
    ensures
        find_lit(s, pat, i) matches Some(j) ==> i <= j && lit_at(s, j, pat),
    decreases s.len() - i,
{
    if 0 <= i < s.len() && !lit_at(s, i, pat) {
        lemma_find_lit(s, pat, i + 1);
    }
}

fn find_literal(s: &str, n: usize, pat: &[char], i: usize) -> (r: Option<usize>)
    requires
        n == s@.len(),
    ensures
        r matches Some(j) ==> find_lit(s@, pat@, i as int) == Some(j as int) && i <= j && j + pat@.len() <= n,
        r is None ==> find_lit(s@, pat@, i as int) is None,
{
    let mut k = i;
    while k < n
        invariant
            n == s@.len(),
            i <= k,
            find_lit(s@, pat@, i as int) == find_lit(s@, pat@, k as int),
        decreases n - k,
    {
        if literal_at(s, n, k, pat) {
            return Some(k);
        }
        k += 1;
    }
    None
}

/// The pieces of `t` between the separators `pat`.
pub fn split_literal(t: &str, pat: &[char]) -> (r: Vec<String>)
    requires
        pat@.len() > 0,
    ensures
        r.deep_view() == split_lit_from(t@, pat@, 0),
{
    let n = char_len(t);
    let mut out: Vec<String> = Vec::new();
    let mut start: usize = 0;
    loop
        invariant
            n == t@.len(),
            start <= n,
            pat@.len() > 0,
            out.deep_view() + split_lit_from(t@, pat@, start as int) == split_lit_from(t@, pat@, 0),
        decreases n - start,
    {
        let ghost old_dv = out.deep_view();
        match find_literal(t, n, pat, start) {
            Some(i) => {
                let piece = String::from_str(t.substring_char(start, i));
                let ghost pv = piece@;
                out.push(piece);
                proof {
                    assert(out.deep_view() =~= old_dv.push(pv));
                    assert(split_lit_from(t@, pat@, start as int) == seq![pv] + split_lit_from(t@, pat@, i + pat@.len()));
                    assert(out.deep_view() + split_lit_from(t@, pat@, i + pat@.len()) =~= old_dv + (seq![pv]
                        + split_lit_from(t@, pat@, i + pat@.len())));
                }
                start = i + pat.len();
            },
            None => {
                let piece = String::from_str(t.substring_char(start, n));
                let ghost pv = piece@;
                out.push(piece);
                proof {
                    assert(out.deep_view() =~= old_dv.push(pv));
                    assert(out.deep_view() =~= old_dv + split_lit_from(t@, pat@, start as int));
                }
                return out;
            },
        }
    }
}

pub open spec fn dashes() -> Seq<char> {
    seq!['-', '-']
}

pub open spec fn filter_kw() -> Seq<char> {
    seq!['f', 'i', 'l', 't', 'e', 'r']
}

/// A part of an alias's command line that sets a filter which does not parse.
pub open spec fn bad_part(p: Seq<char>) -> bool {
    lit_at(p, 0, filter_kw()) && parse_query_spec(trim_start(p.subrange(6, p.len() as int))) is Err
}

pub open spec fn count_bad(ps: Seq<Seq<char>>) -> nat
    decreases ps.len(),
{
    if ps.len() == 0 {
        0
    } else {
        count_bad(ps.drop_last()) + if bad_part(ps.last()) { 1nat } else { 0nat }
    }
}

/// The number of filters in the aliases (name, command line) that do not
/// parse; the command line's parts are separated by `--`.
pub open spec fn alias_errors(aliases: Seq<(Seq<char>, Seq<char>)>) -> nat
    decreases aliases.len(),
{
    if aliases.len() == 0 {
        0
    } else {
        alias_errors(aliases.drop_last()) + count_bad(split_lit_from(aliases.last().1, dashes(), 0))
    }
}

/// The alias that an error names.
pub open spec fn error_alias(e: ConfigurationError) -> Seq<char> {
    match e {
        ConfigurationError::InvalidValue { data, .. } => data@,
        _ => seq![],
    }
}

/// For each filter that does not parse, in order, the name of its alias.
pub open spec fn alias_error_names(aliases: Seq<(Seq<char>, Seq<char>)>) -> Seq<Seq<char>>
    decreases aliases.len(),
{
    if aliases.len() == 0 {
        seq![]
    } else {
        alias_error_names(aliases.drop_last()) + Seq::new(
            count_bad(split_lit_from(aliases.last().1, dashes(), 0)),
            |_i: int| aliases.last().0,
        )
    }
}

/// Check the filter of every alias; an error for each one that does not
/// parse, naming its alias.
pub fn validate_aliases(aliases: &[(String, String)]) -> (r: Result<(), Vec<ConfigurationError>>)
    ensures
        r is Ok <==> alias_errors(pairs_view(aliases@)) == 0,
        r matches Err(es) ==> es.len() == alias_errors(pairs_view(aliases@)),
        r matches Err(es) ==> es@.map_values(|e: ConfigurationError| error_alias(e)) == alias_error_names(
            pairs_view(aliases@),
        ),
{
    let dd: [char; 2] = ['-', '-'];
    let fk: [char; 6] = ['f', 'i', 'l', 't', 'e', 'r'];
    assert(dd@ =~= dashes());
    assert(fk@ =~= filter_kw());
    let mut errors: Vec<ConfigurationError> = Vec::new();
    let mut a: usize = 0;
    while a < aliases.len()
        invariant
            a <= aliases.len(),
            dd@ == dashes(),
            fk@ == filter_kw(),
            errors.len() == alias_errors(pairs_view(aliases@.subrange(0, a as int))),
            errors@.map_values(|e: ConfigurationError| error_alias(e)) == alias_error_names(
                pairs_view(aliases@.subrange(0, a as int)),
            ),
        decreases aliases.len() - a,
    {
        let (name, commands) = &aliases[a];
        let parts = split_literal(commands.as_str(), &dd);
        let ghost ps = parts.deep_view();
        let ghost e0 = errors.len();
        let ghost n0 = errors@.map_values(|e: ConfigurationError| error_alias(e));
        assert(n0 =~= n0 + Seq::new(count_bad(ps.subrange(0, 0)), |_i: int| name@));
        let mut k: usize = 0;
        while k < parts.len()
            invariant
                k <= parts.len(),
                ps == parts.deep_view(),
                ps.len() == parts.len(),
                fk@ == filter_kw(),
                errors.len() == e0 + count_bad(ps.subrange(0, k as int)),
                errors@.map_values(|e: ConfigurationError| error_alias(e)) == n0 + Seq::new(
                    count_bad(ps.subrange(0, k as int)),
                    |_i: int| name@,
                ),
            decreases parts.len() - k,
        {
            let ghost m0 = errors@.map_values(|e: ConfigurationError| error_alias(e));
            let p = parts[k].as_str();
            assert(ps[k as int] == p@);
            assert(ps.subrange(0, k + 1).drop_last() =~= ps.subrange(0, k as int));
            let n = char_len(p);
            if literal_at(p, n, 0, &fk) {
                let f = trim_start_str(p.substring_char(6, n));
                if Filter::parse(f).is_err() {
                    let ghost before = errors@;
                    errors.push(
                        ConfigurationError::InvalidValue {
                            data: name.clone(),
                            rules: String::from_str("Invalid filter"),
                        },
                    );
                    assert(errors@.map_values(|e: ConfigurationError| error_alias(e)) =~= m0.push(name@));
                }
            }
            assert(errors@.map_values(|e: ConfigurationError| error_alias(e)) =~= n0 + Seq::new(
                count_bad(ps.subrange(0, k + 1)),
                |_i: int| name@,
            ));
            k += 1;
        }
        proof {
            assert(ps.subrange(0, ps.len() as int) =~= ps);
            let pv = pairs_view(aliases@.subrange(0, a + 1));
            assert(pv.drop_last() =~= pairs_view(aliases@.subrange(0, a as int)));
            assert(pv.last() == (name@, commands@));
        }
        a += 1;
    }
    assert(aliases@.subrange(0, aliases@.len() as int) =~= aliases@);
    if errors.len() == 0 {
        Ok(())
    } else {
        Err(errors)
    }
}

pub open spec fn separator_key() -> Seq<char> {
    seq!['f', 'i', 'e', 'l', 'd', '_', 's', 'e', 'p', 'a', 'r', 'a', 't', 'o', 'r']
}

pub open spec fn collection_key() -> Seq<char> {
    seq!['d', 'e', 'f', 'a', 'u', 'l', 't', '_', 'c', 'o', 'l', 'l', 'e', 'c', 't', 'i', 'o', 'n']
}

pub open spec fn aliases_group() -> Seq<char> {
    seq!['A', 'l', 'i', 'a', 's', 'e', 's']
}

/// The separator used where the configuration sets none.
pub open spec fn default_separator() -> Seq<char> {
    seq!['\'', ' ', '|', ' ', '\'']
}

/// The general configuration with the default separator, then the
/// application's configuration merged over it.
pub open spec fn merged_config(global: ConfigV, local: ConfigV) -> ConfigV {
    config_merge(
        config_insert(global, default_group_name(), separator_key(), default_separator()),
        local,
        local.len() as int,
    )
}

/// The separator that a configuration sets is valid.
pub open spec fn separator_ok(c: ConfigV) -> bool {
    match config_get(c, default_group_name(), separator_key()) {
        Some(v) => separator_spec(v) is Some,
        None => false,
    }
}

/// The merged configuration passes every check: it names a default
/// collection, its separator is valid, and the filters of its aliases parse.
pub open spec fn config_ok(c: ConfigV) -> bool {
    &&& config_get(c, default_group_name(), collection_key()) is Some
    &&& separator_ok(c)
    &&& alias_errors(group_entries(c, aliases_group())) == 0
}

/// The values of a configuration that was read; none where reading failed.
pub open spec fn base_view(c: Result<Config, Vec<FileError>>) -> ConfigV {
    match c {
        Ok(c) => c@,
        Err(_) => seq![],
    }
}

/// The number of errors of reading a configuration.
pub open spec fn err_count(c: Result<Config, Vec<FileError>>) -> nat {
    match c {
        Ok(_) => 0,
        Err(es) => es@.len(),
    }
}

/// The number of errors that checking a merged configuration reports: a
/// missing `default_collection`, an invalid separator, and one for each alias
/// filter that does not parse.
pub open spec fn check_errors(c: ConfigV) -> nat {
    (if config_get(c, default_group_name(), collection_key()) is Some { 0nat } else { 1nat })
        + alias_errors(group_entries(c, aliases_group())) + (if separator_ok(c) { 0nat } else { 1nat })
}

pub open spec fn local_view(l: Option<Result<Config, Vec<FileError>>>) -> ConfigV {
    match l {
        Some(lr) => base_view(lr),
        None => seq![],
    }
}

pub open spec fn local_errs(l: Option<Result<Config, Vec<FileError>>>) -> nat {
    match l {
        Some(lr) => err_count(lr),
        None => 0,
    }
}

fn push_file_errors(errors: &mut Vec<ConfigurationError>, es: Vec<FileError>)
    ensures
        final(errors).len() == old(errors).len() + es.len(),
{
    let mut es = es;
    let ghost n0 = errors.len();
    let ghost total = es.len();
    while es.len() > 0
        invariant
            errors.len() + es.len() == n0 + total,
        decreases es.len(),
    {
        let e = es.remove(0);
        errors.push(ConfigurationError::Config(e));
    }
}

/// Check the configurations that were read: the general one (`global`) and
/// the application's own (`local`, `None` where no file was found).
///
/// Collects every error: those of reading, a missing `default_collection`,
/// an invalid `field_separator`, and each alias filter that does not parse.
/// On success the separator holds its interpreted value.
pub fn read_config(
    global: Result<Config, Vec<FileError>>,
    local: Option<Result<Config, Vec<FileError>>>,
) -> (r: Result<Config, Vec<ConfigurationError>>)
    ensures
        local is None ==> (r matches Err(es) && es.len() == err_count(global) + 1),
        local matches Some(lr) ==> (r is Ok <==> (global is Ok && lr is Ok && config_ok(
            merged_config(base_view(global), base_view(lr)),
        ))),
        local matches Some(lr) ==> (r matches Err(es) ==> es.len() == err_count(global) + err_count(lr)
            + check_errors(merged_config(base_view(global), base_view(lr)))),
        r is Ok ==> global is Ok && local matches Some(Ok(_)),
        r matches Ok(c) ==> (global matches Ok(g) ==> (local matches Some(Ok(l)) ==> exists|t: Seq<char>|
            separator_spec(config_get(merged_config(g@, l@), default_group_name(), separator_key()).unwrap())
                == Some(codes(t)) && c@ == config_insert(
                merged_config(g@, l@),
                default_group_name(),
                separator_key(),
                t,
            ))),
{
    proof {
        reveal_strlit("field_separator");
        reveal_strlit("' | '");
        reveal_strlit("default_collection");
        reveal_strlit("Aliases");
        reveal_strlit("DEFAULT");
    }
    assert("field_separator"@ =~= separator_key());
    assert("' | '"@ =~= default_separator());
    assert("default_collection"@ =~= collection_key());
    assert("Aliases"@ =~= aliases_group());
    assert("DEFAULT"@ =~= default_group_name());
    let ghost gv = base_view(global);
    let ghost ge = err_count(global);
    let ghost lv = local_view(local);
    let ghost le = local_errs(local);
    let mut errors: Vec<ConfigurationError> = Vec::new();
    let global_ok = global.is_ok();
    let conf = match global {
        Ok(c) => c,
        Err(es) => {
            push_file_errors(&mut errors, es);
            Config::new()
        },
    };
    let conf = conf.set_default("field_separator", "' | '");
    let local_ok = match &local {
        Some(Ok(_)) => true,
        _ => false,
    };
    let conf = match local {
        None => {
            errors.push(
                ConfigurationError::Environment(
                    String::from_str("No upim-contact configuration file found"),
                ),
            );
            return Err(errors);
        },
        Some(Ok(c)) => conf.merge_with(c),
        Some(Err(es)) => {
            push_file_errors(&mut errors, es);
            conf
        },
    };
    let ghost merged = conf@;
    assert(merged == merged_config(gv, lv));
    assert(errors.len() == ge + le);
    let collection_ok = conf.get_default("default_collection").is_some();
    if !collection_ok {
        errors.push(ConfigurationError::MissingOption(String::from_str("default_collection")));
    }
    let aliases = conf.group_entries("Aliases");
    let alias_slice = aliases.as_slice();
    assert(alias_slice@ == aliases@);
    let aliases_ok = match validate_aliases(alias_slice) {
        Ok(()) => true,
        Err(es) => {
            push_config_errors(&mut errors, es);
            false
        },
    };
    let sep = match conf.get_default("field_separator") {
        Some(v) => validate_field_separator(v.as_str()),
        None => Err(ConfigurationError::MissingOption(String::from_str("field_separator"))),
    };
    let (conf, sep_ok) = match sep {
        Ok(v) => (conf.set_default("field_separator", v.as_str()), true),
        Err(e) => {
            errors.push(e);
            (conf, false)
        },
    };
    assert(errors.len() == ge + le + check_errors(merged));
    if global_ok && local_ok && collection_ok && aliases_ok && sep_ok {
        Ok(conf)
    } else {
        Err(errors)
    }
}

fn push_config_errors(errors: &mut Vec<ConfigurationError>, es: Vec<ConfigurationError>)
    requires
        es.len() > 0,
    ensures
        final(errors).len() == old(errors).len() + es.len(),
{
    let mut es = es;
    errors.append(&mut es);
}

} // verus!
