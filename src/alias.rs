//! Parameter substitution in aliases.
//!
//! An alias is a stored command line that may hold `$0`, `$1`, ... Each such
//! placeholder takes the argument with that index; a `$` preceded by a
//! backslash is left as it is.
use vstd::prelude::*;

use crate::filter::{parse_query_spec, Filter, FilterV, QueryConversionError};
use crate::lexical::{char_len, trim_start, trim_start_str};
use crate::number::{digits_val, is_digit, is_digit_char, lemma_digits_step};

verus! {

/// Why an index after `$` could not be read.
#[derive(Clone, Copy, Debug, PartialEq, Eq, Structural)]
pub enum IndexErrorKind {
    /// No digit follows the `$`.
    Empty,
    /// The index is too large for `usize`.
    PosOverflow,
}

/// Errors that can be returned when attempting to perform parameter
/// substitution in aliases.
#[derive(Clone, Copy, Debug, PartialEq, Eq, Structural)]
pub enum AliasSubstitutionError {
    /// The text after a `$` is no index.
    ParseError(IndexErrorKind),
    /// No argument was provided for the parameter with this index.
    MissingValue(usize),
}

/// End of the run of digits that starts at `i`.
pub open spec fn digits_end(s: Seq<char>, i: int) -> int
    decreases s.len() - i,
{
    if 0 <= i < s.len() && is_digit(s[i]) {
        digits_end(s, i + 1)
    } else {
        i
    }
}

/// A `$` at `pos` that is no escaped one.
pub open spec fn placeholder_at(s: Seq<char>, pos: int) -> bool {
    s[pos] == '$' && !(pos > 0 && s[pos - 1] == '\\')
}

/// What substituting from position `pos` on gives, where `s[last..pos]` is
/// still to be copied, `count` placeholders were replaced and `out` was
/// written.
pub open spec fn subst_from(
    args: Seq<Seq<char>>,
    s: Seq<char>,
    pos: int,
    last: int,
    count: nat,
    out: Seq<char>,
) -> Result<(nat, Seq<char>), AliasSubstitutionError>
    decreases s.len() - pos,
{
    if pos < 0 || pos >= s.len() {
        Ok((count, out + s.subrange(last, s.len() as int)))
    } else if placeholder_at(s, pos) {
        let e = digits_end(s, pos + 1);
        proof {
            lemma_digits_end(s, pos + 1);
        }
        if e <= pos + 1 {
            Err(AliasSubstitutionError::ParseError(IndexErrorKind::Empty))
        } else {
            let v = digits_val(s.subrange(pos + 1, e));
            if v > usize::MAX {
                Err(AliasSubstitutionError::ParseError(IndexErrorKind::PosOverflow))
            } else if v >= args.len() {
                Err(AliasSubstitutionError::MissingValue(v as usize))
            } else {
                subst_from(args, s, e, e, count + 1, out + s.subrange(last, pos) + args[v])
            }
        }
    } else {
        subst_from(args, s, pos + 1, last, count, out)
    }
}

/// What substituting `args` into `alias` gives: the number of placeholders
/// replaced and the new text.
pub open spec fn substitute_spec(args: Seq<Seq<char>>, alias: Seq<char>) -> Result<(nat, Seq<char>), AliasSubstitutionError> {
    subst_from(args, alias, 0, 0, 0, seq![])
}

/// From `pos` on, every placeholder has an index (digits) below the number of
/// arguments.
pub open spec fn indices_ok(args: Seq<Seq<char>>, s: Seq<char>, pos: int) -> bool
    decreases s.len() - pos,
{
    if pos < 0 || pos >= s.len() {
        true
    } else if placeholder_at(s, pos) {
        let e = digits_end(s, pos + 1);
        proof {
            lemma_digits_end(s, pos + 1);
        }
        e > pos + 1 && digits_val(s.subrange(pos + 1, e)) < args.len() && indices_ok(args, s, e)
    } else {
        indices_ok(args, s, pos + 1)
    }
}

/// The number of placeholders from `pos` on.
pub open spec fn placeholders(s: Seq<char>, pos: int) -> nat
    decreases s.len() - pos,
{
    if pos < 0 || pos >= s.len() {
        0
    } else if placeholder_at(s, pos) {
        let e = digits_end(s, pos + 1);
        proof {
            lemma_digits_end(s, pos + 1);
        }
        if e > pos + 1 {
            1 + placeholders(s, e)
        } else {
            1 + placeholders(s, pos + 1)
        }
    } else {
        placeholders(s, pos + 1)
    }
}

/// `s[pos..]` with each placeholder `$n` replaced by `args[n]` and every other
/// character, an escaped `\$` included, copied.
pub open spec fn replaced(args: Seq<Seq<char>>, s: Seq<char>, pos: int) -> Seq<char>
    decreases s.len() - pos,
{
    if pos < 0 || pos >= s.len() {
        seq![]
    } else if placeholder_at(s, pos) {
        let e = digits_end(s, pos + 1);
        proof {
            lemma_digits_end(s, pos + 1);
        }
        if e > pos + 1 {
            args[digits_val(s.subrange(pos + 1, e))] + replaced(args, s, e)
        } else {
            seq![s[pos]] + replaced(args, s, pos + 1)
        }
    } else {
        seq![s[pos]] + replaced(args, s, pos + 1)
    }
}

proof fn lemma_subst_valid(args: Seq<Seq<char>>, s: Seq<char>, pos: int, last: int, count: nat, out: Seq<char>)
    requires
        0 <= last <= pos <= s.len(),
        args.len() <= usize::MAX,
        indices_ok(args, s, pos),
    ensures
        subst_from(args, s, pos, last, count, out) == Ok::<(nat, Seq<char>), AliasSubstitutionError>(
            (count + placeholders(s, pos), out + s.subrange(last, pos) + replaced(args, s, pos)),
        ),
    decreases s.len() - pos,
{
    if pos >= s.len() {
        assert(out + s.subrange(last, pos) + Seq::<char>::empty() =~= out + s.subrange(last, s.len() as int));
    } else if placeholder_at(s, pos) {
        let e = digits_end(s, pos + 1);
        lemma_digits_end(s, pos + 1);
        let v = digits_val(s.subrange(pos + 1, e));
        let out2 = out + s.subrange(last, pos) + args[v];
        lemma_subst_valid(args, s, e, e, count + 1, out2);
        assert(out2 + s.subrange(e, e) + replaced(args, s, e) =~= out + s.subrange(last, pos) + (args[v]
            + replaced(args, s, e)));
    } else {
        lemma_subst_valid(args, s, pos + 1, last, count, out);
        assert(out + s.subrange(last, pos + 1) + replaced(args, s, pos + 1) =~= out + s.subrange(last, pos)
            + (seq![s[pos]] + replaced(args, s, pos + 1)));
    }
}

/// Where every placeholder `$n` (a `$` not preceded by a backslash) has an
/// index `n` below the number of arguments, substitution succeeds: it replaces
/// each placeholder by its argument, copies everything else, an escaped `\$`
/// included, and counts the placeholders.
pub proof fn lemma_substitution(args: Seq<Seq<char>>, s: Seq<char>)
    requires
        args.len() <= usize::MAX,
        indices_ok(args, s, 0),
    ensures
        substitute_spec(args, s) == Ok::<(nat, Seq<char>), AliasSubstitutionError>(
            (placeholders(s, 0), replaced(args, s, 0)),
        ),
{
    lemma_subst_valid(args, s, 0, 0, 0, seq![]);
    assert(Seq::<char>::empty() + s.subrange(0, 0) + replaced(args, s, 0) =~= replaced(args, s, 0));
}

proof fn lemma_plain_from(args: Seq<Seq<char>>, s: Seq<char>, pos: int)
    requires
        0 <= pos <= s.len(),
        forall|i: int| 0 <= i < s.len() ==> !placeholder_at(s, i),
    ensures
        subst_from(args, s, pos, 0, 0, seq![]) == Ok::<(nat, Seq<char>), AliasSubstitutionError>((0nat, s)),
    decreases s.len() - pos,
{
    if pos < s.len() {
        lemma_plain_from(args, s, pos + 1);
    } else {
        assert(Seq::<char>::empty() + s.subrange(0, s.len() as int) =~= s);
    }
}

/// An alias without a placeholder (every `$` escaped, or none at all) comes
/// back unchanged, with no argument used.
pub proof fn lemma_no_placeholder(args: Seq<Seq<char>>, s: Seq<char>)
    requires
        forall|i: int| 0 <= i < s.len() ==> !placeholder_at(s, i),
    ensures
        substitute_spec(args, s) == Ok::<(nat, Seq<char>), AliasSubstitutionError>((0nat, s)),
{
    lemma_plain_from(args, s, 0);
}

pub proof fn lemma_digits_end(s: Seq<char>, i: int)
    requires
        0 <= i <= s.len(),
    ensures
        i <= digits_end(s, i) <= s.len(),
    decreases s.len() - i,
{
    if i < s.len() && is_digit(s[i]) {
        lemma_digits_end(s, i + 1);
    }
}

/// The index written in `s[from..]`: the end of its digits and its value,
/// `None` as value where it exceeds `usize`.
fn read_index(s: &str, n: usize, from: usize) -> (r: (usize, Option<usize>))
    requires
        n == s@.len(),
        from <= n,
    ensures
        r.0 == digits_end(s@, from as int),
        r.1 matches Some(v) ==> v == digits_val(s@.subrange(from as int, r.0 as int)),
        r.1 is None ==> digits_val(s@.subrange(from as int, r.0 as int)) > usize::MAX,
{
    let mut k = from;
    let mut acc: u128 = 0;
    let mut overflow = false;
    while k < n && is_digit_char(s.get_char(k))
        invariant
            n == s@.len(),
            from <= k <= n,
            digits_end(s@, from as int) == digits_end(s@, k as int),
            forall|j: int| from <= j < k ==> #[trigger] is_digit(s@[j]),
            !overflow ==> acc == digits_val(s@.subrange(from as int, k as int)) && acc <= usize::MAX,
            overflow ==> digits_val(s@.subrange(from as int, k as int)) > usize::MAX,
        decreases n - k,
    {
        let c = s.get_char(k);
        proof {
            lemma_digits_step(s@.subrange(from as int, n as int), k - from);
            assert(s@.subrange(from as int, n as int).subrange(0, k + 1 - from) =~= s@.subrange(from as int, k + 1));
            assert(s@.subrange(from as int, n as int).subrange(0, k - from) =~= s@.subrange(from as int, k as int));
        }
        if !overflow {
            let d = (c as u32 - '0' as u32) as u128;
            acc = acc * 10 + d;
            if acc > usize::MAX as u128 {
                overflow = true;
            }
        }
        k += 1;
    }
    assert(digits_end(s@, k as int) == k);
    if overflow {
        (k, None)
    } else {
        (k, Some(acc as usize))
    }
}

/// Substitute strings from command-line arguments into the given alias.
///
/// The name of the alias itself should not be passed in `args`. Returns the
/// number of placeholders replaced and the new alias.
pub fn substitute_alias(args: &[String], alias: &str) -> (r: Result<(usize, String), AliasSubstitutionError>)
    ensures
        r matches Ok((k, t)) ==> substitute_spec(args@.map_values(|a: String| a@), alias@) == Ok::<(nat, Seq<char>), AliasSubstitutionError>((k as nat, t@)),
        r matches Err(e) ==> substitute_spec(args@.map_values(|a: String| a@), alias@) == Err::<(nat, Seq<char>), AliasSubstitutionError>(e),
{
    let ghost av = args@.map_values(|a: String| a@);
    let n = char_len(alias);
    let mut out = String::new();
    let mut pos: usize = 0;
    let mut last: usize = 0;
    let mut count: usize = 0;
    assert(out@ =~= Seq::<char>::empty());
    while pos < n
        invariant
            n == alias@.len(),
            last <= pos <= n,
            count <= pos,
            av == args@.map_values(|a: String| a@),
            substitute_spec(av, alias@) == subst_from(av, alias@, pos as int, last as int, count as nat, out@),
        decreases n - pos,
    {
        let c = alias.get_char(pos);
        let escaped = pos > 0 && alias.get_char(pos - 1) == '\\';
        if c == '$' && !escaped {
            let (e, v) = read_index(alias, n, pos + 1);
            proof {
                lemma_digits_end(alias@, pos + 1);
            }
            if e <= pos + 1 {
                return Err(AliasSubstitutionError::ParseError(IndexErrorKind::Empty));
            }
            let v = match v {
                Some(v) => v,
                None => {
                    return Err(AliasSubstitutionError::ParseError(IndexErrorKind::PosOverflow));
                },
            };
            if v >= args.len() {
                return Err(AliasSubstitutionError::MissingValue(v));
            }
            let ghost o0 = out@;
            out.append(alias.substring_char(last, pos));
            out.append(args[v].as_str());
            assert(out@ =~= o0 + alias@.subrange(last as int, pos as int) + av[v as int]);
            count += 1;
            pos = e;
            last = e;
        } else {
            pos += 1;
        }
    }
    let ghost o1 = out@;
    out.append(alias.substring_char(last, n));
    Ok((count, out))
}

/// Why an alias does not give a query.
#[derive(Clone, Copy, Debug, PartialEq, Eq, Structural)]
pub enum AliasError {
    Substitution(AliasSubstitutionError),
    /// Not every parameter given was used: the number used and the number
    /// given.
    ParameterCount(usize, usize),
    Query(QueryConversionError),
}

pub open spec fn filter_flag() -> Seq<char> {
    seq!['-', '-', 'f', 'i', 'l', 't', 'e', 'r']
}

/// An alias's query text: without a leading `--filter` and the whitespace
/// after it.
pub open spec fn alias_text(alias: Seq<char>) -> Seq<char> {
    if alias.len() >= 8 && alias.subrange(0, 8) == filter_flag() {
        trim_start(alias.subrange(8, alias.len() as int))
    } else {
        trim_start(alias)
    }
}

/// What an alias gives with the parameters given (`None`: none at all).
pub open spec fn alias_query_spec(alias: Seq<char>, params: Option<Seq<Seq<char>>>) -> Result<FilterV, AliasError> {
    let args = match params {
        Some(p) => p,
        None => seq![],
    };
    match substitute_spec(args, alias_text(alias)) {
        Err(e) => Err(AliasError::Substitution(e)),
        Ok((used, text)) => if params is Some && used != args.len() {
            Err(AliasError::ParameterCount(used as usize, args.len() as usize))
        } else {
            match parse_query_spec(text) {
                Ok(f) => Ok(f),
                Err(e) => Err(AliasError::Query(e)),
            }
        },
    }
}

pub open spec fn params_view(p: Option<&[String]>) -> Option<Seq<Seq<char>>> {
    match p {
        Some(v) => Some(v@.map_values(|a: String| a@)),
        None => None,
    }
}

/// The query that an alias stands for, with its parameters substituted.
/// Where parameters are given, each of them must be used.
pub fn alias_query(alias: &str, params: Option<&[String]>) -> (r: Result<Filter, AliasError>)
    ensures
        r matches Ok(f) ==> alias_query_spec(alias@, params_view(params)) == Ok::<FilterV, AliasError>(f@),
        r matches Err(e) ==> alias_query_spec(alias@, params_view(params)) == Err::<FilterV, AliasError>(e),
{
    let n = char_len(alias);
    let flag: [char; 8] = ['-', '-', 'f', 'i', 'l', 't', 'e', 'r'];
    assert(flag@ =~= filter_flag());
    let mut has_flag = n >= 8;
    let mut j: usize = 0;
    while has_flag && j < 8
        invariant
            j <= 8,
            n == alias@.len(),
            flag@ == filter_flag(),
            has_flag ==> n >= 8 && forall|k: int| 0 <= k < j ==> alias@[k] == flag@[k],
            !has_flag ==> !(n >= 8 && alias@.subrange(0, 8) == filter_flag()),
        decreases 8 - j + if has_flag { 1int } else { 0int },
    {
        if alias.get_char(j) != flag[j] {
            has_flag = false;
            assert(alias@.subrange(0, 8)[j as int] != filter_flag()[j as int]);
        } else {
            j += 1;
        }
    }
    if has_flag {
        assert(alias@.subrange(0, 8) =~= filter_flag());
    }
    let text = if has_flag {
        trim_start_str(alias.substring_char(8, n))
    } else {
        trim_start_str(alias)
    };
    let empty: Vec<String> = Vec::new();
    let args: &[String] = match params {
        Some(p) => p,
        None => empty.as_slice(),
    };
    assert(args@.map_values(|a: String| a@) =~= match params_view(params) {
        Some(p) => p,
        None => Seq::<Seq<char>>::empty(),
    });
    let (used, subst) = match substitute_alias(args, text) {
        Ok(x) => x,
        Err(e) => {
            return Err(AliasError::Substitution(e));
        },
    };
    if params.is_some() && used != args.len() {
        return Err(AliasError::ParameterCount(used, args.len()));
    }
    match Filter::parse(subst.as_str()) {
        Ok(f) => Ok(f),
        Err(e) => Err(AliasError::Query(e)),
    }
}

} // verus!
