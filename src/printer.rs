//! Printing conditions back to query text.
//!
//! A comparison prints as `field op 'value'` (a value of an ordering operator
//! without quotes), and each side of `AND`/`OR` in parentheses, so that the
//! printed text parses back to the same tree. Function clauses print in the
//! syntax they are parsed from.
use vstd::prelude::*;

use crate::either::Either;
use crate::filter::{
    all_valid, comparison_spec, conj_at, empty_kw, field_valid, find_var_end, kw_and, kw_or,
    kw_where, last_conj, lemma_find_char_skip, lemma_op_round_trip, lemma_quoted_fields, op_text,
    parse_condition_spec, parse_function_spec, parse_query_spec, read_field_spec, read_op_spec,
    ref_kw, regex_kw, reserved_at, split_kw, where_kw, CondV, Condition, ConditionConversionError,
    Filter, FilterOp, FilterV, Function, FunctionParseError, FunctionV,
};
use crate::number::{all_digits, is_digit, is_number, sign_len, special, unsigned_number, find_exp, mantissa, exp_ok};
use crate::lexical::{
    ci_eq, closing_paren, depth, find_char, is_quoted_spec, is_ws, kw_at, parenthesized, push_char,
    rskip_ws, skip_ws, split_from, split_on, trim, trim_end, trim_start,
};

verus! {

pub open spec fn and_sep() -> Seq<char> {
    seq![')', ' ', 'A', 'N', 'D', ' ', '(']
}

pub open spec fn or_sep() -> Seq<char> {
    seq![')', ' ', 'O', 'R', ' ', '(']
}

/// The value part of a comparison as printed.
pub open spec fn value_text(op: FilterOp, v: Seq<char>) -> Seq<char> {
    if op == FilterOp::EqualTo || op == FilterOp::Not {
        seq!['\''] + v + seq!['\'']
    } else {
        v
    }
}

/// `SPLIT(field, 'c')`.
pub open spec fn split_text(f: Seq<char>, c: char) -> Seq<char> {
    seq!['S', 'P', 'L', 'I', 'T', '('] + f + seq![',', ' ', '\''] + seq![c] + seq!['\'', ')']
}

pub open spec fn assign_ref() -> Seq<char> {
    seq![' ', '=', ' ', 'R', 'E', 'F', '(']
}

/// The text of a function clause, in the syntax it is parsed from.
pub open spec fn print_fn(x: FunctionV) -> Seq<char> {
    match x {
        FunctionV::Regex(f, p) => seq!['R', 'E', 'G', 'E', 'X', '('] + f + seq![',', ' ', '\''] + p + seq![
            '\'',
            ')',
        ],
        FunctionV::Ref(v, f) => v + assign_ref() + f + seq![')'],
        FunctionV::RefOf(v, b) => v + assign_ref() + (match *b {
            FunctionV::Split(_, f, c) => split_text(f, c),
            _ => seq![],
        }) + seq![')'],
        FunctionV::Split(v, f, c) => v + seq![' ', '=', ' '] + split_text(f, c),
    }
}

/// Append characters to a string.
fn push_all(s: &mut String, cs: &[char])
    ensures
        final(s)@ == old(s)@ + cs@,
{
    let ghost s0 = s@;
    let mut i: usize = 0;
    while i < cs.len()
        invariant
            i <= cs.len(),
            s@ == s0 + cs@.subrange(0, i as int),
        decreases cs.len() - i,
    {
        push_char(s, cs[i]);
        assert(s@ =~= s0 + cs@.subrange(0, i + 1));
        i += 1;
    }
    assert(cs@.subrange(0, cs.len() as int) =~= cs@);
}

fn push_split(s: &mut String, f: &str, c: char)
    ensures
        final(s)@ == old(s)@ + split_text(f@, c),
{
    let ghost s0 = s@;
    push_all(s, &['S', 'P', 'L', 'I', 'T', '(']);
    s.append(f);
    push_all(s, &[',', ' ', '\'', c, '\'', ')']);
    assert(s@ =~= s0 + split_text(f@, c));
}

impl Function {
    /// The function clause as query text; see [print_fn].
    pub fn to_query_string(&self) -> (r: String)
        ensures
            r@ == print_fn(self@),
    {
        let mut s = String::new();
        match self {
            Function::Regex(f, p) => {
                push_all(&mut s, &['R', 'E', 'G', 'E', 'X', '(']);
                s.append(f.as_str());
                push_all(&mut s, &[',', ' ', '\'']);
                s.append(p.as_str());
                push_all(&mut s, &['\'', ')']);
                assert(s@ =~= print_fn(self@));
            },
            Function::Ref(v, Either::Left(f)) => {
                s.append(v.as_str());
                push_all(&mut s, &[' ', '=', ' ', 'R', 'E', 'F', '(']);
                s.append(f.as_str());
                push_char(&mut s, ')');
                assert(s@ =~= print_fn(self@));
            },
            Function::Ref(v, Either::Right(b)) => {
                s.append(v.as_str());
                push_all(&mut s, &[' ', '=', ' ', 'R', 'E', 'F', '(']);
                let ghost s0 = s@;
                let ghost inner = match (**b)@ {
                    FunctionV::Split(_, f, c) => split_text(f, c),
                    _ => seq![],
                };
                match &**b {
                    Function::Split(_, f, c) => push_split(&mut s, f.as_str(), *c),
                    _ => {},
                }
                assert(s@ =~= s0 + inner);
                push_char(&mut s, ')');
                assert(s@ =~= v@ + assign_ref() + inner + seq![')']);
                assert(s@ =~= print_fn(self@));
            },
            Function::Split(v, f, c) => {
                s.append(v.as_str());
                push_all(&mut s, &[' ', '=', ' ']);
                push_split(&mut s, f.as_str(), *c);
                assert(s@ =~= print_fn(self@));
            },
        }
        s
    }
}

/// The text of a condition. `All` prints as nothing.
pub open spec fn print_cond(c: CondV) -> Seq<char>
    decreases c,
{
    match c {
        CondV::Filter(f, op, v) => f + seq![' '] + op_text(op) + seq![' '] + value_text(op, v),
        CondV::And(l, r) => seq!['('] + print_cond(*l) + and_sep() + print_cond(*r) + seq![')'],
        CondV::Or(l, r) => seq!['('] + print_cond(*l) + or_sep() + print_cond(*r) + seq![')'],
        CondV::Function(x) => print_fn(x),
        CondV::All => seq![],
    }
}

/// A character of a plain name or value: an ASCII letter or digit, `_`, `:`
/// or `.`.
pub open spec fn plain_char(c: char) -> bool {
    ('a' <= c && c <= 'z') || ('A' <= c && c <= 'Z') || ('0' <= c && c <= '9') || c == '_' || c == ':'
        || c == '.'
}

pub open spec fn plain(s: Seq<char>) -> bool {
    forall|i: int| 0 <= i < s.len() ==> #[trigger] plain_char(s[i])
}

/// A tree of comparisons combined with `AND` and `OR`: `=` and `NOT` between
/// plain names and plain values, and `<`, `<=`, `>`, `>=` between plain names
/// and unsigned whole numbers.
pub open spec fn printable(c: CondV) -> bool
    decreases c,
{
    match c {
        CondV::Filter(f, op, v) => f.len() > 0 && plain(f) && plain(v) && (op == FilterOp::EqualTo
            || op == FilterOp::Not || (v.len() > 0 && all_digits(v))),
        CondV::And(l, r) => printable(*l) && printable(*r),
        CondV::Or(l, r) => printable(*l) && printable(*r),
        _ => false,
    }
}

impl Condition {
    /// The condition as query text; see [print_cond].
    pub fn to_query_string(&self) -> (r: String)
        ensures
            r@ == print_cond(self@),
        decreases self,
    {
        match self {
            Condition::Filter(f, op, v) => {
                let mut s = f.clone();
                push_char(&mut s, ' ');
                s.append(op.to_string().as_str());
                push_char(&mut s, ' ');
                let quoted = *op == FilterOp::EqualTo || *op == FilterOp::Not;
                if quoted {
                    push_char(&mut s, '\'');
                }
                s.append(v.as_str());
                if quoted {
                    push_char(&mut s, '\'');
                }
                assert(s@ =~= print_cond(self@));
                s
            },
            Condition::And(b) => {
                let l = b.0.to_query_string();
                let r = b.1.to_query_string();
                let mut s = String::new();
                push_char(&mut s, '(');
                s.append(l.as_str());
                push_char(&mut s, ')');
                push_char(&mut s, ' ');
                push_char(&mut s, 'A');
                push_char(&mut s, 'N');
                push_char(&mut s, 'D');
                push_char(&mut s, ' ');
                push_char(&mut s, '(');
                s.append(r.as_str());
                push_char(&mut s, ')');
                assert(s@ =~= print_cond(self@));
                s
            },
            Condition::Or(b) => {
                let l = b.0.to_query_string();
                let r = b.1.to_query_string();
                let mut s = String::new();
                push_char(&mut s, '(');
                s.append(l.as_str());
                push_char(&mut s, ')');
                push_char(&mut s, ' ');
                push_char(&mut s, 'O');
                push_char(&mut s, 'R');
                push_char(&mut s, ' ');
                push_char(&mut s, '(');
                s.append(r.as_str());
                push_char(&mut s, ')');
                assert(s@ =~= print_cond(self@));
                s
            },
            Condition::Function(x) => x.to_query_string(),
            Condition::All => String::new(),
        }
    }
}

/// Parentheses never close more than they opened, and all close at the end.
pub open spec fn balanced(p: Seq<char>) -> bool {
    depth(p, p.len() as int) == 0 && forall|k: int| 0 <= k <= p.len() ==> #[trigger] depth(p, k) >= 0
}

pub proof fn lemma_depth_prefix(s: Seq<char>, t: Seq<char>, k: int)
    requires
        0 <= k <= s.len(),
        k <= t.len(),
        forall|i: int| 0 <= i < k ==> s[i] == t[i],
    ensures
        depth(s, k) == depth(t, k),
    decreases k,
{
    if k > 0 {
        lemma_depth_prefix(s, t, k - 1);
    }
}

/// The depth of a prefix of `a + b`.
pub proof fn lemma_depth_concat(a: Seq<char>, b: Seq<char>, k: int)
    requires
        0 <= k <= a.len() + b.len(),
    ensures
        k <= a.len() ==> depth(a + b, k) == depth(a, k),
        k >= a.len() ==> depth(a + b, k) == depth(a, a.len() as int) + depth(b, k - a.len()),
    decreases k,
{
    if k <= a.len() {
        lemma_depth_prefix(a + b, a, k);
    } else {
        lemma_depth_concat(a, b, k - 1);
        assert((a + b)[k - 1] == b[k - 1 - a.len()]);
    }
}

pub proof fn lemma_depth_no_parens(s: Seq<char>, k: int)
    requires
        0 <= k <= s.len(),
        forall|i: int| 0 <= i < s.len() ==> s[i] != '(' && s[i] != ')',
    ensures
        depth(s, k) == 0,
    decreases k,
{
    if k > 0 {
        lemma_depth_no_parens(s, k - 1);
    }
}

/// `closing_paren` finds the first position where the depth returns to zero.
pub proof fn lemma_closing_is(t: Seq<char>, i: int, m: int)
    requires
        0 <= i <= m < t.len(),
        depth(t, m + 1) == 0,
        forall|k: int| i < k <= m ==> #[trigger] depth(t, k) != 0,
    ensures
        closing_paren(t, i) == Some(m),
    decreases m - i,
{
    if i < m {
        lemma_closing_is(t, i + 1, m);
    }
}

pub proof fn lemma_last_conj_is(t: Seq<char>, m: int, j: int)
    requires
        0 <= j < m <= t.len(),
        conj_at(t, j),
        forall|k: int| j < k < m ==> !conj_at(t, k),
    ensures
        last_conj(t, m) == Some(j),
    decreases m,
{
    if m - 1 > j {
        lemma_last_conj_is(t, m - 1, j);
    }
}

pub proof fn lemma_no_conj(t: Seq<char>, m: int)
    requires
        0 <= m <= t.len(),
        forall|k: int| 0 <= k < m ==> !conj_at(t, k),
    ensures
        last_conj(t, m) is None,
    decreases m,
{
    if m > 0 {
        lemma_no_conj(t, m - 1);
    }
}

/// Text that neither begins nor ends with whitespace is its own trim.
pub proof fn lemma_trim_same(p: Seq<char>)
    requires
        p.len() > 0,
        !is_ws(p[0]),
        !is_ws(p[p.len() - 1]),
    ensures
        trim(p) == p,
{
    assert(skip_ws(p, 0) == 0);
    assert(trim_start(p) =~= p);
    assert(rskip_ws(p, p.len() as int) == p.len());
    assert(trim_end(p) =~= p);
}

/// In `'(' + inner + ')' + rest`, with `inner` balanced, the first
/// parenthesis closes right after `inner`.
pub proof fn lemma_wrapped(inner: Seq<char>, rest: Seq<char>)
    requires
        balanced(inner),
    ensures
        ({
            let w = seq!['('] + inner + seq![')'] + rest;
            &&& closing_paren(w, 0) == Some(inner.len() + 1int)
            &&& parenthesized(w) == Some((inner.len() + 2int, inner))
            &&& depth(w, inner.len() + 2int) == 0
        }),
{
    let o = seq!['('];
    let a = o + inner;
    let b = a + seq![')'];
    let w = b + rest;
    let n = inner.len() as int;
    assert(depth(o, 0) == 0);
    assert(depth(o, 1) == 1);
    assert forall|k: int| 0 < k <= n + 1 implies #[trigger] depth(w, k) != 0 by {
        lemma_depth_concat(b, rest, k);
        lemma_depth_concat(a, seq![')'], k);
        lemma_depth_concat(o, inner, k);
        assert(depth(inner, k - 1) >= 0);
    }
    lemma_depth_concat(b, rest, n + 2);
    lemma_depth_concat(a, seq![')'], n + 2);
    lemma_depth_concat(a, seq![')'], n + 1);
    lemma_depth_concat(o, inner, n + 1);
    assert(depth(seq![')'], 0) == 0);
    assert(depth(seq![')'], 1) == -1);
    lemma_closing_is(w, 0, n + 1);
    assert(w.subrange(1, n + 1) =~= inner);
}

pub proof fn lemma_sep_depth()
    ensures
        forall|j: int| 0 <= j <= 7 ==> #[trigger] depth(and_sep(), j) >= -1,
        depth(and_sep(), 7) == 0,
        forall|j: int| 0 <= j <= 6 ==> #[trigger] depth(or_sep(), j) >= -1,
        depth(or_sep(), 6) == 0,
{
    let a = and_sep();
    assert(depth(a, 0) == 0);
    assert(depth(a, 1) == -1);
    assert(depth(a, 2) == -1);
    assert(depth(a, 3) == -1);
    assert(depth(a, 4) == -1);
    assert(depth(a, 5) == -1);
    assert(depth(a, 6) == -1);
    assert(depth(a, 7) == 0);
    let o = or_sep();
    assert(depth(o, 0) == 0);
    assert(depth(o, 1) == -1);
    assert(depth(o, 2) == -1);
    assert(depth(o, 3) == -1);
    assert(depth(o, 4) == -1);
    assert(depth(o, 5) == -1);
    assert(depth(o, 6) == 0);
}

/// The text of a comparison holds no parenthesis.
pub proof fn lemma_leaf_chars(f: Seq<char>, op: FilterOp, v: Seq<char>)
    requires
        printable(CondV::Filter(f, op, v)),
    ensures
        ({
            let p = print_cond(CondV::Filter(f, op, v));
            forall|i: int| 0 <= i < p.len() ==> #[trigger] p[i] != '(' && p[i] != ')'
        }),
{
    let o = op_text(op);
    let q = value_text(op, v);
    let p = print_cond(CondV::Filter(f, op, v));
    assert(p == f + seq![' '] + o + seq![' '] + q);
    assert forall|i: int| 0 <= i < p.len() implies #[trigger] p[i] != '(' && p[i] != ')' by {
        let nf = f.len() as int;
        let no = o.len() as int;
        if i < nf {
            assert(p[i] == f[i]);
            assert(plain_char(f[i]));
        } else if i == nf {
        } else if i < nf + 1 + no {
            assert(p[i] == o[i - nf - 1]);
        } else if i == nf + 1 + no {
        } else {
            let j = i - nf - 2 - no;
            assert(p[i] == q[j]);
            if op == FilterOp::EqualTo || op == FilterOp::Not {
                if 0 < j < q.len() - 1 {
                    assert(q[j] == v[j - 1]);
                    assert(plain_char(v[j - 1]));
                }
            } else {
                assert(plain_char(v[j]));
            }
        }
    }
}

/// A printable condition prints as balanced text that starts with `(` or a
/// plain character and ends with `)` or a quote.
pub proof fn lemma_print_shape(c: CondV)
    requires
        printable(c),
    ensures
        ({
            let p = print_cond(c);
            &&& p.len() > 0
            &&& balanced(p)
            &&& (p[0] == '(' || plain_char(p[0]))
            &&& !is_ws(p[p.len() - 1])
        }),
    decreases c,
{
    match c {
        CondV::Filter(f, op, v) => {
            let p = print_cond(c);
            lemma_leaf_chars(f, op, v);
            assert forall|k: int| 0 <= k <= p.len() implies #[trigger] depth(p, k) >= 0 by {
                lemma_depth_no_parens(p, k);
            }
            lemma_depth_no_parens(p, p.len() as int);
            assert(p[0] == f[0]);
            assert(plain_char(f[0]));
            lemma_leaf_layout(f, op, v);
        },
        CondV::And(l, r) => {
            lemma_print_shape(*l);
            lemma_print_shape(*r);
            lemma_pair_balanced(print_cond(*l), and_sep(), print_cond(*r));
        },
        CondV::Or(l, r) => {
            lemma_print_shape(*l);
            lemma_print_shape(*r);
            lemma_pair_balanced(print_cond(*l), or_sep(), print_cond(*r));
        },
        _ => {},
    }
}

/// `(` + L + sep + R + `)` is balanced where L and R are.
pub proof fn lemma_pair_balanced(lt: Seq<char>, sep: Seq<char>, rt: Seq<char>)
    requires
        balanced(lt),
        balanced(rt),
        sep == and_sep() || sep == or_sep(),
    ensures
        balanced(seq!['('] + lt + sep + rt + seq![')']),
{
    lemma_sep_depth();
    let x1 = seq!['('] + lt;
    let x2 = x1 + sep;
    let x3 = x2 + rt;
    let p = x3 + seq![')'];
    assert(depth(seq!['('], 0) == 0);
    assert(depth(seq!['('], 1) == 1);
    assert(depth(seq![')'], 0) == 0);
    assert(depth(seq![')'], 1) == -1);
    let n1 = x1.len() as int;
    let n2 = x2.len() as int;
    let n3 = x3.len() as int;
    lemma_depth_concat(seq!['('], lt, n1);
    lemma_depth_concat(x1, sep, n2);
    lemma_depth_concat(x2, rt, n3);
    assert forall|k: int| 0 <= k <= p.len() implies #[trigger] depth(p, k) >= 0 by {
        lemma_depth_concat(x3, seq![')'], k);
        if k <= n3 {
            lemma_depth_concat(x2, rt, k);
            if k <= n2 {
                lemma_depth_concat(x1, sep, k);
                if k <= n1 {
                    lemma_depth_concat(seq!['('], lt, k);
                    if k >= 1 {
                        assert(depth(lt, k - 1) >= 0);
                    }
                } else {
                    assert(depth(sep, k - n1) >= -1);
                }
            } else {
                assert(depth(rt, k - n2) >= 0);
            }
        }
    }
    lemma_depth_concat(x3, seq![')'], p.len() as int);
}

/// A single space before text that begins with no whitespace is trimmed.
pub proof fn lemma_skip_one(x: Seq<char>)
    requires
        x.len() >= 2,
        x[0] == ' ',
        !is_ws(x[1]),
    ensures
        trim_start(x) == x.subrange(1, x.len() as int),
{
    assert(skip_ws(x, 1) == 1);
    assert(skip_ws(x, 0) == 1);
}

pub proof fn lemma_var_end_skip(s: Seq<char>, i: int, j: int)
    requires
        0 <= i <= j < s.len(),
        s[j] == ' ',
        forall|k: int| i <= k < j ==> s[k] != ' ' && s[k] != '=',
    ensures
        find_var_end(s, i) == Some(j),
    decreases j - i,
{
    if i < j {
        lemma_var_end_skip(s, i + 1, j);
    }
}

/// Where the spaces of a comparison's text stand, and what follows them.
pub proof fn lemma_leaf_layout(f: Seq<char>, op: FilterOp, v: Seq<char>)
    requires
        printable(CondV::Filter(f, op, v)),
    ensures
        ({
            let t = print_cond(CondV::Filter(f, op, v));
            let o = op_text(op);
            let nf = f.len() as int;
            let no = o.len() as int;
            &&& t == f + seq![' '] + o + seq![' '] + value_text(op, v)
            &&& t.len() == nf + no + value_text(op, v).len() + 2
            &&& value_text(op, v).len() >= 1
            &&& t[nf] == ' '
            &&& t[nf + 1 + no] == ' '
            &&& t[nf + 1] == o[0]
            &&& t[nf + 2 + no] == value_text(op, v)[0]
            &&& (value_text(op, v)[0] == '\'' || is_digit(value_text(op, v)[0]))
            &&& (t[t.len() - 1] == '\'' || is_digit(t[t.len() - 1]))
            &&& (o[0] == '=' || o[0] == 'N' || o[0] == '<' || o[0] == '>')
            &&& forall|i: int| 0 <= i < t.len() && #[trigger] t[i] == ' ' ==> i == nf || i == nf + 1 + no
            &&& forall|i: int| 0 <= i < t.len() ==> #[trigger] t[i] != '(' && t[i] != ')'
            &&& forall|i: int| 0 <= i < nf ==> #[trigger] t[i] == f[i]
        }),
{
    let t = print_cond(CondV::Filter(f, op, v));
    let o = op_text(op);
    let q = value_text(op, v);
    let nf = f.len() as int;
    let no = o.len() as int;
    assert(t == f + seq![' '] + o + seq![' '] + q);
    lemma_leaf_chars(f, op, v);
    if !(op == FilterOp::EqualTo || op == FilterOp::Not) {
        assert(is_digit(v[0]));
        assert(is_digit(v[v.len() - 1]));
        assert(t[t.len() - 1] == v[v.len() - 1]);
    }
    assert forall|i: int| 0 <= i < t.len() && #[trigger] t[i] == ' ' implies i == nf || i == nf + 1 + no by {
        if i < nf {
            assert(t[i] == f[i]);
            assert(plain_char(f[i]));
        } else if nf < i < nf + 1 + no {
            assert(t[i] == o[i - nf - 1]);
        } else if i > nf + 1 + no {
            let j = i - nf - 2 - no;
            assert(t[i] == q[j]);
            if op == FilterOp::EqualTo || op == FilterOp::Not {
                if 0 < j < q.len() - 1 {
                    assert(q[j] == v[j - 1]);
                    assert(plain_char(v[j - 1]));
                }
            } else {
                assert(plain_char(v[j]));
            }
        }
    }
    assert forall|i: int| 0 <= i < nf implies #[trigger] t[i] == f[i] by {}
}

/// The text of a comparison holds no `AND` or `OR` between spaces.
pub proof fn lemma_leaf_no_conj(f: Seq<char>, op: FilterOp, v: Seq<char>)
    requires
        printable(CondV::Filter(f, op, v)),
    ensures
        last_conj(print_cond(CondV::Filter(f, op, v)), print_cond(CondV::Filter(f, op, v)).len() as int) is None,
{
    let t = print_cond(CondV::Filter(f, op, v));
    lemma_leaf_layout(f, op, v);
    let o = op_text(op);
    let nf = f.len() as int;
    let no = o.len() as int;
    assert forall|j: int| 0 <= j < t.len() implies !conj_at(t, j) by {
        if kw_at(t, j, kw_and()) {
            assert(ci_eq(t[j + 0], kw_and()[0]));
            assert(ci_eq(t[j + 1], kw_and()[1]));
            assert(t[j] == ' ');
        }
        if kw_at(t, j, kw_or()) {
            assert(ci_eq(t[j + 0], kw_or()[0]));
            assert(ci_eq(t[j + 1], kw_or()[1]));
            assert(t[j] == ' ');
        }
    }
    lemma_no_conj(t, t.len() as int);
}

/// The steps of reading a printed comparison as a function clause.
#[verifier::rlimit(100)]
pub proof fn lemma_leaf_function_steps(f: Seq<char>, op: FilterOp, v: Seq<char>)
    requires
        printable(CondV::Filter(f, op, v)),
    ensures
        ({
            let t = print_cond(CondV::Filter(f, op, v));
            let nf = f.len() as int;
            let no = op_text(op).len() as int;
            let s1 = trim_start(t.subrange(nf + 1, t.len() as int));
            let s2 = trim_start(s1.subrange(no, s1.len() as int));
            &&& !kw_at(t, 0, regex_kw())
            &&& find_var_end(t, 0) == Some(nf)
            &&& nf + 1 <= t.len()
            &&& read_op_spec(s1) == Ok::<(int, FilterOp), ConditionConversionError>((no, op))
            &&& no <= s1.len()
            &&& !kw_at(s2, 0, ref_kw())
            &&& !kw_at(s2, 0, split_kw())
        }),
{
    let t = print_cond(CondV::Filter(f, op, v));
    lemma_leaf_layout(f, op, v);
    let o = op_text(op);
    let q = value_text(op, v);
    let nf = f.len() as int;
    let no = o.len() as int;
    if kw_at(t, 0, regex_kw()) {
        assert(ci_eq(t[0int + 5int], regex_kw()[5int]));
        assert(t[5] == '(');
    }
    assert forall|k: int| 0 <= k < nf implies t[k] != ' ' && t[k] != '=' by {
        assert(t[k] == f[k]);
        assert(plain_char(f[k]));
    }
    lemma_var_end_skip(t, 0, nf);
    let s1 = t.subrange(nf + 1, t.len() as int);
    assert(s1 =~= o + seq![' '] + q);
    assert(s1[0] == o[0]);
    assert(skip_ws(s1, 0) == 0);
    assert(trim_start(s1) =~= s1);
    assert forall|k: int| 0 <= k < no implies s1[k] != ' ' by {
        assert(s1[k] == o[k]);
    }
    assert(s1[no] == ' ');
    lemma_find_char_skip(s1, ' ', 0, no);
    assert(s1.subrange(0, no) =~= o);
    lemma_op_round_trip(op);
    let s2r = s1.subrange(no, s1.len() as int);
    assert(s2r =~= seq![' '] + q);
    lemma_skip_one(s2r);
    assert(s2r.subrange(1, s2r.len() as int) =~= q);
    if kw_at(q, 0, ref_kw()) {
        assert(ci_eq(q[0int + 0int], ref_kw()[0int]));
    }
    if kw_at(q, 0, split_kw()) {
        assert(ci_eq(q[0int + 0int], split_kw()[0int]));
    }
}

/// A printed comparison is no function clause, in the ways that let the
/// parser read it as a comparison.
pub proof fn lemma_leaf_not_function(f: Seq<char>, op: FilterOp, v: Seq<char>)
    requires
        printable(CondV::Filter(f, op, v)),
    ensures
        ({
            let r = parse_function_spec(print_cond(CondV::Filter(f, op, v)));
            r == Err::<FunctionV, FunctionParseError>(FunctionParseError::UnknownFunction)
                || r == Err::<FunctionV, FunctionParseError>(FunctionParseError::InvalidOperator(op))
        }),
{
    lemma_leaf_function_steps(f, op, v);
}

/// A printed comparison parses as a comparison.
/// An unsigned whole number is a number, and no quoted string.
pub proof fn lemma_digits_number(v: Seq<char>)
    requires
        v.len() > 0,
        all_digits(v),
    ensures
        is_number(v),
        !is_quoted_spec(v),
{
    assert(is_digit(v[0]));
    assert(sign_len(v) == 0);
    assert(v.subrange(0, v.len() as int) =~= v);
    assert(special(v) is None) by {
        if crate::number::is_word(v, crate::number::inf_kw()) {
            assert(ci_eq(v[0int + 0int], crate::number::inf_kw()[0int]));
        }
        if crate::number::is_word(v, crate::number::infinity_kw()) {
            assert(ci_eq(v[0int + 0int], crate::number::infinity_kw()[0int]));
        }
        if crate::number::is_word(v, crate::number::nan_kw()) {
            assert(ci_eq(v[0int + 0int], crate::number::nan_kw()[0int]));
        }
    }
    lemma_no_exp(v, 0);
    assert forall|k: int| 0 <= k < v.len() implies v[k] != '.' by {
        assert(is_digit(v[k]));
    }
    lemma_find_char_none(v, '.', 0);
    assert(mantissa(v) == v);
    assert(unsigned_number(v));
}

proof fn lemma_no_exp(v: Seq<char>, i: int)
    requires
        0 <= i,
        all_digits(v),
    ensures
        find_exp(v, i) is None,
    decreases v.len() - i,
{
    if i < v.len() {
        assert(is_digit(v[i]));
        lemma_no_exp(v, i + 1);
    }
}

pub proof fn lemma_leaf_comparison(f: Seq<char>, op: FilterOp, v: Seq<char>)
    requires
        printable(CondV::Filter(f, op, v)),
    ensures
        comparison_spec(print_cond(CondV::Filter(f, op, v))) == Ok::<CondV, ConditionConversionError>(
            CondV::Filter(f, op, v),
        ),
{
    let t = print_cond(CondV::Filter(f, op, v));
    lemma_leaf_layout(f, op, v);
    let o = op_text(op);
    let q = value_text(op, v);
    let nf = f.len() as int;
    let no = o.len() as int;
    assert(t[0] == f[0]);
    assert(plain_char(f[0]));
    assert forall|k: int| 1 <= k < nf implies t[k] != ' ' by {
        assert(t[k] == f[k]);
        assert(plain_char(f[k]));
    }
    lemma_find_char_skip(t, ' ', 1, nf);
    assert(t.subrange(0, nf) =~= f);
    assert forall|k: int| 0 <= k < f.len() implies !#[trigger] reserved_at(f, k) by {
        assert(plain_char(f[k]));
        if kw_at(f, k, kw_where()) {
            assert(ci_eq(f[k + 0], kw_where()[0]));
        }
        if kw_at(f, k, kw_and()) {
            assert(ci_eq(f[k + 0], kw_and()[0]));
        }
        if kw_at(f, k, kw_or()) {
            assert(ci_eq(f[k + 0], kw_or()[0]));
        }
    }
    assert(field_valid(f));
    assert(read_field_spec(t) == Ok::<(int, Seq<char>), ConditionConversionError>((nf, f)));
    let s3r = t.subrange(nf, t.len() as int);
    let s3 = o + seq![' '] + q;
    assert(s3r =~= seq![' '] + s3);
    assert(s3r[1] == o[0]);
    lemma_skip_one(s3r);
    assert(s3r.subrange(1, s3r.len() as int) =~= s3);
    assert forall|k: int| 0 <= k < no implies s3[k] != ' ' by {
        assert(s3[k] == o[k]);
    }
    assert(s3[no] == ' ');
    lemma_find_char_skip(s3, ' ', 0, no);
    assert(s3.subrange(0, no) =~= o);
    lemma_op_round_trip(op);
    let vr = s3.subrange(no, s3.len() as int);
    assert(vr =~= seq![' '] + q);
    lemma_skip_one(vr);
    assert(vr.subrange(1, vr.len() as int) =~= q);
    assert(q != empty_kw()) by {
        if q == empty_kw() {
            assert(q[0] == empty_kw()[0]);
        }
    }
    if op == FilterOp::EqualTo || op == FilterOp::Not {
        assert(is_quoted_spec(q));
        assert(q.subrange(1, q.len() - 1) =~= v);
    } else {
        lemma_digits_number(v);
    }
}

pub proof fn lemma_leaf_parse(f: Seq<char>, op: FilterOp, v: Seq<char>)
    requires
        printable(CondV::Filter(f, op, v)),
    ensures
        parse_condition_spec(print_cond(CondV::Filter(f, op, v))) == Ok::<CondV, ConditionConversionError>(
            CondV::Filter(f, op, v),
        ),
{
    let c = CondV::Filter(f, op, v);
    let t = print_cond(c);
    lemma_print_shape(c);
    lemma_leaf_layout(f, op, v);
    lemma_trim_same(t);
    lemma_leaf_no_conj(f, op, v);
    lemma_leaf_not_function(f, op, v);
    lemma_leaf_comparison(f, op, v);
    assert(t[0] != '(');
}

/// `(` + text + `)` parses as the text does.
pub proof fn lemma_wrapped_parse(inner: Seq<char>, c: CondV)
    requires
        balanced(inner),
        parse_condition_spec(inner) == Ok::<CondV, ConditionConversionError>(c),
    ensures
        parse_condition_spec(seq!['('] + inner + seq![')']) == Ok::<CondV, ConditionConversionError>(c),
{
    let w = seq!['('] + inner + seq![')'];
    lemma_wrapped(inner, seq![]);
    assert(seq!['('] + inner + seq![')'] + Seq::<char>::empty() =~= w);
    lemma_trim_same(w);
}

pub open spec fn pair_text(lt: Seq<char>, rt: Seq<char>, is_and: bool) -> Seq<char> {
    seq!['('] + lt + (if is_and { and_sep() } else { or_sep() }) + rt + seq![')']
}

/// In the text of `AND`/`OR`, the rightmost conjunction outside parentheses
/// is the one between the two sides.
#[verifier::rlimit(100)]
pub proof fn lemma_pair_split(lt: Seq<char>, rt: Seq<char>, is_and: bool)
    requires
        balanced(lt),
        balanced(rt),
    ensures
        ({
            let t = pair_text(lt, rt, is_and);
            let j: int = lt.len() + 2int;
            &&& last_conj(t, t.len() as int) == Some(j)
            &&& kw_at(t, j, kw_and()) == is_and
            &&& parenthesized(t) == Some((lt.len() + 2int, lt))
            &&& t.len() > lt.len() + 2
        }),
{
    let sep = if is_and { and_sep() } else { or_sep() };
    let kw = if is_and { kw_and() } else { kw_or() };
    let t = pair_text(lt, rt, is_and);
    let rest = sep.subrange(1, sep.len() as int) + rt + seq![')'];
    assert(t =~= seq!['('] + lt + seq![')'] + rest);
    lemma_wrapped(lt, rest);
    let nl = lt.len() as int;
    let j = nl + 2;
    assert forall|m: int| 0 <= m < kw.len() implies #[trigger] ci_eq(t[j + m], kw[m]) by {
        assert(t[j + m] == sep[m + 1]);
    }
    assert(kw_at(t, j, kw));
    assert(conj_at(t, j));
    if !is_and {
        if kw_at(t, j, kw_and()) {
            assert(ci_eq(t[j + 1], kw_and()[1]));
            assert(t[j + 1] == sep[2]);
        }
    }
    let x2 = seq!['('] + lt + sep;
    let n2 = x2.len() as int;
    lemma_sep_depth();
    assert(depth(seq!['('], 0) == 0);
    assert(depth(seq!['('], 1) == 1);
    lemma_depth_concat(seq!['('], lt, nl + 1);
    lemma_depth_concat(seq!['('] + lt, sep, n2);
    assert(depth(x2, n2) == 1);
    assert(t =~= x2 + (rt + seq![')']));
    assert forall|i: int| j < i < t.len() implies !conj_at(t, i) by {
        if i < n2 {
            assert(t[i] == sep[i - nl - 1]);
            if kw_at(t, i, kw_and()) {
                assert(ci_eq(t[i + 0], kw_and()[0]));
                assert(ci_eq(t[i + 1], kw_and()[1]));
                assert(t[i + 1] == sep[i - nl]);
            }
            if kw_at(t, i, kw_or()) {
                assert(ci_eq(t[i + 0], kw_or()[0]));
                assert(ci_eq(t[i + 1], kw_or()[1]));
                assert(t[i + 1] == sep[i - nl]);
            }
        } else {
            lemma_depth_concat(x2, rt + seq![')'], i);
            lemma_depth_concat(rt, seq![')'], i - n2);
            assert(depth(rt, i - n2) >= 0);
        }
    }
    lemma_last_conj_is(t, t.len() as int, j);
}

/// The parser's step on text that a conjunction splits.
#[verifier::rlimit(100)]
pub proof fn lemma_parse_split_case(t: Seq<char>, j: int, is_and: bool, l: CondV, r: CondV)
    requires
        t.len() > 0,
        trim(t) == t,
        t[0] == '(',
        parenthesized(t) matches Some((m, _)) && m != t.len(),
        last_conj(t, t.len() as int) == Some(j),
        kw_at(t, j, kw_and()) == is_and,
        parse_condition_spec(t.subrange(0, j)) == Ok::<CondV, ConditionConversionError>(l),
        parse_condition_spec(t.subrange(j + if is_and { 5int } else { 4int }, t.len() as int))
            == Ok::<CondV, ConditionConversionError>(r),
    ensures
        parse_condition_spec(t) == Ok::<CondV, ConditionConversionError>(
            if is_and {
                CondV::And(Box::new(l), Box::new(r))
            } else {
                CondV::Or(Box::new(l), Box::new(r))
            },
        ),
{
}

/// The text of `AND`/`OR` parses back, given that both sides do.
#[verifier::rlimit(100)]
pub proof fn lemma_pair_parse(lt: Seq<char>, rt: Seq<char>, is_and: bool, l: CondV, r: CondV)
    requires
        balanced(lt),
        balanced(rt),
        parse_condition_spec(lt) == Ok::<CondV, ConditionConversionError>(l),
        parse_condition_spec(rt) == Ok::<CondV, ConditionConversionError>(r),
    ensures
        parse_condition_spec(pair_text(lt, rt, is_and)) == Ok::<CondV, ConditionConversionError>(
            if is_and {
                CondV::And(Box::new(l), Box::new(r))
            } else {
                CondV::Or(Box::new(l), Box::new(r))
            },
        ),
{
    let t = pair_text(lt, rt, is_and);
    lemma_pair_split(lt, rt, is_and);
    assert(t[0] == '(');
    assert(t[t.len() - 1] == ')');
    lemma_trim_same(t);
    let j: int = lt.len() + 2int;
    let k: int = if is_and { 5 } else { 4 };
    let sep = if is_and { and_sep() } else { or_sep() };
    assert(t.subrange(0, j) =~= seq!['('] + lt + seq![')']);
    assert(t.subrange(j + k, t.len() as int) =~= seq!['('] + rt + seq![')']);
    lemma_wrapped_parse(lt, l);
    lemma_wrapped_parse(rt, r);
    lemma_parse_split_case(t, j, is_and, l, r);
}

/// Printing a condition and parsing the text gives the condition back, for
/// trees combined with `AND` and `OR` of comparisons between plain names
/// (ASCII letters, digits, `_`, `:` and `.`) and either plain values (`=`,
/// `NOT`; the empty value too) or unsigned whole numbers (`<`, `<=`, `>`,
/// `>=`).
pub proof fn lemma_print_parse(c: CondV)
    requires
        printable(c),
    ensures
        parse_condition_spec(print_cond(c)) == Ok::<CondV, ConditionConversionError>(c),
    decreases c,
{
    match c {
        CondV::Filter(f, op, v) => {
            lemma_leaf_parse(f, op, v);
        },
        CondV::And(l, r) => {
            lemma_print_parse(*l);
            lemma_print_parse(*r);
            lemma_print_shape(*l);
            lemma_print_shape(*r);
            assert(print_cond(c) == pair_text(print_cond(*l), print_cond(*r), true));
            lemma_pair_parse(print_cond(*l), print_cond(*r), true, *l, *r);
        },
        CondV::Or(l, r) => {
            lemma_print_parse(*l);
            lemma_print_parse(*r);
            lemma_print_shape(*l);
            lemma_print_shape(*r);
            assert(print_cond(c) == pair_text(print_cond(*l), print_cond(*r), false));
            lemma_pair_parse(print_cond(*l), print_cond(*r), false, *l, *r);
        },
        _ => {},
    }
}

/// Field names joined with commas.
pub open spec fn join_fields(fs: Seq<Seq<char>>) -> Seq<char>
    decreases fs.len(),
{
    if fs.len() == 0 {
        seq![]
    } else if fs.len() == 1 {
        fs[0]
    } else {
        fs[0] + seq![','] + join_fields(fs.subrange(1, fs.len() as int))
    }
}

pub open spec fn where_sep() -> Seq<char> {
    seq![' ', 'W', 'H', 'E', 'R', 'E', ' ']
}

/// The text of a query: the quoted field list, and `WHERE` and the condition
/// unless it is `All`.
pub open spec fn print_query(q: FilterV) -> Seq<char> {
    let head = seq!['\''] + join_fields(q.select) + seq!['\''];
    if q.condition is All {
        head
    } else {
        head + where_sep() + print_cond(q.condition)
    }
}

/// At least one field, every field plain, and a condition that is `All` or
/// printable.
pub open spec fn queryable(q: FilterV) -> bool {
    &&& q.select.len() >= 1
    &&& forall|i: int| 0 <= i < q.select.len() ==> plain(#[trigger] q.select[i])
    &&& (q.condition is All || printable(q.condition))
}

pub proof fn lemma_find_char_none(s: Seq<char>, c: char, i: int)
    requires
        0 <= i,
        forall|k: int| i <= k < s.len() ==> s[k] != c,
    ensures
        find_char(s, c, i) is None,
    decreases s.len() - i,
{
    if i < s.len() {
        lemma_find_char_none(s, c, i + 1);
    }
}

pub proof fn lemma_find_char_shift(x: Seq<char>, y: Seq<char>, c: char, i: int)
    requires
        0 <= i,
    ensures
        find_char(x + y, c, x.len() + i) == match find_char(y, c, i) {
            Some(k) => Some(k + x.len()),
            None => None::<int>,
        },
    decreases y.len() - i,
{
    if i < y.len() {
        assert((x + y)[x.len() + i] == y[i]);
        lemma_find_char_shift(x, y, c, i + 1);
    }
}

pub proof fn lemma_split_shift(x: Seq<char>, y: Seq<char>, c: char, i: int)
    requires
        0 <= i <= y.len(),
    ensures
        split_from(x + y, c, x.len() + i) == split_from(y, c, i),
    decreases y.len() - i,
{
    let t = x + y;
    lemma_find_char_shift(x, y, c, i);
    crate::filter::lemma_find_char_bounds(y, c, i);
    match find_char(y, c, i) {
        Some(k) => {
            assert(t.subrange(x.len() + i, k + x.len()) =~= y.subrange(i, k));
            lemma_split_shift(x, y, c, k + 1);
        },
        None => {
            assert(t.subrange(x.len() + i, t.len() as int) =~= y.subrange(i, y.len() as int));
        },
    }
}

/// Splitting comma-joined names gives the names back.
pub proof fn lemma_join_split(fs: Seq<Seq<char>>)
    requires
        fs.len() >= 1,
        forall|i: int| 0 <= i < fs.len() ==> !(#[trigger] fs[i]).contains(','),
    ensures
        split_on(join_fields(fs), ',') == fs,
    decreases fs.len(),
{
    let f0 = fs[0];
    if fs.len() == 1 {
        assert(!f0.contains(','));
        lemma_find_char_none(f0, ',', 0);
        assert(f0.subrange(0, f0.len() as int) =~= f0);
        assert(seq![f0] =~= fs);
    } else {
        let rest = fs.subrange(1, fs.len() as int);
        assert forall|i: int| 0 <= i < rest.len() implies !(#[trigger] rest[i]).contains(',') by {
            assert(rest[i] == fs[i + 1]);
        }
        lemma_join_split(rest);
        let j = join_fields(rest);
        let x = f0 + seq![','];
        let t = x + j;
        assert(join_fields(fs) == t);
        assert(!f0.contains(','));
        assert forall|k: int| 0 <= k < f0.len() implies t[k] != ',' by {
            assert(t[k] == f0[k]);
            if t[k] == ',' {
                assert(f0.contains(','));
            }
        }
        lemma_find_char_skip(t, ',', 0, f0.len() as int);
        assert(t.subrange(0, f0.len() as int) =~= f0);
        lemma_split_shift(x, j, ',', 0);
        assert(seq![f0] + rest =~= fs);
    }
}

/// A plain name is a valid field name.
pub proof fn lemma_plain_valid(f: Seq<char>)
    requires
        plain(f),
    ensures
        field_valid(f),
        !f.contains(','),
        !f.contains('\''),
{
    assert forall|k: int| 0 <= k < f.len() implies !#[trigger] reserved_at(f, k) by {
        assert(plain_char(f[k]));
        if kw_at(f, k, kw_where()) {
            assert(ci_eq(f[k + 0], kw_where()[0]));
        }
        if kw_at(f, k, kw_and()) {
            assert(ci_eq(f[k + 0], kw_and()[0]));
        }
        if kw_at(f, k, kw_or()) {
            assert(ci_eq(f[k + 0], kw_or()[0]));
        }
    }
    if f.contains(',') {
        let k = choose|k: int| 0 <= k < f.len() && f[k] == ',';
        assert(plain_char(f[k]));
    }
    if f.contains('\'') {
        let k = choose|k: int| 0 <= k < f.len() && f[k] == '\'';
        assert(plain_char(f[k]));
    }
}

/// Comma-joined plain names hold no quotation mark.
pub proof fn lemma_join_no_quote(fs: Seq<Seq<char>>)
    requires
        forall|i: int| 0 <= i < fs.len() ==> plain(#[trigger] fs[i]),
    ensures
        !join_fields(fs).contains('\''),
    decreases fs.len(),
{
    if fs.len() >= 1 {
        lemma_plain_valid(fs[0]);
    }
    if fs.len() > 1 {
        let rest = fs.subrange(1, fs.len() as int);
        assert forall|i: int| 0 <= i < rest.len() implies plain(#[trigger] rest[i]) by {
            assert(rest[i] == fs[i + 1]);
        }
        lemma_join_no_quote(rest);
        let t = fs[0] + seq![','] + join_fields(rest);
        if t.contains('\'') {
            let k = choose|k: int| 0 <= k < t.len() && t[k] == '\'';
            if k < fs[0].len() {
                assert(fs[0][k] == '\'');
                assert(fs[0].contains('\''));
            } else if k > fs[0].len() {
                assert(join_fields(rest)[k - fs[0].len() - 1] == '\'');
                assert(join_fields(rest).contains('\''));
            }
        }
    }
}

/// Printing a query and parsing the text gives the query back, where its
/// fields are plain names and its condition is `All` or printable (see
/// [lemma_print_parse]).
#[verifier::rlimit(100)]
pub proof fn lemma_query_print_parse(q: FilterV)
    requires
        queryable(q),
    ensures
        parse_query_spec(print_query(q)) == Ok::<FilterV, crate::filter::QueryConversionError>(q),
{
    let fs = q.select;
    let j = join_fields(fs);
    assert forall|i: int| 0 <= i < fs.len() implies !(#[trigger] fs[i]).contains(',') by {
        lemma_plain_valid(fs[i]);
    }
    assert forall|i: int| 0 <= i < fs.len() implies crate::filter::field_valid(#[trigger] fs[i]) by {
        lemma_plain_valid(fs[i]);
    }
    lemma_join_split(fs);
    lemma_join_no_quote(fs);
    assert(all_valid(split_on(j, ',')));
    let tail = if q.condition is All { seq![] } else { where_sep() + print_cond(q.condition) };
    let s = seq!['\''] + j + seq!['\''] + tail;
    assert(print_query(q) =~= s);
    lemma_quoted_fields('\'', j, tail);
    let idx: int = j.len() + 2int;
    assert(s.subrange(idx, s.len() as int) =~= tail);
    if q.condition is All {
        assert(tail.len() == 0);
        assert(trim(tail) =~= tail);
    } else {
        lemma_where_tail(q.condition);
    }
}

/// ` WHERE ` and a printed condition: what the query parser reads after the
/// field list.
#[verifier::rlimit(100)]
pub proof fn lemma_where_tail(c: CondV)
    requires
        printable(c),
    ensures
        ({
            let w = trim(where_sep() + print_cond(c));
            &&& w.len() >= 6
            &&& kw_at(w, 0, where_kw())
            &&& parse_condition_spec(w.subrange(5, w.len() as int)) == Ok::<CondV, ConditionConversionError>(c)
        }),
{
    let tail = where_sep() + print_cond(c);
    let p = print_cond(c);
    lemma_print_shape(c);
    lemma_print_parse(c);
    let w = tail.subrange(1, tail.len() as int);
    assert(tail =~= seq![' '] + w);
    lemma_skip_one(tail);
    assert(w[w.len() - 1] == p[p.len() - 1]);
    lemma_trim_same(w);
    assert(trim_start(tail) =~= w);
    assert(trim(tail) == w);
    assert forall|m: int| 0 <= m < 5 implies #[trigger] ci_eq(w[0 + m], where_kw()[m]) by {
        assert(w[m] == where_sep()[m + 1]);
    }
    let rest = w.subrange(5, w.len() as int);
    assert(rest =~= seq![' '] + p);
    lemma_skip_one(rest);
    assert(rest.subrange(1, rest.len() as int) =~= p);
    lemma_trim_same(p);
    assert(trim(rest) == trim(p));
    assert(parse_condition_spec(rest) == parse_condition_spec(p));
}

impl Filter {
    /// The query as text; see [print_query].
    pub fn to_query_string(&self) -> (r: String)
        ensures
            r@ == print_query(self@),
    {
        let mut s = String::new();
        push_char(&mut s, '\'');
        let mut i: usize = 0;
        let n = self.select.len();
        let ghost fs = self.select.deep_view();
        let ghost s0 = s@;
        while i < n
            invariant
                n == self.select.len(),
                fs == self.select.deep_view(),
                fs.len() == n,
                i <= n,
                s0 == seq!['\''],
                s@ == s0 + join_fields(fs.subrange(0, i as int)),
            decreases n - i,
        {
            let ghost before = s@;
            if i > 0 {
                push_char(&mut s, ',');
            }
            s.append(self.select[i].as_str());
            assert(fs[i as int] == self.select[i as int]@);
            proof {
                lemma_join_push(fs.subrange(0, i as int), fs[i as int]);
                assert(fs.subrange(0, i + 1) =~= fs.subrange(0, i as int).push(fs[i as int]));
            }
            assert(s@ =~= s0 + join_fields(fs.subrange(0, i + 1)));
            i += 1;
        }
        assert(fs.subrange(0, n as int) =~= fs);
        push_char(&mut s, '\'');
        match &self.condition {
            Condition::All => {
                assert(s@ =~= print_query(self@));
                s
            },
            c => {
                let ghost h = s@;
                let text = c.to_query_string();
                push_char(&mut s, ' ');
                push_char(&mut s, 'W');
                push_char(&mut s, 'H');
                push_char(&mut s, 'E');
                push_char(&mut s, 'R');
                push_char(&mut s, 'E');
                push_char(&mut s, ' ');
                s.append(text.as_str());
                assert(s@ =~= h + where_sep() + text@);
                assert(s@ =~= print_query(self@));
                s
            },
        }
    }
}

/// Joining one more name adds a comma and the name (none before the first).
pub proof fn lemma_join_push(fs: Seq<Seq<char>>, f: Seq<char>)
    ensures
        join_fields(fs.push(f)) == if fs.len() == 0 {
            f
        } else {
            join_fields(fs) + seq![','] + f
        },
    decreases fs.len(),
{
    let g = fs.push(f);
    if fs.len() == 0 {
        assert(g.len() == 1);
    } else if fs.len() == 1 {
        assert(g.subrange(1, g.len() as int) =~= seq![f]);
        assert(join_fields(seq![f]) == f);
    } else {
        let rest = fs.subrange(1, fs.len() as int);
        lemma_join_push(rest, f);
        assert(g.subrange(1, g.len() as int) =~= rest.push(f));
        assert(join_fields(g) =~= fs[0] + seq![','] + join_fields(rest.push(f)));
    }
}

} // verus!
