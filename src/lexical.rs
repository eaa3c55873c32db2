//! Low-level scanning helpers of the query language.
//!
//! Every helper works on character positions (not bytes) of a `&str`, and each
//! one is tied to a spec function over the string's view, a `Seq<char>`.
use vstd::prelude::*;

verus! {

/// Whitespace as the query language understands it.
pub open spec fn is_ws(c: char) -> bool {
    c == ' ' || c == '\t' || c == '\n' || c == '\r' || c == '\x0B' || c == '\x0C'
}

/// `a` equals `k` when ASCII letters are compared without regard to case; `k`
/// is written in upper case.
pub open spec fn ci_eq(a: char, k: char) -> bool {
    a == k || ('A' <= k && k <= 'Z' && a as u32 == k as u32 + 32)
}

/// The keyword `kw` (upper case) stands at position `i` of `s`, in any case.
pub open spec fn kw_at(s: Seq<char>, i: int, kw: Seq<char>) -> bool {
    &&& 0 <= i
    &&& i + kw.len() <= s.len()
    &&& forall|j: int| 0 <= j < kw.len() ==> #[trigger] ci_eq(s[i + j], kw[j])
}

/// First position at or after `i` that holds no whitespace (or the length).
pub open spec fn skip_ws(s: Seq<char>, i: int) -> int
    decreases s.len() - i,
{
    if i < 0 || i >= s.len() {
        if i < 0 { 0 } else { s.len() as int }
    } else if is_ws(s[i]) {
        skip_ws(s, i + 1)
    } else {
        i
    }
}

/// End of `s[0..j]` once trailing whitespace is dropped.
pub open spec fn rskip_ws(s: Seq<char>, j: int) -> int
    decreases j,
{
    if j <= 0 || j > s.len() {
        if j <= 0 { 0 } else { s.len() as int }
    } else if is_ws(s[j - 1]) {
        rskip_ws(s, j - 1)
    } else {
        j
    }
}

pub open spec fn trim_start(s: Seq<char>) -> Seq<char> {
    s.subrange(skip_ws(s, 0), s.len() as int)
}

pub open spec fn trim_end(s: Seq<char>) -> Seq<char> {
    s.subrange(0, rskip_ws(s, s.len() as int))
}

pub open spec fn trim(s: Seq<char>) -> Seq<char> {
    trim_end(trim_start(s))
}

/// First position at or after `i` that holds `c`.
pub open spec fn find_char(s: Seq<char>, c: char, i: int) -> Option<int>
    decreases s.len() - i,
{
    if i < 0 || i >= s.len() {
        None
    } else if s[i] == c {
        Some(i)
    } else {
        find_char(s, c, i + 1)
    }
}

pub open spec fn is_quote(c: char) -> bool {
    c == '\'' || c == '"'
}

/// The string is surrounded by one kind of quotation mark.
pub open spec fn is_quoted_spec(s: Seq<char>) -> bool {
    s.len() >= 2 && is_quote(s[0]) && s[s.len() - 1] == s[0]
}

/// Opening parentheses minus closing ones in `s[0..m]`.
pub open spec fn depth(s: Seq<char>, m: int) -> int
    decreases m,
{
    if m <= 0 || m > s.len() {
        0
    } else {
        depth(s, m - 1) + if s[m - 1] == '(' {
            1int
        } else if s[m - 1] == ')' {
            -1int
        } else {
            0int
        }
    }
}

/// First position at or after `i` where the parenthesis opened at 0 closes.
pub open spec fn closing_paren(s: Seq<char>, i: int) -> Option<int>
    decreases s.len() - i,
{
    if i < 0 || i >= s.len() {
        None
    } else if depth(s, i + 1) == 0 {
        Some(i)
    } else {
        closing_paren(s, i + 1)
    }
}

/// What `get_inner_expression` gives: the characters consumed and the text
/// inside the outer parentheses.
pub open spec fn parenthesized(s: Seq<char>) -> Option<(int, Seq<char>)> {
    match closing_paren(s, 0) {
        Some(k) => Some((k + 1, s.subrange(1, k))),
        None => None,
    }
}

/// Relies on `String::push`, which appends one character to a string.
#[verifier::external_body]
pub(crate) fn push_char(s: &mut String, c: char)
    ensures
        final(s)@ == old(s)@.push(c),
{
    s.push(c)
}

/// What `str::to_lowercase` gives for a string.
pub uninterp spec fn lower_of(s: Seq<char>) -> Seq<char>;

/// Relies on `str::to_lowercase`: the result depends on the characters alone.
#[verifier::external_body]
pub(crate) fn lowercase(s: &str) -> (r: String)
    ensures
        r@ == lower_of(s@),
{
    s.to_lowercase()
}

/// Number of characters of a string.
pub fn char_len(s: &str) -> (n: usize)
    ensures
        n == s@.len(),
{
    s.unicode_len()
}

/// The characters `s[from..to]` as a new `String`.
pub fn sub_string(s: &str, from: usize, to: usize) -> (r: String)
    requires
        from <= to <= s@.len(),
    ensures
        r@ == s@.subrange(from as int, to as int),
{
    String::from_str(s.substring_char(from, to))
}

pub fn is_ws_char(c: char) -> (r: bool)
    ensures
        r == is_ws(c),
{
    c == ' ' || c == '\t' || c == '\n' || c == '\r' || c == '\x0B' || c == '\x0C'
}

pub fn ci_eq_char(a: char, k: char) -> (r: bool)
    ensures
        r == ci_eq(a, k),
{
    a == k || ('A' <= k && k <= 'Z' && (a as u32) == (k as u32) + 32)
}

/// Whether the upper-case keyword `kw` stands at position `i` of `s`.
pub fn keyword_at(s: &str, n: usize, i: usize, kw: &[char]) -> (r: bool)
    requires
        n == s@.len(),
    ensures
        r == kw_at(s@, i as int, kw@),
{
    if kw.len() > n || i > n - kw.len() {
        return false;
    }
    let mut j: usize = 0;
    while j < kw.len()
        invariant
            j <= kw.len(),
            i + kw@.len() <= n,
            n == s@.len(),
            forall|k: int| 0 <= k < j ==> #[trigger] ci_eq(s@[i + k], kw@[k]),
        decreases kw.len() - j,
    {
        if !ci_eq_char(s.get_char(i + j), kw[j]) {
            return false;
        }
        j += 1;
    }
    true
}

/// Position of the first character at or after `i` that is no whitespace.
pub fn skip_whitespace(s: &str, n: usize, i: usize) -> (r: usize)
    requires
        n == s@.len(),
    ensures
        r == skip_ws(s@, i as int),
{
    let mut k = i;
    if k >= n {
        return n;
    }
    while k < n
        invariant
            n == s@.len(),
            i <= k <= n,
            skip_ws(s@, i as int) == skip_ws(s@, k as int),
        decreases n - k,
    {
        if !is_ws_char(s.get_char(k)) {
            return k;
        }
        k += 1;
    }
    n
}

/// End of `s[0..j]` once trailing whitespace is dropped.
pub fn rskip_whitespace(s: &str, n: usize, j: usize) -> (r: usize)
    requires
        n == s@.len(),
        j <= n,
    ensures
        r == rskip_ws(s@, j as int),
{
    let mut k = j;
    while k > 0
        invariant
            n == s@.len(),
            k <= j <= n,
            rskip_ws(s@, j as int) == rskip_ws(s@, k as int),
        decreases k,
    {
        if !is_ws_char(s.get_char(k - 1)) {
            return k;
        }
        k -= 1;
    }
    0
}

/// `s` without leading or trailing whitespace.
pub fn trim_str(s: &str) -> (r: &str)
    ensures
        r@ == trim(s@),
{
    let n = char_len(s);
    let a = skip_whitespace(s, n, 0);
    proof {
        lemma_skip_ws_bounds(s@, 0);
    }
    let t = s.substring_char(a, n);
    let m = char_len(t);
    let b = rskip_whitespace(t, m, m);
    proof {
        lemma_rskip_ws_bounds(t@, m as int);
    }
    t.substring_char(0, b)
}

/// `s` without leading whitespace.
pub fn trim_start_str(s: &str) -> (r: &str)
    ensures
        r@ == trim_start(s@),
{
    let n = char_len(s);
    let a = skip_whitespace(s, n, 0);
    proof {
        lemma_skip_ws_bounds(s@, 0);
    }
    s.substring_char(a, n)
}

/// `s` without trailing whitespace.
pub fn trim_end_str(s: &str) -> (r: &str)
    ensures
        r@ == trim_end(s@),
{
    let n = char_len(s);
    let b = rskip_whitespace(s, n, n);
    proof {
        lemma_rskip_ws_bounds(s@, n as int);
    }
    s.substring_char(0, b)
}

pub proof fn lemma_skip_ws_bounds(s: Seq<char>, i: int)
    requires
        0 <= i <= s.len(),
    ensures
        i <= skip_ws(s, i) <= s.len(),
        forall|k: int| i <= k < skip_ws(s, i) ==> is_ws(s[k]),
    decreases s.len() - i,
{
    if i < s.len() && is_ws(s[i]) {
        lemma_skip_ws_bounds(s, i + 1);
    }
}

pub proof fn lemma_rskip_ws_bounds(s: Seq<char>, j: int)
    requires
        0 <= j <= s.len(),
    ensures
        0 <= rskip_ws(s, j) <= j,
    decreases j,
{
    if j > 0 && is_ws(s[j - 1]) {
        lemma_rskip_ws_bounds(s, j - 1);
    }
}

/// Position of the first `c` at or after `i`.
pub fn find_char_from(s: &str, n: usize, c: char, i: usize) -> (r: Option<usize>)
    requires
        n == s@.len(),
    ensures
        r matches Some(k) ==> find_char(s@, c, i as int) == Some(k as int),
        r is None ==> find_char(s@, c, i as int) is None,
        r matches Some(k) ==> i <= k < n && s@[k as int] == c,
{
    let mut k = i;
    while k < n
        invariant
            n == s@.len(),
            i <= k,
            find_char(s@, c, i as int) == find_char(s@, c, k as int),
        decreases n - k,
    {
        if s.get_char(k) == c {
            return Some(k);
        }
        k += 1;
    }
    None
}

/// Determine whether the provided string is surrounded by a single or double
/// quotation mark.
pub fn is_quoted(s: &str) -> (r: bool)
    ensures
        r == is_quoted_spec(s@),
{
    let n = char_len(s);
    if n < 2 {
        return false;
    }
    let c = s.get_char(0);
    (c == '\'' || c == '"') && s.get_char(n - 1) == c
}

/// Get the text within matching parentheses.
///
/// `s` starts with `(`. Returns the number of characters read, up to and
/// including the matching `)`, and the text between the two; `None` when the
/// parenthesis never closes.
pub fn get_inner_expression(s: &str) -> (r: Option<(usize, &str)>)
    requires
        s@.len() > 0,
        s@[0] == '(',
    ensures
        r matches Some((k, t)) ==> parenthesized(s@) == Some((k as int, t@)),
        r is None ==> parenthesized(s@) is None,
{
    let n = char_len(s);
    let mut level: usize = 0;
    let mut i: usize = 0;
    while i < n
        invariant
            n == s@.len(),
            s@[0] == '(',
            i <= n,
            level as int == depth(s@, i as int),
            i > 0 ==> level > 0,
            level <= i,
            closing_paren(s@, 0) == closing_paren(s@, i as int),
        decreases n - i,
    {
        let c = s.get_char(i);
        if c == '(' {
            level += 1;
        } else if c == ')' {
            level -= 1;
        }
        assert(level as int == depth(s@, i + 1));
        if level == 0 {
            return Some((i + 1, s.substring_char(1, i)));
        }
        i += 1;
    }
    None
}

/// The pieces of `t[start..]` between the separators `c`.
pub open spec fn split_from(t: Seq<char>, c: char, start: int) -> Seq<Seq<char>>
    decreases t.len() - start,
{
    if start < 0 || start > t.len() {
        seq![]
    } else {
        match find_char(t, c, start) {
            Some(i) => if start <= i < t.len() {
                seq![t.subrange(start, i)] + split_from(t, c, i + 1)
            } else {
                seq![]
            },
            None => seq![t.subrange(start, t.len() as int)],
        }
    }
}

/// The pieces of `t` between the separators `c`.
pub open spec fn split_on(t: Seq<char>, c: char) -> Seq<Seq<char>> {
    split_from(t, c, 0)
}

/// The pieces of `t` between the separators `c`.
pub fn split_str(t: &str, c: char) -> (r: Vec<String>)
    ensures
        r.deep_view() == split_on(t@, c),
{
    let n = char_len(t);
    let mut out: Vec<String> = Vec::new();
    let mut start: usize = 0;
    loop
        invariant
            n == t@.len(),
            start <= n,
            out.deep_view() + split_from(t@, c, start as int) == split_on(t@, c),
        decreases n - start,
    {
        let ghost old_dv = out.deep_view();
        match find_char_from(t, n, c, start) {
            Some(i) => {
                let piece = sub_string(t, start, i);
                let ghost pv = piece@;
                out.push(piece);
                proof {
                    assert(out.deep_view() =~= old_dv.push(pv));
                    assert(split_from(t@, c, start as int) == seq![pv] + split_from(t@, c, i + 1));
                    assert(out.deep_view() + split_from(t@, c, i + 1) =~= old_dv + (seq![pv]
                        + split_from(t@, c, i + 1)));
                }
                start = i + 1;
            },
            None => {
                let piece = sub_string(t, start, n);
                let ghost pv = piece@;
                out.push(piece);
                proof {
                    assert(out.deep_view() =~= old_dv.push(pv));
                    assert(split_from(t@, c, start as int) == seq![pv]);
                    assert(out.deep_view() =~= old_dv + split_from(t@, c, start as int));
                }
                return out;
            },
        }
    }
}

} // verus!
