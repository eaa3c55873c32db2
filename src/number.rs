//! Decimal numbers in queries and field values.
//!
//! A number is an optional sign and then `inf`, `infinity` or `nan` (in any
//! case), or digits with an optional fractional part after a `.` (at least one
//! digit in all) and an optional exponent: `e` or `E`, an optional sign and
//! digits. A finite number's value is exact, with no limit on its digits; an
//! exponent of more than 15 digits gives no value. Comparisons order the values
//! with the infinities at the ends; `nan` compares with nothing.
use vstd::prelude::*;

use crate::lexical::{char_len, find_char, find_char_from, keyword_at, kw_at};

verus! {

pub open spec fn is_digit(c: char) -> bool {
    '0' <= c && c <= '9'
}

pub open spec fn all_digits(s: Seq<char>) -> bool {
    forall|i: int| 0 <= i < s.len() ==> #[trigger] is_digit(s[i])
}

/// Length of the leading sign, if any.
pub open spec fn sign_len(s: Seq<char>) -> int {
    if s.len() > 0 && (s[0] == '+' || s[0] == '-') {
        1
    } else {
        0
    }
}

/// The magnitude part of a number: digits, with at most one `.` among them.
pub open spec fn unsigned_number(b: Seq<char>) -> bool {
    match find_char(b, '.', 0) {
        Some(p) => b.len() >= 2 && all_digits(b.subrange(0, p)) && all_digits(
            b.subrange(p + 1, b.len() as int),
        ),
        None => b.len() >= 1 && all_digits(b),
    }
}

/// Position of the first exponent marker (`e` or `E`) at or after `i`.
pub open spec fn find_exp(b: Seq<char>, i: int) -> Option<int>
    decreases b.len() - i,
{
    if i < 0 || i >= b.len() {
        None
    } else if b[i] == 'e' || b[i] == 'E' {
        Some(i)
    } else {
        find_exp(b, i + 1)
    }
}

/// The part of a magnitude before its exponent.
pub open spec fn mantissa(b: Seq<char>) -> Seq<char> {
    match find_exp(b, 0) {
        Some(i) => b.subrange(0, i),
        None => b,
    }
}

/// The exponent's text: an optional sign and digits.
pub open spec fn exp_text(b: Seq<char>) -> Seq<char> {
    match find_exp(b, 0) {
        Some(i) => b.subrange(i + 1, b.len() as int),
        None => seq![],
    }
}

/// There is no exponent, or it is an optional sign and at least one digit.
pub open spec fn exp_ok(b: Seq<char>) -> bool {
    let x = exp_text(b);
    find_exp(b, 0) is None || (x.len() > sign_len(x) && all_digits(x.subrange(sign_len(x), x.len() as int)))
}

/// The exponent's value (zero where there is none).
pub open spec fn exp_value(b: Seq<char>) -> int {
    let x = exp_text(b);
    let v = digits_val(x.subrange(sign_len(x), x.len() as int));
    if find_exp(b, 0) is None {
        0
    } else if sign_len(x) == 1 && x[0] == '-' {
        -v
    } else {
        v
    }
}

/// The text is a decimal number: an optional sign, digits with at most one
/// `.`, and an optional exponent (`e` or `E`, an optional sign and digits).
pub open spec fn is_number(s: Seq<char>) -> bool {
    let b = s.subrange(sign_len(s), s.len() as int);
    special(b) is Some || (unsigned_number(mantissa(b)) && exp_ok(b))
}

pub open spec fn inf_kw() -> Seq<char> {
    seq!['I', 'N', 'F']
}

pub open spec fn infinity_kw() -> Seq<char> {
    seq!['I', 'N', 'F', 'I', 'N', 'I', 'T', 'Y']
}

pub open spec fn nan_kw() -> Seq<char> {
    seq!['N', 'A', 'N']
}

/// `b` is the word `kw`, in any case.
pub open spec fn is_word(b: Seq<char>, kw: Seq<char>) -> bool {
    b.len() == kw.len() && kw_at(b, 0, kw)
}

/// A value that is no finite number: infinite (with its sign) or not a
/// number.
pub enum Special {
    Inf,
    NaN,
}

pub open spec fn special(b: Seq<char>) -> Option<Special> {
    if is_word(b, inf_kw()) || is_word(b, infinity_kw()) {
        Some(Special::Inf)
    } else if is_word(b, nan_kw()) {
        Some(Special::NaN)
    } else {
        None
    }
}

pub open spec fn digit_val(c: char) -> int {
    c as int - '0' as int
}

/// The value of a string of digits.
pub open spec fn digits_val(s: Seq<char>) -> int
    decreases s.len(),
{
    if s.len() == 0 {
        0
    } else {
        digits_val(s.drop_last()) * 10 + digit_val(s.last())
    }
}

pub open spec fn pow10(k: nat) -> int
    decreases k,
{
    if k == 0 {
        1
    } else {
        10 * pow10((k - 1) as nat)
    }
}

pub fn is_digit_char(c: char) -> (r: bool)
    ensures
        r == is_digit(c),
{
    '0' <= c && c <= '9'
}

/// Whether `s[from..to]` is all digits.
fn digits_in(s: &str, from: usize, to: usize) -> (r: bool)
    requires
        from <= to <= s@.len(),
    ensures
        r == all_digits(s@.subrange(from as int, to as int)),
{
    let mut i = from;
    while i < to
        invariant
            from <= i <= to <= s@.len(),
            forall|k: int| from <= k < i ==> #[trigger] is_digit(s@[k]),
        decreases to - i,
    {
        if !is_digit_char(s.get_char(i)) {
            assert(!is_digit(s@.subrange(from as int, to as int)[i - from]));
            return false;
        }
        i += 1;
    }
    assert forall|k: int| 0 <= k < to - from implies #[trigger] is_digit(
        s@.subrange(from as int, to as int)[k],
    ) by {
        assert(is_digit(s@[from + k]));
    }
    true
}

/// Position of the first exponent marker at or after `i`.
fn find_exp_from(b: &str, n: usize, i: usize) -> (r: Option<usize>)
    requires
        n == b@.len(),
    ensures
        r matches Some(k) ==> find_exp(b@, i as int) == Some(k as int) && i <= k < n,
        r is None ==> find_exp(b@, i as int) is None,
{
    let mut k = i;
    while k < n
        invariant
            n == b@.len(),
            i <= k,
            find_exp(b@, i as int) == find_exp(b@, k as int),
        decreases n - k,
    {
        let c = b.get_char(k);
        if c == 'e' || c == 'E' {
            return Some(k);
        }
        k += 1;
    }
    None
}

/// Whether a magnitude without exponent is digits with at most one `.`.
fn unsigned_str(b: &str) -> (r: bool)
    ensures
        r == unsigned_number(b@),
{
    let bn = char_len(b);
    match find_char_from(b, bn, '.', 0) {
        Some(p) => {
            let r = bn >= 2 && digits_in(b, 0, p) && digits_in(b, p + 1, bn);
            assert(r == unsigned_number(b@));
            r
        },
        None => {
            let r = bn >= 1 && digits_in(b, 0, bn);
            assert(b@.subrange(0, bn as int) =~= b@);
            r
        },
    }
}

/// The magnitude of a number (its text without the leading sign), and the
/// position of its exponent marker.
fn magnitude(s: &str) -> (r: (&str, Option<usize>))
    ensures
        r.0@ == s@.subrange(sign_len(s@), s@.len() as int),
        r.1 matches Some(k) ==> find_exp(r.0@, 0) == Some(k as int) && k < r.0@.len(),
        r.1 is None ==> find_exp(r.0@, 0) is None,
        r.1 is None ==> mantissa(r.0@) == r.0@,
{
    let n = char_len(s);
    let sl: usize = if n > 0 && (s.get_char(0) == '+' || s.get_char(0) == '-') { 1 } else { 0 };
    let b = s.substring_char(sl, n);
    assert(sl as int == sign_len(s@));
    let bn = char_len(b);
    (b, find_exp_from(b, bn, 0))
}

pub proof fn lemma_pow10_pos(k: nat)
    ensures
        pow10(k) >= 1,
    decreases k,
{
    if k > 0 {
        lemma_pow10_pos((k - 1) as nat);
    }
}

/// The value of the digits `b[0..k]`.
pub proof fn lemma_digits_step(b: Seq<char>, k: int)
    requires
        0 <= k < b.len(),
    ensures
        digits_val(b.subrange(0, k + 1)) == digits_val(b.subrange(0, k)) * 10 + digit_val(b[k]),
{
    assert(b.subrange(0, k + 1).drop_last() =~= b.subrange(0, k));
}

pub proof fn lemma_pow10_mono(a: nat, b: nat)
    requires
        a <= b,
    ensures
        pow10(a) <= pow10(b),
    decreases b,
{
    if a < b {
        lemma_pow10_mono(a, (b - 1) as nat);
        lemma_pow10_pos((b - 1) as nat);
    }
}


/// A number's value: not a number, infinite (negative or not), or finite:
/// its sign, magnitude `m` and exponent `k`, for the value `±m·10^k`.
pub enum NumV {
    NaN,
    Inf(bool),
    Finite(bool, int, int),
}

/// The digits of a mantissa without its point.
pub open spec fn mant_digits(m: Seq<char>) -> Seq<char> {
    match find_char(m, '.', 0) {
        Some(p) => m.subrange(0, p) + m.subrange(p + 1, m.len() as int),
        None => m,
    }
}

/// The number of digits after a mantissa's point.
pub open spec fn frac_len(m: Seq<char>) -> int {
    match find_char(m, '.', 0) {
        Some(p) => m.len() - p - 1,
        None => 0,
    }
}

/// The digits of the exponent.
pub open spec fn exp_digits(b: Seq<char>) -> Seq<char> {
    let x = exp_text(b);
    x.subrange(sign_len(x), x.len() as int)
}

/// The value of a number's text, if it is a number.
pub open spec fn num_of(s: Seq<char>) -> Option<NumV> {
    let neg = sign_len(s) == 1 && s[0] == '-';
    let b = s.subrange(sign_len(s), s.len() as int);
    match special(b) {
        Some(Special::Inf) => Some(NumV::Inf(neg)),
        Some(Special::NaN) => Some(NumV::NaN),
        None => if unsigned_number(mantissa(b)) && exp_ok(b) && exp_digits(b).len() <= 15 {
            Some(
                NumV::Finite(
                    neg,
                    digits_val(mant_digits(mantissa(b))),
                    exp_value(b) - frac_len(mantissa(b)),
                ),
            )
        } else {
            None
        },
    }
}

/// `±m·10^(k - base)`, for `k >= base`.
pub open spec fn signed_scaled(neg: bool, m: int, k: int, base: int) -> int {
    let a = m * pow10((k - base) as nat);
    if neg {
        -a
    } else {
        a
    }
}

pub open spec fn sign_of(x: int) -> int {
    if x < 0 {
        -1
    } else if x == 0 {
        0
    } else {
        1
    }
}

/// How two values compare (-1, 0 or 1); `None` where one is not a number.
pub open spec fn num_cmp(x: NumV, y: NumV) -> Option<int> {
    match (x, y) {
        (NumV::NaN, _) => None,
        (_, NumV::NaN) => None,
        (NumV::Inf(a), NumV::Inf(b)) => Some(
            if a == b {
                0
            } else if a {
                -1
            } else {
                1
            },
        ),
        (NumV::Inf(a), _) => Some(if a { -1 } else { 1 }),
        (_, NumV::Inf(b)) => Some(if b { 1 } else { -1 }),
        (NumV::Finite(n1, m1, k1), NumV::Finite(n2, m2, k2)) => {
            let base = if k1 < k2 { k1 } else { k2 };
            Some(sign_of(signed_scaled(n1, m1, k1, base) - signed_scaled(n2, m2, k2, base)))
        },
    }
}

pub proof fn lemma_pow10_add(a: nat, b: nat)
    ensures
        pow10(a + b) == pow10(a) * pow10(b),
    decreases a,
{
    if a > 0 {
        lemma_pow10_add((a - 1) as nat, b);
        assert(pow10(a + b) == 10 * pow10((a - 1 + b) as nat));
        assert(10 * (pow10((a - 1) as nat) * pow10(b)) == (10 * pow10((a - 1) as nat)) * pow10(b))
            by (nonlinear_arith);
    }
}

/// Digits are worth less than 10 to the power of their count, and at least
/// 10 to one less where the first is not zero.
pub proof fn lemma_val_bounds(d: Seq<char>)
    requires
        all_digits(d),
    ensures
        0 <= digits_val(d) < pow10(d.len()),
        d.len() >= 1 && d[0] != '0' ==> digits_val(d) >= pow10((d.len() - 1) as nat),
    decreases d.len(),
{
    if d.len() > 0 {
        let p = d.drop_last();
        assert forall|i: int| 0 <= i < p.len() implies #[trigger] is_digit(p[i]) by {
            assert(is_digit(d[i]));
        }
        lemma_val_bounds(p);
        assert(is_digit(d[d.len() - 1]));
        if d.len() >= 2 && d[0] != '0' {
            assert(p[0] == d[0]);
        }
        if d.len() == 1 {
            assert(p.len() == 0);
        }
    }
}

/// Leading zeros add nothing to the value.
pub proof fn lemma_leading_zeros(d: Seq<char>, f: int)
    requires
        0 <= f <= d.len(),
        forall|i: int| 0 <= i < f ==> d[i] == '0',
    ensures
        digits_val(d) == digits_val(d.subrange(f, d.len() as int)),
    decreases d.len(),
{
    if d.len() > f {
        let p = d.drop_last();
        lemma_leading_zeros(p, f);
        assert(d.subrange(f, d.len() as int).drop_last() =~= p.subrange(f, p.len() as int));
    } else if d.len() > 0 {
        lemma_leading_zeros(d.drop_last(), f - 1);
        assert(d.drop_last().subrange(f - 1, d.len() - 1) =~= Seq::<char>::empty());
        assert(d.subrange(f, d.len() as int) =~= Seq::<char>::empty());
    }
}

/// Trailing zeros multiply the value by 10 for each.
pub proof fn lemma_pad(d: Seq<char>, z: nat)
    ensures
        digits_val(d + Seq::new(z, |_i: int| '0')) == digits_val(d) * pow10(z),
    decreases z,
{
    let e = d + Seq::new(z, |_i: int| '0');
    if z == 0 {
        assert(e =~= d);
    } else {
        lemma_pad(d, (z - 1) as nat);
        assert(e.drop_last() =~= d + Seq::new((z - 1) as nat, |_i: int| '0'));
        let v = digits_val(d);
        assert(v * pow10((z - 1) as nat) * 10 == v * (10 * pow10((z - 1) as nat))) by (nonlinear_arith);
    }
}

fn is_word_str(b: &str, n: usize, kw: &[char]) -> (r: bool)
    requires
        n == b@.len(),
    ensures
        r == is_word(b@, kw@),
{
    n == kw.len() && keyword_at(b, n, 0, kw)
}

/// Which special value the text names, if any: 1 for an infinity, 2 for not
/// a number.
fn special_of(b: &str) -> (r: u8)
    ensures
        r == 1 ==> special(b@) == Some(Special::Inf),
        r == 2 ==> special(b@) == Some(Special::NaN),
        r == 0 ==> special(b@) is None,
        r <= 2,
{
    let n = char_len(b);
    let inf: [char; 3] = ['I', 'N', 'F'];
    let infinity: [char; 8] = ['I', 'N', 'F', 'I', 'N', 'I', 'T', 'Y'];
    let nan: [char; 3] = ['N', 'A', 'N'];
    assert(inf@ =~= inf_kw());
    assert(infinity@ =~= infinity_kw());
    assert(nan@ =~= nan_kw());
    if is_word_str(b, n, &inf) || is_word_str(b, n, &infinity) {
        1
    } else if is_word_str(b, n, &nan) {
        2
    } else {
        0
    }
}

/// Whether the text is a decimal number.
pub fn is_number_str(s: &str) -> (r: bool)
    ensures
        r == is_number(s@),
{
    let (b, ie) = magnitude(s);
    if special_of(b) != 0 {
        return true;
    }
    let bn = char_len(b);
    match ie {
        None => unsigned_str(b),
        Some(i) => {
            let m = b.substring_char(0, i);
            let x = b.substring_char(i + 1, bn);
            let xn = char_len(x);
            let xs: usize = if xn > 0 && (x.get_char(0) == '+' || x.get_char(0) == '-') { 1 } else { 0 };
            assert(xs as int == sign_len(x@));
            unsigned_str(m) && xn > xs && digits_in(x, xs, xn)
        },
    }
}

/// A parsed number: its kind (0 finite, 1 infinite, 2 not a number), sign,
/// magnitude digits and exponent.
pub struct ParsedNum {
    pub kind: u8,
    pub neg: bool,
    pub digits: Vec<char>,
    pub exp: i128,
}

/// The value that a parsed number stands for.
pub open spec fn parsed_view(p: ParsedNum) -> NumV {
    if p.kind == 0 {
        NumV::Finite(p.neg, digits_val(p.digits@), p.exp as int)
    } else if p.kind == 1 {
        NumV::Inf(p.neg)
    } else {
        NumV::NaN
    }
}

/// Copy `s[from..to]` onto the end of `v`.
fn push_range(v: &mut Vec<char>, s: &str, from: usize, to: usize)
    requires
        from <= to <= s@.len(),
    ensures
        final(v)@ == old(v)@ + s@.subrange(from as int, to as int),
{
    let ghost v0 = v@;
    let mut i = from;
    while i < to
        invariant
            from <= i <= to <= s@.len(),
            v@ == v0 + s@.subrange(from as int, i as int),
        decreases to - i,
    {
        v.push(s.get_char(i));
        assert(v@ =~= v0 + s@.subrange(from as int, i + 1));
        i += 1;
    }
}

/// The value of a number's text.
pub fn parse_num(s: &str) -> (r: Option<ParsedNum>)
    ensures
        r is None ==> num_of(s@) is None,
        r matches Some(p) ==> num_of(s@) == Some(parsed_view(p)) && all_digits(p.digits@) && p.kind <= 2
            && -0x4000_0000_0000_0000_0000i128 < p.exp < 0x4000_0000_0000_0000_0000i128,
{
    let n = char_len(s);
    let neg = n > 0 && s.get_char(0) == '-';
    let (b, ie) = magnitude(s);
    let sp = special_of(b);
    if sp != 0 {
        return Some(ParsedNum { kind: sp, neg, digits: Vec::new(), exp: 0 });
    }
    if !is_number_str(s) {
        return None;
    }
    let bn = char_len(b);
    let m = match ie {
        Some(i) => b.substring_char(0, i),
        None => b,
    };
    assert(m@ == mantissa(b@));
    let mn = char_len(m);
    let mut digits: Vec<char> = Vec::new();
    let frac: usize = match find_char_from(m, mn, '.', 0) {
        Some(p) => {
            push_range(&mut digits, m, 0, p);
            push_range(&mut digits, m, p + 1, mn);
            mn - p - 1
        },
        None => {
            push_range(&mut digits, m, 0, mn);
            assert(m@.subrange(0, mn as int) =~= m@);
            0
        },
    };
    assert(digits@ =~= mant_digits(m@));
    assert(all_digits(digits@)) by {
        assert forall|i: int| 0 <= i < digits@.len() implies #[trigger] is_digit(digits@[i]) by {
            match find_char(m@, '.', 0) {
                Some(p) => {
                    if i < p {
                        assert(is_digit(m@.subrange(0, p)[i]));
                    } else {
                        assert(is_digit(m@.subrange(p + 1, m@.len() as int)[i - p]));
                    }
                },
                None => {
                    assert(m@.subrange(0, m@.len() as int) =~= m@);
                    assert(is_digit(m@[i]));
                },
            }
        }
    }
    let mut e: i128 = 0;
    match ie {
        Some(i) => {
            let x = b.substring_char(i + 1, bn);
            let xn = char_len(x);
            let xs: usize = if xn > 0 && (x.get_char(0) == '+' || x.get_char(0) == '-') { 1 } else { 0 };
            assert(xs as int == sign_len(x@));
            assert(x@ == exp_text(b@));
            if xn - xs > 15 {
                return None;
            }
            let ghost ds = x@.subrange(xs as int, xn as int);
            proof {
                lemma_val_bounds(ds);
                lemma_pow10_mono(ds.len(), 15);
                reveal_with_fuel(pow10, 16);
            }
            let mut acc: i128 = 0;
            let mut k: usize = xs;
            while k < xn
                invariant
                    xs <= k <= xn,
                    xn - xs <= 15,
                    xn == x@.len(),
                    ds == x@.subrange(xs as int, xn as int),
                    all_digits(ds),
                    acc as int == digits_val(ds.subrange(0, k - xs)),
                    0 <= acc < 1_000_000_000_000_000,
                    pow10(15) == 1_000_000_000_000_000,
                decreases xn - k,
            {
                let c = x.get_char(k);
                assert(c == ds[k - xs]);
                assert(is_digit(ds[k - xs]));
                proof {
                    lemma_digits_step(ds, k - xs);
                    let pre = ds.subrange(0, k + 1 - xs);
                    assert forall|q: int| 0 <= q < pre.len() implies #[trigger] is_digit(pre[q]) by {
                        assert(is_digit(ds[q]));
                    }
                    lemma_val_bounds(pre);
                    lemma_pow10_mono(pre.len(), 15);
                }
                acc = acc * 10 + (c as u32 - '0' as u32) as i128;
                k += 1;
            }
            assert(ds.subrange(0, xn - xs) =~= ds);
            e = if xs == 1 && x.get_char(0) == '-' { -acc } else { acc };
        },
        None => {},
    }
    assert(e as int == exp_value(b@));
    let k = e - frac as i128;
    Some(ParsedNum { kind: 0, neg, digits, exp: k })
}

/// The digits without their leading zeros.
fn strip_zeros(d: &Vec<char>) -> (r: Vec<char>)
    requires
        all_digits(d@),
    ensures
        all_digits(r@),
        digits_val(r@) == digits_val(d@),
        r@.len() == 0 || r@[0] != '0',
        r@.len() <= d@.len(),
{
    let mut f: usize = 0;
    while f < d.len() && d[f] == '0'
        invariant
            f <= d.len(),
            forall|i: int| 0 <= i < f ==> d@[i] == '0',
        decreases d.len() - f,
    {
        f += 1;
    }
    let mut r: Vec<char> = Vec::new();
    let mut i = f;
    while i < d.len()
        invariant
            f <= i <= d.len(),
            r@ == d@.subrange(f as int, i as int),
        decreases d.len() - i,
    {
        r.push(d[i]);
        assert(r@ =~= d@.subrange(f as int, i + 1));
        i += 1;
    }
    proof {
        lemma_leading_zeros(d@, f as int);
        assert(r@ =~= d@.subrange(f as int, d@.len() as int));
        assert forall|q: int| 0 <= q < r@.len() implies #[trigger] is_digit(r@[q]) by {
            assert(r@[q] == d@[f + q]);
            assert(is_digit(d@[f + q]));
        }
    }
    r
}

/// `d` with `z` zeros after it.
fn padded(d: &Vec<char>, z: usize) -> (r: Vec<char>)
    ensures
        r@ == d@ + Seq::new(z as nat, |_i: int| '0'),
{
    let mut r = d.clone();
    proof {
        assert(r@ =~= d@) by {
            assert forall|i: int| 0 <= i < d@.len() implies r@[i] == d@[i] by {}
        }
    }
    let mut i: usize = 0;
    while i < z
        invariant
            i <= z,
            r@ == d@ + Seq::new(i as nat, |_i: int| '0'),
        decreases z - i,
    {
        r.push('0');
        assert(r@ =~= d@ + Seq::new((i + 1) as nat, |_i: int| '0'));
        i += 1;
    }
    r
}

/// How two digit strings of one length compare in value.
fn digits_cmp(a: &Vec<char>, b: &Vec<char>) -> (r: i8)
    requires
        a@.len() == b@.len(),
        all_digits(a@),
        all_digits(b@),
    ensures
        r as int == sign_of(digits_val(a@) - digits_val(b@)),
{
    let mut r: i8 = 0;
    let mut i: usize = 0;
    while i < a.len()
        invariant
            i <= a@.len() == b@.len(),
            all_digits(a@),
            all_digits(b@),
            r as int == sign_of(digits_val(a@.subrange(0, i as int)) - digits_val(b@.subrange(0, i as int))),
        decreases a.len() - i,
    {
        proof {
            lemma_digits_step(a@, i as int);
            lemma_digits_step(b@, i as int);
            assert(is_digit(a@[i as int]));
            assert(is_digit(b@[i as int]));
        }
        if r == 0 {
            if a[i] < b[i] {
                r = -1;
            } else if a[i] > b[i] {
                r = 1;
            }
        }
        i += 1;
    }
    assert(a@.subrange(0, a@.len() as int) =~= a@);
    assert(b@.subrange(0, b@.len() as int) =~= b@);
    r
}

/// How `a·10^ka` compares with `b·10^kb`, for digits without leading zeros.
fn magnitude_cmp(a: &Vec<char>, ka: i128, b: &Vec<char>, kb: i128) -> (r: i8)
    requires
        all_digits(a@),
        all_digits(b@),
        -0x4000_0000_0000_0000_0000i128 < ka < 0x4000_0000_0000_0000_0000i128,
        -0x4000_0000_0000_0000_0000i128 < kb < 0x4000_0000_0000_0000_0000i128,
        a@.len() == 0 || a@[0] != '0',
        b@.len() == 0 || b@[0] != '0',
    ensures
        ({
            let base = if ka < kb { ka as int } else { kb as int };
            r as int == sign_of(
                digits_val(a@) * pow10((ka - base) as nat) - digits_val(b@) * pow10((kb - base) as nat),
            )
        }),
{
    let ghost base = if ka < kb { ka as int } else { kb as int };
    let ghost pa = pow10((ka - base) as nat);
    let ghost pb = pow10((kb - base) as nat);
    let ghost va = digits_val(a@);
    let ghost vb = digits_val(b@);
    proof {
        lemma_val_bounds(a@);
        lemma_val_bounds(b@);
        if a@.len() > 0 {
            lemma_pow10_pos((a@.len() - 1) as nat);
        }
        if b@.len() > 0 {
            lemma_pow10_pos((b@.len() - 1) as nat);
        }
        lemma_pow10_pos((ka - base) as nat);
        lemma_pow10_pos((kb - base) as nat);
        assert(va * pa >= 0) by (nonlinear_arith)
            requires
                va >= 0,
                pa >= 1,
        ;
        assert(vb * pb >= 0) by (nonlinear_arith)
            requires
                vb >= 0,
                pb >= 1,
        ;
    }
    let la = a.len();
    let lb = b.len();
    if la == 0 && lb == 0 {
        assert(a@ =~= Seq::<char>::empty());
        assert(b@ =~= Seq::<char>::empty());
        return 0;
    }
    if la == 0 {
        assert(a@ =~= Seq::<char>::empty());
        assert(vb * pb >= 1) by (nonlinear_arith)
            requires
                vb >= 1,
                pb >= 1,
        ;
        return -1;
    }
    if lb == 0 {
        assert(b@ =~= Seq::<char>::empty());
        assert(va * pa >= 1) by (nonlinear_arith)
            requires
                va >= 1,
                pa >= 1,
        ;
        return 1;
    }
    let ta = la as i128 + ka;
    let tb = lb as i128 + kb;
    if ta != tb {
        proof {
            // The side whose leading digit stands higher is larger.
            let (vh, ph, lh, kh, vl, pl, ll, kl) = if ta > tb {
                (va, pa, la as int, ka as int, vb, pb, lb as int, kb as int)
            } else {
                (vb, pb, lb as int, kb as int, va, pa, la as int, ka as int)
            };
            lemma_pow10_add((lh - 1) as nat, (kh - base) as nat);
            lemma_pow10_add(ll as nat, (kl - base) as nat);
            lemma_pow10_mono((ll + kl - base) as nat, (lh - 1 + kh - base) as nat);
            assert(vh * ph >= pow10((lh - 1) as nat) * ph) by (nonlinear_arith)
                requires
                    vh >= pow10((lh - 1) as nat),
                    ph >= 1,
            ;
            assert(vl * pl < pow10(ll as nat) * pl) by (nonlinear_arith)
                requires
                    vl < pow10(ll as nat),
                    pl >= 1,
            ;
        }
        return if ta > tb { 1 } else { -1 };
    }
    let n = if la > lb { la } else { lb };
    let pa_v = padded(a, n - la);
    let pb_v = padded(b, n - lb);
    proof {
        lemma_pad(a@, (n - la) as nat);
        lemma_pad(b@, (n - lb) as nat);
        assert(ka - base == n - la);
        assert(kb - base == n - lb);
        assert forall|q: int| 0 <= q < pa_v@.len() implies #[trigger] is_digit(pa_v@[q]) by {
            if q < la {
                assert(is_digit(a@[q]));
            }
        }
        assert forall|q: int| 0 <= q < pb_v@.len() implies #[trigger] is_digit(pb_v@[q]) by {
            if q < lb {
                assert(is_digit(b@[q]));
            }
        }
    }
    digits_cmp(&pa_v, &pb_v)
}

/// How two numbers compare; `None` where one is not a number.
pub fn num_compare(x: &ParsedNum, y: &ParsedNum) -> (r: Option<i8>)
    requires
        all_digits(x.digits@),
        all_digits(y.digits@),
        x.kind <= 2,
        y.kind <= 2,
        -0x4000_0000_0000_0000_0000i128 < x.exp < 0x4000_0000_0000_0000_0000i128,
        -0x4000_0000_0000_0000_0000i128 < y.exp < 0x4000_0000_0000_0000_0000i128,
    ensures
        r matches Some(c) ==> num_cmp(parsed_view(*x), parsed_view(*y)) == Some(c as int),
        r is None ==> num_cmp(parsed_view(*x), parsed_view(*y)) is None,
{
    if x.kind == 2 || y.kind == 2 {
        return None;
    }
    if x.kind == 1 && y.kind == 1 {
        return Some(if x.neg == y.neg { 0 } else if x.neg { -1 } else { 1 });
    }
    if x.kind == 1 {
        return Some(if x.neg { -1 } else { 1 });
    }
    if y.kind == 1 {
        return Some(if y.neg { 1 } else { -1 });
    }
    let a = strip_zeros(&x.digits);
    let b = strip_zeros(&y.digits);
    let c = magnitude_cmp(&a, x.exp, &b, y.exp);
    let ghost base = if x.exp < y.exp { x.exp as int } else { y.exp as int };
    let ghost ma = digits_val(a@) * pow10((x.exp - base) as nat);
    let ghost mb = digits_val(b@) * pow10((y.exp - base) as nat);
    proof {
        lemma_val_bounds(a@);
        lemma_val_bounds(b@);
        if a@.len() > 0 {
            lemma_pow10_pos((a@.len() - 1) as nat);
        }
        if b@.len() > 0 {
            lemma_pow10_pos((b@.len() - 1) as nat);
        }
        lemma_pow10_pos((x.exp - base) as nat);
        lemma_pow10_pos((y.exp - base) as nat);
        assert(ma >= 0 && mb >= 0) by (nonlinear_arith)
            requires
                ma == digits_val(a@) * pow10((x.exp - base) as nat),
                mb == digits_val(b@) * pow10((y.exp - base) as nat),
                digits_val(a@) >= 0,
                digits_val(b@) >= 0,
                pow10((x.exp - base) as nat) >= 1,
                pow10((y.exp - base) as nat) >= 1,
        ;
    }
    let za = a.len() == 0;
    let zb = b.len() == 0;
    if za {
        assert(a@ =~= Seq::<char>::empty());
    }
    if zb {
        assert(b@ =~= Seq::<char>::empty());
    }
    let r: i8 = if x.neg == y.neg {
        if x.neg { -c } else { c }
    } else if za && zb {
        0
    } else if x.neg {
        -1
    } else {
        1
    };
    proof {
        if !za {
            lemma_pow10_pos((x.exp - base) as nat);
            assert(ma >= 1) by (nonlinear_arith)
                requires
                    ma == digits_val(a@) * pow10((x.exp - base) as nat),
                    digits_val(a@) >= 1,
                    pow10((x.exp - base) as nat) >= 1,
            ;
        }
        if !zb {
            assert(mb >= 1) by (nonlinear_arith)
                requires
                    mb == digits_val(b@) * pow10((y.exp - base) as nat),
                    digits_val(b@) >= 1,
                    pow10((y.exp - base) as nat) >= 1,
            ;
        }
    }
    Some(r)
}

} // verus!
