//! Contact filters: SQL SELECT-like queries over the fields of a contact.
//!
//! A query reads `FieldList [WHERE Condition]`. The field list names the
//! fields to show; the condition is a tree of comparisons, function clauses,
//! parenthesized groups and `AND`/`OR` combinations. Keywords are matched
//! without regard to ASCII case.
use vstd::prelude::*;

use crate::either::Either;
use crate::number::{is_number, is_number_str};
use crate::record::str_eq;
use crate::lexical::{
    char_len, ci_eq, find_char, find_char_from, get_inner_expression, is_quote, is_quoted,
    is_quoted_spec, keyword_at, kw_at, parenthesized, sub_string, trim,
    closing_paren, depth, lemma_rskip_ws_bounds, lemma_skip_ws_bounds, split_on, split_str,
    trim_end, trim_end_str, trim_start, trim_start_str, trim_str,
};

verus! {

/// Supported operators on filters.
#[derive(Clone, Copy, Debug, PartialEq, Eq, Structural)]
pub enum FilterOp {
    EqualTo,
    LessThan,
    LessEq,
    GreaterThan,
    GreaterEq,
    Not,
}

/// Errors of the function sublanguage (`REF`, `SPLIT`, `REGEX`).
#[derive(Clone, Copy, Debug, PartialEq, Eq, Structural)]
pub enum FunctionParseError {
    InvalidArguments,
    MissingClosingParenthesis,
    NoVariableAssignment,
    InvalidOperator(FilterOp),
    UnknownFunction,
}

/// Errors met while parsing a condition.
#[derive(Clone, Copy, Debug, PartialEq, Eq, Structural)]
pub enum ConditionConversionError {
    /// A parenthesis never closes.
    MismatchedParenthesis,
    /// A field name or field list lacks its closing delimiter.
    Invalid,
    /// The operator token is not one of `=`, `<`, `<=`, `>`, `>=`, `NOT`.
    UnknownOperator,
    /// No operator follows the field name.
    MissingOperator,
    /// A field name is required but the text is empty.
    MissingField,
    /// A field name holds a reserved word or a quotation mark.
    InvalidFieldName,
    /// An ordering operator is used with a quoted (string) value.
    BadComparison,
    /// The value is neither quoted, a number, nor `EMPTY`.
    UnquotedString,
    Function(FunctionParseError),
}

/// Errors met while parsing a whole query.
#[derive(Clone, Copy, Debug, PartialEq, Eq, Structural)]
pub enum QueryConversionError {
    /// A field list is followed by something other than `WHERE`.
    MissingWhere,
    Condition(ConditionConversionError),
}

/// The text of an operator.
pub open spec fn op_text(op: FilterOp) -> Seq<char> {
    match op {
        FilterOp::EqualTo => seq!['='],
        FilterOp::LessThan => seq!['<'],
        FilterOp::LessEq => seq!['<', '='],
        FilterOp::GreaterThan => seq!['>'],
        FilterOp::GreaterEq => seq!['>', '='],
        FilterOp::Not => seq!['N', 'O', 'T'],
    }
}

/// The operator whose text is exactly `s`.
pub open spec fn parse_op_spec(s: Seq<char>) -> Option<FilterOp> {
    if s.len() == 1 && s[0] == '=' {
        Some(FilterOp::EqualTo)
    } else if s.len() == 1 && s[0] == '<' {
        Some(FilterOp::LessThan)
    } else if s.len() == 2 && s[0] == '<' && s[1] == '=' {
        Some(FilterOp::LessEq)
    } else if s.len() == 1 && s[0] == '>' {
        Some(FilterOp::GreaterThan)
    } else if s.len() == 2 && s[0] == '>' && s[1] == '=' {
        Some(FilterOp::GreaterEq)
    } else if s.len() == 3 && s[0] == 'N' && s[1] == 'O' && s[2] == 'T' {
        Some(FilterOp::Not)
    } else {
        None
    }
}

/// Parsing an operator's text gives the operator back.
pub proof fn lemma_op_round_trip(op: FilterOp)
    ensures
        parse_op_spec(op_text(op)) == Some(op),
{
}

impl Default for FilterOp {
    fn default() -> (r: Self)
        ensures
            r == FilterOp::EqualTo,
    {
        FilterOp::EqualTo
    }
}

impl FilterOp {
    /// Parse an operator token: one of `=`, `<`, `<=`, `>`, `>=`, `NOT`.
    pub fn parse(s: &str) -> (r: Result<FilterOp, ConditionConversionError>)
        ensures
            r == (match parse_op_spec(s@) {
                Some(op) => Ok(op),
                None => Err(ConditionConversionError::UnknownOperator),
            }),
    {
        let n = char_len(s);
        if n == 1 {
            let c = s.get_char(0);
            if c == '=' {
                return Ok(FilterOp::EqualTo);
            } else if c == '<' {
                return Ok(FilterOp::LessThan);
            } else if c == '>' {
                return Ok(FilterOp::GreaterThan);
            }
        } else if n == 2 {
            let c = s.get_char(0);
            let d = s.get_char(1);
            if c == '<' && d == '=' {
                return Ok(FilterOp::LessEq);
            } else if c == '>' && d == '=' {
                return Ok(FilterOp::GreaterEq);
            }
        } else if n == 3 {
            if s.get_char(0) == 'N' && s.get_char(1) == 'O' && s.get_char(2) == 'T' {
                return Ok(FilterOp::Not);
            }
        }
        Err(ConditionConversionError::UnknownOperator)
    }

    /// The operator's text, the inverse of [FilterOp::parse].
    pub fn to_string(&self) -> (r: String)
        ensures
            r@ == op_text(*self),
    {
        let r = match self {
            FilterOp::EqualTo => {
                proof {
                    reveal_strlit("=");
                }
                String::from_str("=")
            },
            FilterOp::LessThan => {
                proof {
                    reveal_strlit("<");
                }
                String::from_str("<")
            },
            FilterOp::LessEq => {
                proof {
                    reveal_strlit("<=");
                }
                String::from_str("<=")
            },
            FilterOp::GreaterThan => {
                proof {
                    reveal_strlit(">");
                }
                String::from_str(">")
            },
            FilterOp::GreaterEq => {
                proof {
                    reveal_strlit(">=");
                }
                String::from_str(">=")
            },
            FilterOp::Not => {
                proof {
                    reveal_strlit("NOT");
                }
                String::from_str("NOT")
            },
        };
        assert(r@ =~= op_text(*self));
        r
    }
}

impl std::str::FromStr for FilterOp {
    type Err = ConditionConversionError;

    fn from_str(s: &str) -> (r: Result<FilterOp, ConditionConversionError>)
        ensures
            r == (match parse_op_spec(s@) {
                Some(op) => Ok(op),
                None => Err(ConditionConversionError::UnknownOperator),
            }),
    {
        FilterOp::parse(s)
    }
}

pub open spec fn kw_where() -> Seq<char> {
    seq![' ', 'W', 'H', 'E', 'R', 'E', ' ']
}

pub open spec fn kw_and() -> Seq<char> {
    seq![' ', 'A', 'N', 'D', ' ']
}

pub open spec fn kw_or() -> Seq<char> {
    seq![' ', 'O', 'R', ' ']
}

/// A reserved word or a quotation mark begins at position `k` of a field name.
pub open spec fn reserved_at(f: Seq<char>, k: int) -> bool {
    kw_at(f, k, kw_where()) || kw_at(f, k, kw_and()) || kw_at(f, k, kw_or()) || is_quote(f[k])
}

/// A field name may not hold " WHERE ", " AND ", " OR " (in any case) nor a
/// quotation mark: the parser could not tell them from the query's syntax.
pub open spec fn field_valid(f: Seq<char>) -> bool {
    forall|k: int| 0 <= k < f.len() ==> !#[trigger] reserved_at(f, k)
}

/// Check whether the specified field name is valid.
pub fn field_name_is_valid(field: &str) -> (r: bool)
    ensures
        r == field_valid(field@),
{
    let kw_w: [char; 7] = [' ', 'W', 'H', 'E', 'R', 'E', ' '];
    let kw_a: [char; 5] = [' ', 'A', 'N', 'D', ' '];
    let kw_o: [char; 4] = [' ', 'O', 'R', ' '];
    assert(kw_w@ =~= kw_where());
    assert(kw_a@ =~= kw_and());
    assert(kw_o@ =~= kw_or());
    let n = char_len(field);
    let mut k: usize = 0;
    while k < n
        invariant
            n == field@.len(),
            k <= n,
            kw_w@ == kw_where(),
            kw_a@ == kw_and(),
            kw_o@ == kw_or(),
            forall|j: int| 0 <= j < k ==> !#[trigger] reserved_at(field@, j),
        decreases n - k,
    {
        let c = field.get_char(k);
        if keyword_at(field, n, k, &kw_w) || keyword_at(field, n, k, &kw_a) || keyword_at(
            field,
            n,
            k,
            &kw_o,
        ) || c == '\'' || c == '"' {
            assert(reserved_at(field@, k as int));
            return false;
        }
        k += 1;
    }
    true
}

/// What reading one field name gives: the characters consumed and the name.
///
/// A name in quotes runs to the closing quote, which is
/// consumed; a bare name runs to the next space.
pub open spec fn read_field_spec(s: Seq<char>) -> Result<(int, Seq<char>), ConditionConversionError> {
    if s.len() == 0 {
        Err(ConditionConversionError::MissingField)
    } else {
        let c = s[0];
        let start: int = if c == '\'' || c == '"' { 1 } else { 0 };
        let end_c = if c == '\'' || c == '"' { c } else { ' ' };
        match find_char(s, end_c, 1) {
            None => Err(ConditionConversionError::Invalid),
            Some(i) => if field_valid(s.subrange(start, i)) {
                Ok((i + start, s.subrange(start, i)))
            } else {
                Err(ConditionConversionError::InvalidFieldName)
            },
        }
    }
}

pub proof fn lemma_find_char_bounds(s: Seq<char>, c: char, i: int)
    ensures
        find_char(s, c, i) matches Some(k) ==> i <= k < s.len() && s[k] == c,
    decreases s.len() - i,
{
    if 0 <= i < s.len() && s[i] != c {
        lemma_find_char_bounds(s, c, i + 1);
    }
}

/// Read a single field from the input string.
///
/// Returns the number of characters read and the field name.
pub fn read_field(s: &str) -> (r: Result<(usize, String), ConditionConversionError>)
    ensures
        r matches Ok((k, f)) ==> read_field_spec(s@) == Ok::<(int, Seq<char>), ConditionConversionError>((k as int, f@)),
        r matches Err(e) ==> read_field_spec(s@) == Err::<(int, Seq<char>), ConditionConversionError>(e),
{
    let n = char_len(s);
    if n == 0 {
        return Err(ConditionConversionError::MissingField);
    }
    let c = s.get_char(0);
    let start: usize = if c == '\'' || c == '"' { 1 } else { 0 };
    let end_c = if c == '\'' || c == '"' { c } else { ' ' };
    match find_char_from(s, n, end_c, 1) {
        None => Err(ConditionConversionError::Invalid),
        Some(i) => {
            let field = sub_string(s, start, i);
            if field_name_is_valid(field.as_str()) {
                Ok((i + start, field))
            } else {
                Err(ConditionConversionError::InvalidFieldName)
            }
        },
    }
}

/// Every name of the list is a valid field name.
pub open spec fn all_valid(parts: Seq<Seq<char>>) -> bool {
    forall|k: int| 0 <= k < parts.len() ==> field_valid(#[trigger] parts[k])
}

/// Split `t` on `c` and check each piece as a field name.
///
/// Returns the pieces and whether all of them are valid names.
pub fn split_fields(t: &str, c: char) -> (r: (Vec<String>, bool))
    ensures
        r.0.deep_view() == split_on(t@, c),
        r.1 == all_valid(r.0.deep_view()),
{
    let out = split_str(t, c);
    let mut k: usize = 0;
    while k < out.len()
        invariant
            k <= out.len(),
            out.deep_view() == split_on(t@, c),
            out.deep_view().len() == out.len(),
            forall|j: int| 0 <= j < k ==> field_valid(#[trigger] out.deep_view()[j]),
        decreases out.len() - k,
    {
        assert(out.deep_view()[k as int] == out[k as int]@);
        if !field_name_is_valid(out[k].as_str()) {
            return (out, false);
        }
        k += 1;
    }
    (out, true)
}

/// What reading a field list gives: the characters consumed and the names.
///
/// A list in quotes runs to the closing quote, which is consumed; a bare list
/// runs to the next space or to the end. Empty input gives an empty list.
pub open spec fn read_fields_spec(s: Seq<char>) -> Result<(int, Seq<Seq<char>>), ConditionConversionError> {
    if s.len() == 0 {
        Ok((0, seq![]))
    } else {
        let c = s[0];
        let start: int = if is_quote(c) { 1 } else { 0 };
        let end_c = if is_quote(c) { c } else { ' ' };
        let end = match find_char(s, end_c, 1) {
            Some(i) => Some(i),
            None => if end_c == ' ' { Some(s.len() as int) } else { None },
        };
        match end {
            None => Err(ConditionConversionError::Invalid),
            Some(i) => {
                let parts = split_on(s.subrange(start, i), ',');
                if all_valid(parts) {
                    Ok((i + start, parts))
                } else {
                    Err(ConditionConversionError::InvalidFieldName)
                }
            },
        }
    }
}

/// Read a list of fields from the input string.
///
/// Returns the number of characters read and the list of fields.
pub fn read_fields(s: &str) -> (r: Result<(usize, Vec<String>), ConditionConversionError>)
    ensures
        r matches Ok((k, v)) ==> read_fields_spec(s@) == Ok::<(int, Seq<Seq<char>>), ConditionConversionError>((k as int, v.deep_view())),
        r matches Err(e) ==> read_fields_spec(s@) == Err::<(int, Seq<Seq<char>>), ConditionConversionError>(e),
{
    let n = char_len(s);
    if n == 0 {
        let v: Vec<String> = Vec::new();
        assert(v.deep_view() =~= Seq::<Seq<char>>::empty());
        return Ok((0, v));
    }
    let c = s.get_char(0);
    let quoted = c == '\'' || c == '"';
    let start: usize = if quoted { 1 } else { 0 };
    let end_c = if quoted { c } else { ' ' };
    let end = match find_char_from(s, n, end_c, 1) {
        Some(i) => i,
        None => {
            if end_c == ' ' {
                n
            } else {
                return Err(ConditionConversionError::Invalid);
            }
        },
    };
    let inner = s.substring_char(start, end);
    let (fields, valid) = split_fields(inner, ',');
    if valid {
        Ok((end + start, fields))
    } else {
        Err(ConditionConversionError::InvalidFieldName)
    }
}

pub proof fn lemma_find_char_skip(s: Seq<char>, c: char, i: int, j: int)
    requires
        0 <= i <= j < s.len(),
        s[j] == c,
        forall|k: int| i <= k < j ==> s[k] != c,
    ensures
        find_char(s, c, i) == Some(j),
    decreases j - i,
{
    if i < j {
        lemma_find_char_skip(s, c, i + 1, j);
    }
}

/// A field list in quotes, `'A,B,C'`, reads as the names between its commas,
/// and exactly the quoted span is consumed, whatever follows it.
pub proof fn lemma_quoted_fields(q: char, body: Seq<char>, rest: Seq<char>)
    requires
        is_quote(q),
        !body.contains(q),
        all_valid(split_on(body, ',')),
    ensures
        read_fields_spec(seq![q] + body + seq![q] + rest) == Ok::<(int, Seq<Seq<char>>), ConditionConversionError>(
            (body.len() + 2int, split_on(body, ',')),
        ),
{
    let s = seq![q] + body + seq![q] + rest;
    let j: int = body.len() as int + 1;
    assert(s[j] == q);
    assert forall|k: int| 1 <= k < j implies s[k] != q by {
        assert(s[k] == body[k - 1]);
    }
    lemma_find_char_skip(s, q, 1, j);
    assert(s.subrange(1, j) =~= body);
}

/// What reading an operator gives: the operator token runs to the next space.
pub open spec fn read_op_spec(s: Seq<char>) -> Result<(int, FilterOp), ConditionConversionError> {
    match find_char(s, ' ', 0) {
        Some(i) => match parse_op_spec(s.subrange(0, i)) {
            Some(op) => Ok((i, op)),
            None => Err(ConditionConversionError::UnknownOperator),
        },
        None => Err(ConditionConversionError::MissingOperator),
    }
}

/// Read a filter operator from the input string.
///
/// Returns the number of characters read and the operator.
pub fn read_op(s: &str) -> (r: Result<(usize, FilterOp), ConditionConversionError>)
    ensures
        r matches Ok((k, op)) ==> read_op_spec(s@) == Ok::<(int, FilterOp), ConditionConversionError>((k as int, op)),
        r matches Err(e) ==> read_op_spec(s@) == Err::<(int, FilterOp), ConditionConversionError>(e),
{
    let n = char_len(s);
    match find_char_from(s, n, ' ', 0) {
        Some(i) => {
            let op = FilterOp::parse(s.substring_char(0, i))?;
            Ok((i, op))
        },
        None => Err(ConditionConversionError::MissingOperator),
    }
}

/// Supported functions in queries.
#[derive(Debug)]
pub enum Function {
    /// Look up the value of the included field as a subcontact for the query:
    /// the variable, and a field name or a `SPLIT` of one.
    Ref(String, Either<String, Box<Function>>),
    /// Split the value of the included field by the specified character and
    /// treat each piece as an individual value: the variable, the field and
    /// the separator.
    Split(String, String, char),
    /// Match the given field's value against the provided regular expression.
    Regex(String, String),
}

/// The mathematical form of a [Function].
pub enum FunctionV {
    Ref(Seq<char>, Seq<char>),
    RefOf(Seq<char>, Box<FunctionV>),
    Split(Seq<char>, Seq<char>, char),
    Regex(Seq<char>, Seq<char>),
}

impl View for Function {
    type V = FunctionV;

    open spec fn view(&self) -> FunctionV
        decreases self,
    {
        match self {
            Function::Ref(v, Either::Left(f)) => FunctionV::Ref(v@, f@),
            Function::Ref(v, Either::Right(b)) => FunctionV::RefOf(v@, Box::new((**b)@)),
            Function::Split(v, f, c) => FunctionV::Split(v@, f@, *c),
            Function::Regex(f, p) => FunctionV::Regex(f@, p@),
        }
    }
}

/// The parsed condition of a query: its abstract syntax tree.
#[derive(Debug, PartialEq, Eq)]
pub enum Condition {
    /// Unfiltered: every record matches.
    All,
    /// Field, operator, value.
    Filter(String, FilterOp, String),
    Function(Function),
    /// Logical and of the contained conditions.
    And(Box<(Condition, Condition)>),
    /// Logical or of the contained conditions.
    Or(Box<(Condition, Condition)>),
}

/// The mathematical form of a [Condition].
pub enum CondV {
    All,
    Filter(Seq<char>, FilterOp, Seq<char>),
    Function(FunctionV),
    And(Box<CondV>, Box<CondV>),
    Or(Box<CondV>, Box<CondV>),
}

impl View for Condition {
    type V = CondV;

    open spec fn view(&self) -> CondV
        decreases self,
    {
        match self {
            Condition::All => CondV::All,
            Condition::Filter(f, op, v) => CondV::Filter(f@, *op, v@),
            Condition::Function(func) => CondV::Function(func@),
            Condition::And(b) => CondV::And(Box::new(b.0@), Box::new(b.1@)),
            Condition::Or(b) => CondV::Or(Box::new(b.0@), Box::new(b.1@)),
        }
    }
}

impl Clone for Condition {
    fn clone(&self) -> (r: Condition)
        ensures
            r@ == self@,
        decreases self,
    {
        match self {
            Condition::All => Condition::All,
            Condition::Filter(f, op, v) => Condition::Filter(f.clone(), *op, v.clone()),
            Condition::Function(func) => Condition::Function(func.clone()),
            Condition::And(b) => Condition::And(Box::new((b.0.clone(), b.1.clone()))),
            Condition::Or(b) => Condition::Or(Box::new((b.0.clone(), b.1.clone()))),
        }
    }
}

impl Default for Condition {
    fn default() -> (r: Self)
        ensures
            r@ == CondV::All,
    {
        Condition::All
    }
}

pub open spec fn regex_kw() -> Seq<char> {
    seq!['R', 'E', 'G', 'E', 'X', '(']
}

pub open spec fn ref_kw() -> Seq<char> {
    seq!['R', 'E', 'F', '(']
}

pub open spec fn split_kw() -> Seq<char> {
    seq!['S', 'P', 'L', 'I', 'T', '(']
}

/// What parsing the arguments of `SPLIT(field, 'c')` gives: the field runs to
/// the first comma, and the separator is one character in quotes.
pub open spec fn parse_split_spec(s: Seq<char>, var: Seq<char>) -> Result<FunctionV, FunctionParseError> {
    match find_char(s, ',', 0) {
        None => Err(FunctionParseError::InvalidArguments),
        Some(i) => {
            let field = s.subrange(0, i);
            let sp = trim_start(s.subrange(i + 1, s.len() as int));
            if field_valid(field) && sp.len() == 3 && is_quote(sp[0]) && sp[2] == sp[0] {
                Ok(FunctionV::Split(var, field, sp[1]))
            } else {
                Err(FunctionParseError::InvalidArguments)
            }
        },
    }
}

/// Parse the arguments of a `SPLIT` function, binding `var`.
pub fn parse_split_function(s: &str, var: String) -> (r: Result<Function, FunctionParseError>)
    ensures
        r matches Ok(f) ==> parse_split_spec(s@, var@) == Ok::<FunctionV, FunctionParseError>(f@),
        r matches Err(e) ==> parse_split_spec(s@, var@) == Err::<FunctionV, FunctionParseError>(e),
{
    let n = char_len(s);
    match find_char_from(s, n, ',', 0) {
        None => Err(FunctionParseError::InvalidArguments),
        Some(i) => {
            let field = s.substring_char(0, i);
            let sp = trim_start_str(s.substring_char(i + 1, n));
            if field_name_is_valid(field) && char_len(sp) == 3 {
                let q = sp.get_char(0);
                let c = sp.get_char(1);
                if (q == '\'' || q == '"') && sp.get_char(2) == q {
                    return Ok(Function::Split(var, String::from_str(field), c));
                }
            }
            Err(FunctionParseError::InvalidArguments)
        },
    }
}

/// First position at or after `i` that holds a space or `=`.
pub open spec fn find_var_end(s: Seq<char>, i: int) -> Option<int>
    decreases s.len() - i,
{
    if i < 0 || i >= s.len() {
        None
    } else if s[i] == ' ' || s[i] == '=' {
        Some(i)
    } else {
        find_var_end(s, i + 1)
    }
}

/// What reading a variable name gives: the name runs to the first space or
/// `=`, which is consumed too.
pub open spec fn read_variable_spec(s: Seq<char>) -> Option<(int, Seq<char>)> {
    match find_var_end(s, 0) {
        Some(i) => Some((i + 1, trim(s.subrange(0, i)))),
        None => None,
    }
}

/// Read the variable that a function's result is assigned to.
pub fn read_variable(s: &str) -> (r: Option<(usize, String)>)
    ensures
        r matches Some((k, v)) ==> read_variable_spec(s@) == Some((k as int, v@)) && k <= s@.len(),
        r is None ==> read_variable_spec(s@) is None,
{
    let n = char_len(s);
    let mut i: usize = 0;
    while i < n
        invariant
            n == s@.len(),
            i <= n,
            find_var_end(s@, 0) == find_var_end(s@, i as int),
        decreases n - i,
    {
        let c = s.get_char(i);
        if c == ' ' || c == '=' {
            let v = trim_str(s.substring_char(0, i));
            return Some((i + 1, String::from_str(v)));
        }
        i += 1;
    }
    None
}

/// What parsing a function clause gives.
pub open spec fn parse_function_spec(s: Seq<char>) -> Result<FunctionV, FunctionParseError> {
    if s.len() > 6 && kw_at(s, 0, regex_kw()) {
        match parenthesized(s.subrange(5, s.len() as int)) {
            None => Err(FunctionParseError::InvalidArguments),
            Some((_, args)) => {
                let a = trim(args);
                match find_char(a, ',', 0) {
                    None => Err(FunctionParseError::InvalidArguments),
                    Some(i) => {
                        let val = trim_end(a.subrange(0, i));
                        let expr = trim_start(a.subrange(i + 1, a.len() as int));
                        if is_quoted_spec(expr) {
                            Ok(FunctionV::Regex(val, expr.subrange(1, expr.len() - 1)))
                        } else {
                            Err(FunctionParseError::InvalidArguments)
                        }
                    },
                }
            },
        }
    } else {
        match read_variable_spec(s) {
            None => Err(FunctionParseError::NoVariableAssignment),
            Some((len, var)) => {
                let s1 = trim_start(s.subrange(len, s.len() as int));
                match read_op_spec(s1) {
                    Err(_) => Err(FunctionParseError::NoVariableAssignment),
                    Ok((len2, op)) => if op != FilterOp::EqualTo {
                        Err(FunctionParseError::InvalidOperator(op))
                    } else {
                        let s2 = trim_start(s1.subrange(len2, s1.len() as int));
                        parse_call_spec(s2, var)
                    },
                }
            },
        }
    }
}

/// What parsing `REF(...)` or `SPLIT(...)` assigned to `var` gives.
pub open spec fn parse_call_spec(s2: Seq<char>, var: Seq<char>) -> Result<FunctionV, FunctionParseError> {
    if kw_at(s2, 0, ref_kw()) {
        if kw_at(s2, 4, split_kw()) {
            match find_char(s2, ')', 10) {
                None => Err(FunctionParseError::MissingClosingParenthesis),
                Some(e) => match parse_split_spec(s2.subrange(10, e), seq![]) {
                    Ok(f) => Ok(FunctionV::RefOf(var, Box::new(f))),
                    Err(x) => Err(x),
                },
            }
        } else {
            match find_char(s2, ')', 4) {
                None => Err(FunctionParseError::MissingClosingParenthesis),
                Some(e) => {
                    let field = s2.subrange(4, e);
                    if field_valid(field) {
                        Ok(FunctionV::Ref(var, field))
                    } else {
                        Err(FunctionParseError::InvalidArguments)
                    }
                },
            }
        }
    } else if kw_at(s2, 0, split_kw()) {
        match find_char(s2, ')', 6) {
            None => Err(FunctionParseError::MissingClosingParenthesis),
            Some(e) => parse_split_spec(s2.subrange(6, e), var),
        }
    } else {
        Err(FunctionParseError::UnknownFunction)
    }
}

fn parse_call(s2: &str, var: String) -> (r: Result<Function, FunctionParseError>)
    ensures
        r matches Ok(f) ==> parse_call_spec(s2@, var@) == Ok::<FunctionV, FunctionParseError>(f@),
        r matches Err(e) ==> parse_call_spec(s2@, var@) == Err::<FunctionV, FunctionParseError>(e),
{
    let kw_ref: [char; 4] = ['R', 'E', 'F', '('];
    let kw_split: [char; 6] = ['S', 'P', 'L', 'I', 'T', '('];
    assert(kw_ref@ =~= ref_kw());
    assert(kw_split@ =~= split_kw());
    let n = char_len(s2);
    if keyword_at(s2, n, 0, &kw_ref) {
        if keyword_at(s2, n, 4, &kw_split) {
            match find_char_from(s2, n, ')', 10) {
                None => Err(FunctionParseError::MissingClosingParenthesis),
                Some(e) => {
                    let empty = String::new();
                    assert(empty@ =~= Seq::<char>::empty());
                    match parse_split_function(s2.substring_char(10, e), empty) {
                        Ok(f) => Ok(Function::Ref(var, Either::Right(Box::new(f)))),
                        Err(x) => Err(x),
                    }
                },
            }
        } else {
            match find_char_from(s2, n, ')', 4) {
                None => Err(FunctionParseError::MissingClosingParenthesis),
                Some(e) => {
                    let field = s2.substring_char(4, e);
                    if field_name_is_valid(field) {
                        Ok(Function::Ref(var, Either::Left(String::from_str(field))))
                    } else {
                        Err(FunctionParseError::InvalidArguments)
                    }
                },
            }
        }
    } else if keyword_at(s2, n, 0, &kw_split) {
        match find_char_from(s2, n, ')', 6) {
            None => Err(FunctionParseError::MissingClosingParenthesis),
            Some(e) => parse_split_function(s2.substring_char(6, e), var),
        }
    } else {
        Err(FunctionParseError::UnknownFunction)
    }
}

pub proof fn lemma_read_op_bounds(s: Seq<char>)
    ensures
        read_op_spec(s) matches Ok((k, _)) ==> 0 <= k < s.len(),
{
    lemma_find_char_bounds(s, ' ', 0);
}

impl Function {
    /// Parse a function clause: `REGEX(field, 'pattern')`,
    /// `var = REF(field)`, `var = REF(SPLIT(field, 'c'))` or
    /// `var = SPLIT(field, 'c')`.
    pub fn parse(s: &str) -> (r: Result<Function, FunctionParseError>)
        ensures
            r matches Ok(f) ==> parse_function_spec(s@) == Ok::<FunctionV, FunctionParseError>(f@),
            r matches Err(e) ==> parse_function_spec(s@) == Err::<FunctionV, FunctionParseError>(e),
    {
        let kw_regex: [char; 6] = ['R', 'E', 'G', 'E', 'X', '('];
        assert(kw_regex@ =~= regex_kw());
        let n = char_len(s);
        if n > 6 && keyword_at(s, n, 0, &kw_regex) {
            let rest = s.substring_char(5, n);
            assert(ci_eq(s@[0int + 5int], regex_kw()[5int]));
            return match get_inner_expression(rest) {
                None => Err(FunctionParseError::InvalidArguments),
                Some((_, args)) => {
                    let a = trim_str(args);
                    let an = char_len(a);
                    match find_char_from(a, an, ',', 0) {
                        None => Err(FunctionParseError::InvalidArguments),
                        Some(i) => {
                            let val = trim_end_str(a.substring_char(0, i));
                            let expr = trim_start_str(a.substring_char(i + 1, an));
                            if is_quoted(expr) {
                                let en = char_len(expr);
                                Ok(Function::Regex(String::from_str(val), sub_string(expr, 1, en - 1)))
                            } else {
                                Err(FunctionParseError::InvalidArguments)
                            }
                        },
                    }
                },
            };
        }
        let (len, var) = match read_variable(s) {
            Some(x) => x,
            None => {
                return Err(FunctionParseError::NoVariableAssignment);
            },
        };
        let s1 = trim_start_str(s.substring_char(len, n));
        let (len2, op) = match read_op(s1) {
            Ok(x) => x,
            Err(_) => {
                return Err(FunctionParseError::NoVariableAssignment);
            },
        };
        if op != FilterOp::EqualTo {
            return Err(FunctionParseError::InvalidOperator(op));
        }
        proof {
            lemma_read_op_bounds(s1@);
        }
        let n1 = char_len(s1);
        let s2 = trim_start_str(s1.substring_char(len2, n1));
        parse_call(s2, var)
    }
}

impl PartialEq for Function {
    fn eq(&self, o: &Function) -> (r: bool)
        decreases self,
    {
        match (self, o) {
            (Function::Ref(v1, Either::Left(f1)), Function::Ref(v2, Either::Left(f2))) => {
                *v1 == *v2 && *f1 == *f2
            },
            (Function::Ref(v1, Either::Right(b1)), Function::Ref(v2, Either::Right(b2))) => {
                *v1 == *v2 && (**b1).eq(&**b2)
            },
            (Function::Split(v1, f1, c1), Function::Split(v2, f2, c2)) => {
                *v1 == *v2 && *f1 == *f2 && *c1 == *c2
            },
            (Function::Regex(f1, p1), Function::Regex(f2, p2)) => *f1 == *f2 && *p1 == *p2,
            _ => false,
        }
    }
}

impl vstd::std_specs::cmp::PartialEqSpecImpl for Function {
    open spec fn obeys_eq_spec() -> bool {
        true
    }

    open spec fn eq_spec(&self, o: &Function) -> bool {
        self@ == o@
    }
}

impl Eq for Function {

}

impl Clone for Function {
    fn clone(&self) -> (r: Function)
        ensures
            r@ == self@,
        decreases self,
    {
        match self {
            Function::Ref(v, Either::Left(f)) => Function::Ref(v.clone(), Either::Left(f.clone())),
            Function::Ref(v, Either::Right(b)) => Function::Ref(
                v.clone(),
                Either::Right(Box::new((**b).clone())),
            ),
            Function::Split(v, f, c) => Function::Split(v.clone(), f.clone(), *c),
            Function::Regex(f, p) => Function::Regex(f.clone(), p.clone()),
        }
    }
}

impl std::str::FromStr for Function {
    type Err = FunctionParseError;

    fn from_str(s: &str) -> (r: Result<Function, FunctionParseError>)
        ensures
            r matches Ok(f) ==> parse_function_spec(s@) == Ok::<FunctionV, FunctionParseError>(f@),
            r matches Err(e) ==> parse_function_spec(s@) == Err::<FunctionV, FunctionParseError>(e),
    {
        Function::parse(s)
    }
}

pub open spec fn empty_kw() -> Seq<char> {
    seq!['E', 'M', 'P', 'T', 'Y']
}

/// What the value part of a comparison gives: `EMPTY` is the empty string, a
/// quoted string (only with `=` or `NOT`) stands without its quotes, and a
/// number stands as written.
pub open spec fn filter_value_spec(field: Seq<char>, op: FilterOp, v: Seq<char>) -> Result<CondV, ConditionConversionError> {
    let string_op = op == FilterOp::EqualTo || op == FilterOp::Not;
    if v == empty_kw() {
        if string_op {
            Ok(CondV::Filter(field, op, seq![]))
        } else {
            Err(ConditionConversionError::BadComparison)
        }
    } else if is_quoted_spec(v) {
        if string_op {
            Ok(CondV::Filter(field, op, v.subrange(1, v.len() - 1)))
        } else {
            Err(ConditionConversionError::BadComparison)
        }
    } else if is_number(v) {
        Ok(CondV::Filter(field, op, v))
    } else {
        Err(ConditionConversionError::UnquotedString)
    }
}

/// What parsing `field op value` gives.
pub open spec fn comparison_spec(s: Seq<char>) -> Result<CondV, ConditionConversionError> {
    match read_field_spec(s) {
        Err(e) => Err(e),
        Ok((len, field)) => {
            let s3 = trim_start(s.subrange(len, s.len() as int));
            match read_op_spec(s3) {
                Err(e) => Err(e),
                Ok((len2, op)) => filter_value_spec(
                    field,
                    op,
                    trim_start(s3.subrange(len2, s3.len() as int)),
                ),
            }
        },
    }
}

/// An `AND` or `OR` between spaces stands at position `j`, outside any
/// parentheses.
pub open spec fn conj_at(t: Seq<char>, j: int) -> bool {
    depth(t, j) == 0 && (kw_at(t, j, kw_and()) || kw_at(t, j, kw_or()))
}

/// The rightmost conjunction in `t[0..m]`.
pub open spec fn last_conj(t: Seq<char>, m: int) -> Option<int>
    decreases m,
{
    if m <= 0 || m > t.len() {
        None
    } else if conj_at(t, m - 1) {
        Some(m - 1)
    } else {
        last_conj(t, m - 1)
    }
}

pub proof fn lemma_trim_len(s: Seq<char>)
    ensures
        trim(s).len() <= s.len(),
{
    lemma_skip_ws_bounds(s, 0);
    let t = trim_start(s);
    lemma_rskip_ws_bounds(t, t.len() as int);
}

pub proof fn lemma_closing_bounds(t: Seq<char>, i: int)
    requires
        0 <= i,
    ensures
        closing_paren(t, i) matches Some(k) ==> i <= k < t.len() && depth(t, k + 1) == 0,
    decreases t.len() - i,
{
    if i < t.len() && depth(t, i + 1) != 0 {
        lemma_closing_bounds(t, i + 1);
    }
}

pub proof fn lemma_parenthesized_bounds(t: Seq<char>)
    requires
        t.len() > 0,
        t[0] == '(',
    ensures
        parenthesized(t) matches Some((k, inner)) ==> 2 <= k <= t.len() && inner.len() == k - 2,
{
    lemma_closing_bounds(t, 0);
    assert(depth(t, 0) == 0);
    assert(depth(t, 1) == 1);
}

pub proof fn lemma_last_conj_bounds(t: Seq<char>, m: int)
    ensures
        last_conj(t, m) matches Some(j) ==> 0 <= j < m && conj_at(t, j),
    decreases m,
{
    if 0 < m <= t.len() && !conj_at(t, m - 1) {
        lemma_last_conj_bounds(t, m - 1);
    }
}

/// What parsing a condition gives.
///
/// Outer whitespace is dropped. Parentheses around the whole condition are
/// transparent. Otherwise the rightmost `AND` or `OR` outside parentheses
/// splits it in two; with none, it is a function clause or, where it does not
/// look like one, a comparison.
pub open spec fn parse_condition_spec(s: Seq<char>) -> Result<CondV, ConditionConversionError>
    decreases s.len(),
{
    let t = trim(s);
    proof {
        lemma_trim_len(s);
    }
    if t.len() == 0 {
        Err(ConditionConversionError::MissingField)
    } else if t[0] == '(' && parenthesized(t) is None {
        Err(ConditionConversionError::MismatchedParenthesis)
    } else if t[0] == '(' && parenthesized(t).unwrap().0 == t.len() {
        proof {
            lemma_parenthesized_bounds(t);
        }
        parse_condition_spec(parenthesized(t).unwrap().1)
    } else {
        match last_conj(t, t.len() as int) {
            Some(j) => {
                proof {
                    lemma_last_conj_bounds(t, t.len() as int);
                }
                let is_and = kw_at(t, j, kw_and());
                let k: int = if is_and { 5 } else { 4 };
                match parse_condition_spec(t.subrange(0, j)) {
                    Err(e) => Err(e),
                    Ok(l) => match parse_condition_spec(t.subrange(j + k, t.len() as int)) {
                        Err(e) => Err(e),
                        Ok(r) => Ok(
                            if is_and {
                                CondV::And(Box::new(l), Box::new(r))
                            } else {
                                CondV::Or(Box::new(l), Box::new(r))
                            },
                        ),
                    },
                }
            },
            None => match parse_function_spec(t) {
                Ok(f) => Ok(CondV::Function(f)),
                Err(FunctionParseError::UnknownFunction) => comparison_spec(t),
                Err(FunctionParseError::InvalidOperator(_)) => comparison_spec(t),
                Err(e) => Err(ConditionConversionError::Function(e)),
            },
        }
    }
}

fn filter_value(field: String, op: FilterOp, v: &str) -> (r: Result<Condition, ConditionConversionError>)
    ensures
        r matches Ok(c) ==> filter_value_spec(field@, op, v@) == Ok::<CondV, ConditionConversionError>(c@),
        r matches Err(e) ==> filter_value_spec(field@, op, v@) == Err::<CondV, ConditionConversionError>(e),
{
    let n = char_len(v);
    let string_op = op == FilterOp::EqualTo || op == FilterOp::Not;
    let is_empty_kw = n == 5 && v.get_char(0) == 'E' && v.get_char(1) == 'M' && v.get_char(2) == 'P'
        && v.get_char(3) == 'T' && v.get_char(4) == 'Y';
    proof {
        if is_empty_kw {
            assert(v@ =~= empty_kw());
        } else if v@ == empty_kw() {
            assert(v@[0] == 'E' && v@[1] == 'M' && v@[2] == 'P' && v@[3] == 'T' && v@[4] == 'Y');
        }
    }
    if is_empty_kw {
        if string_op {
            let e = String::new();
            assert(e@ =~= Seq::<char>::empty());
            Ok(Condition::Filter(field, op, e))
        } else {
            Err(ConditionConversionError::BadComparison)
        }
    } else if is_quoted(v) {
        if string_op {
            Ok(Condition::Filter(field, op, sub_string(v, 1, n - 1)))
        } else {
            Err(ConditionConversionError::BadComparison)
        }
    } else if is_number_str(v) {
        Ok(Condition::Filter(field, op, String::from_str(v)))
    } else {
        Err(ConditionConversionError::UnquotedString)
    }
}

pub proof fn lemma_read_field_bounds(s: Seq<char>)
    ensures
        read_field_spec(s) matches Ok((k, _)) ==> 0 <= k <= s.len(),
{
    if s.len() > 0 {
        let c = s[0];
        let end_c = if c == '\'' || c == '"' { c } else { ' ' };
        lemma_find_char_bounds(s, end_c, 1);
    }
}

fn parse_comparison(t: &str) -> (r: Result<Condition, ConditionConversionError>)
    ensures
        r matches Ok(c) ==> comparison_spec(t@) == Ok::<CondV, ConditionConversionError>(c@),
        r matches Err(e) ==> comparison_spec(t@) == Err::<CondV, ConditionConversionError>(e),
{
    let (len, field) = read_field(t)?;
    proof {
        lemma_read_field_bounds(t@);
    }
    let n = char_len(t);
    let s3 = trim_start_str(t.substring_char(len, n));
    let (len2, op) = read_op(s3)?;
    proof {
        lemma_read_op_bounds(s3@);
    }
    let n3 = char_len(s3);
    let v = trim_start_str(s3.substring_char(len2, n3));
    filter_value(field, op, v)
}

/// Position of the rightmost conjunction of `t`, outside parentheses.
fn find_conjunction(t: &str, n: usize) -> (r: Option<usize>)
    requires
        n == t@.len(),
    ensures
        r matches Some(j) ==> last_conj(t@, n as int) == Some(j as int),
        r is None ==> last_conj(t@, n as int) is None,
{
    let kw_a: [char; 5] = [' ', 'A', 'N', 'D', ' '];
    let kw_o: [char; 4] = [' ', 'O', 'R', ' '];
    assert(kw_a@ =~= kw_and());
    assert(kw_o@ =~= kw_or());
    let mut opens: usize = 0;
    let mut closes: usize = 0;
    let mut best: Option<usize> = None;
    let mut j: usize = 0;
    while j < n
        invariant
            n == t@.len(),
            j <= n,
            opens <= j,
            closes <= j,
            opens - closes == depth(t@, j as int),
            kw_a@ == kw_and(),
            kw_o@ == kw_or(),
            best matches Some(b) ==> last_conj(t@, j as int) == Some(b as int),
            best is None ==> last_conj(t@, j as int) is None,
        decreases n - j,
    {
        if opens == closes && (keyword_at(t, n, j, &kw_a) || keyword_at(t, n, j, &kw_o)) {
            best = Some(j);
        }
        let c = t.get_char(j);
        if c == '(' {
            opens += 1;
        } else if c == ')' {
            closes += 1;
        }
        j += 1;
    }
    best
}

/// Parse a condition; see [parse_condition_spec] for the grammar.
pub fn parse_condition(s: &str) -> (r: Result<Condition, ConditionConversionError>)
    ensures
        r matches Ok(c) ==> parse_condition_spec(s@) == Ok::<CondV, ConditionConversionError>(c@),
        r matches Err(e) ==> parse_condition_spec(s@) == Err::<CondV, ConditionConversionError>(e),
    decreases s@.len(),
{
    let t = trim_str(s);
    proof {
        lemma_trim_len(s@);
    }
    let n = char_len(t);
    if n == 0 {
        return Err(ConditionConversionError::MissingField);
    }
    if t.get_char(0) == '(' {
        proof {
            lemma_parenthesized_bounds(t@);
        }
        match get_inner_expression(t) {
            None => {
                return Err(ConditionConversionError::MismatchedParenthesis);
            },
            Some((k, inner)) => {
                if k == n {
                    return parse_condition(inner);
                }
            },
        }
    }
    match find_conjunction(t, n) {
        Some(j) => {
            proof {
                lemma_last_conj_bounds(t@, n as int);
            }
            let kw_a: [char; 5] = [' ', 'A', 'N', 'D', ' '];
            assert(kw_a@ =~= kw_and());
            let is_and = keyword_at(t, n, j, &kw_a);
            let k: usize = if is_and { 5 } else { 4 };
            let l = parse_condition(t.substring_char(0, j))?;
            let r = parse_condition(t.substring_char(j + k, n))?;
            if is_and {
                Ok(Condition::And(Box::new((l, r))))
            } else {
                Ok(Condition::Or(Box::new((l, r))))
            }
        },
        None => match Function::parse(t) {
            Ok(f) => Ok(Condition::Function(f)),
            Err(FunctionParseError::UnknownFunction) => parse_comparison(t),
            Err(FunctionParseError::InvalidOperator(_)) => parse_comparison(t),
            Err(e) => Err(ConditionConversionError::Function(e)),
        },
    }
}

impl std::str::FromStr for Condition {
    type Err = ConditionConversionError;

    fn from_str(s: &str) -> (r: Result<Condition, ConditionConversionError>)
        ensures
            r matches Ok(c) ==> parse_condition_spec(s@) == Ok::<CondV, ConditionConversionError>(c@),
            r matches Err(e) ==> parse_condition_spec(s@) == Err::<CondV, ConditionConversionError>(e),
    {
        parse_condition(s)
    }
}

/// A query: the fields to show and the condition a record must meet.
#[derive(Debug, PartialEq, Eq)]
pub struct Filter {
    /// The fields to return.
    pub select: Vec<String>,
    /// The filter condition.
    pub condition: Condition,
}

/// The mathematical form of a [Filter].
pub struct FilterV {
    pub select: Seq<Seq<char>>,
    pub condition: CondV,
}

impl View for Filter {
    type V = FilterV;

    open spec fn view(&self) -> FilterV {
        FilterV { select: self.select.deep_view(), condition: self.condition@ }
    }
}

pub open spec fn where_kw() -> Seq<char> {
    seq!['W', 'H', 'E', 'R', 'E']
}

/// The names, each once, in the order they first appear.
pub open spec fn dedup(s: Seq<Seq<char>>) -> Seq<Seq<char>>
    decreases s.len(),
{
    if s.len() == 0 {
        seq![]
    } else if dedup(s.drop_last()).contains(s.last()) {
        dedup(s.drop_last())
    } else {
        dedup(s.drop_last()).push(s.last())
    }
}

/// What parsing a query gives: a field list, then nothing (every record
/// matches) or `WHERE` and a condition.
pub open spec fn parse_query_spec(s: Seq<char>) -> Result<FilterV, QueryConversionError> {
    match read_fields_spec(s) {
        Err(e) => Err(QueryConversionError::Condition(e)),
        Ok((idx, sel)) => {
            let rest = trim(s.subrange(idx, s.len() as int));
            if rest.len() == 0 {
                Ok(FilterV { select: sel, condition: CondV::All })
            } else if rest.len() < 6 || !kw_at(rest, 0, where_kw()) {
                Err(QueryConversionError::MissingWhere)
            } else {
                match parse_condition_spec(rest.subrange(5, rest.len() as int)) {
                    Ok(c) => Ok(FilterV { select: sel, condition: c }),
                    Err(e) => Err(QueryConversionError::Condition(e)),
                }
            }
        },
    }
}

pub proof fn lemma_read_fields_bounds(s: Seq<char>)
    ensures
        read_fields_spec(s) matches Ok((k, _)) ==> 0 <= k <= s.len(),
{
    if s.len() > 0 {
        let c = s[0];
        let end_c = if is_quote(c) { c } else { ' ' };
        lemma_find_char_bounds(s, end_c, 1);
    }
}

impl Filter {
    pub fn new(select: Vec<String>, condition: Condition) -> (r: Filter)
        ensures
            r.select == select,
            r.condition == condition,
    {
        Filter { select, condition }
    }

    /// Parse a query: `FieldList [WHERE Condition]`.
    pub fn parse(s: &str) -> (r: Result<Filter, QueryConversionError>)
        ensures
            r matches Ok(f) ==> parse_query_spec(s@) == Ok::<FilterV, QueryConversionError>(f@),
            r matches Err(e) ==> parse_query_spec(s@) == Err::<FilterV, QueryConversionError>(e),
    {
        let (idx, select) = match read_fields(s) {
            Ok(x) => x,
            Err(e) => {
                return Err(QueryConversionError::Condition(e));
            },
        };
        proof {
            lemma_read_fields_bounds(s@);
        }
        let n = char_len(s);
        let rest = trim_str(s.substring_char(idx, n));
        let rn = char_len(rest);
        if rn == 0 {
            return Ok(Filter { select, condition: Condition::All });
        }
        let kw_w: [char; 5] = ['W', 'H', 'E', 'R', 'E'];
        assert(kw_w@ =~= where_kw());
        if rn < 6 || !keyword_at(rest, rn, 0, &kw_w) {
            return Err(QueryConversionError::MissingWhere);
        }
        match parse_condition(rest.substring_char(5, rn)) {
            Ok(condition) => Ok(Filter { select, condition }),
            Err(e) => Err(QueryConversionError::Condition(e)),
        }
    }

    /// The fields to return.
    pub fn select(&self) -> (r: &Vec<String>)
        ensures
            r == &self.select,
    {
        &self.select
    }

    /// The filter condition.
    pub fn condition(&self) -> (r: &Condition)
        ensures
            r == &self.condition,
    {
        &self.condition
    }

    /// Combine two queries: both conditions must hold, and the fields of both
    /// are returned, those of `self` first, each once.
    pub fn merge_with(self, other: Filter) -> (r: Filter)
        ensures
            r@.select == dedup(self@.select + other@.select),
            r@.condition == CondV::And(Box::new(self@.condition), Box::new(other@.condition)),
    {
        let ghost all = self.select.deep_view() + other.select.deep_view();
        let mut fields = self.select;
        let mut more = other.select;
        fields.append(&mut more);
        assert(fields.deep_view() =~= all);
        let mut select: Vec<String> = Vec::new();
        let mut i: usize = 0;
        assert(select.deep_view() =~= dedup(all.subrange(0, 0)));
        while i < fields.len()
            invariant
                i <= fields.len(),
                fields.deep_view() == all,
                all.len() == fields.len(),
                select.deep_view() == dedup(all.subrange(0, i as int)),
            decreases fields.len() - i,
        {
            let f = fields[i].as_str();
            assert(all[i as int] == f@);
            let mut seen = false;
            let mut j: usize = 0;
            while j < select.len()
                invariant
                    j <= select.len(),
                    select.deep_view().len() == select.len(),
                    seen == exists|q: int| 0 <= q < j && select.deep_view()[q] == f@,
                decreases select.len() - j,
            {
                assert(select.deep_view()[j as int] == select[j as int]@);
                if !seen && str_eq(select[j].as_str(), f) {
                    seen = true;
                }
                j += 1;
            }
            assert(all.subrange(0, i + 1).drop_last() =~= all.subrange(0, i as int));
            if !seen {
                let ghost before = select.deep_view();
                select.push(String::from_str(f));
                assert(select.deep_view() =~= before.push(f@));
            }
            i += 1;
        }
        assert(all.subrange(0, all.len() as int) =~= all);
        Filter { select, condition: Condition::And(Box::new((self.condition, other.condition))) }
    }
}

impl std::str::FromStr for Filter {
    type Err = QueryConversionError;

    fn from_str(s: &str) -> (r: Result<Filter, QueryConversionError>)
        ensures
            r matches Ok(f) ==> parse_query_spec(s@) == Ok::<FilterV, QueryConversionError>(f@),
            r matches Err(e) ==> parse_query_spec(s@) == Err::<FilterV, QueryConversionError>(e),
    {
        Filter::parse(s)
    }
}

} // verus!
