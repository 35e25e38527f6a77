//! Parser for the small RON subset used by the AA contract fixtures and by
//! schema validation. The result is a JSON value tree.
use vstd::prelude::*;
use crate::json::{JsonModel, JsonNumber, JsonValue, NumberModel, object_insert, json_wf, lemma_insert_json_values_wf};
use crate::text::{byte_offset, decimal, is_alnum, is_alpha, is_digit, is_unicode_whitespace, slice_chars};
use crate::number::{num_order, compare_numbers};
use vstd::string::StringExecFns;

verus! {

/// The error the parser reports: its message says what went wrong and,
/// where it applies, the byte offset at which it happened.
#[derive(Debug, Clone, PartialEq, Eq)]
pub struct RonParseError {
    pub message: String,
}

/// What can go wrong, with character positions.
pub enum RonError {
    TrailingInput(int),
    UnexpectedEnd,
    UnsupportedToken(char, int),
    ExpectedIdentifier(int),
    UnterminatedEscape,
    UnsupportedEscape(char),
    UnterminatedString,
    ExpectedNumber(int),
    InvalidFloat(Seq<char>),
    InvalidInteger(Seq<char>),
    Expected(char, int),
}

pub open spec fn peek_at(s: Seq<char>, i: int) -> char {
    if 0 <= i < s.len() {
        s[i]
    } else {
        '\0'
    }
}

/// Position just past the next line feed at or after `i`, or the end of input.
pub open spec fn line_end(s: Seq<char>, i: int) -> int
    decreases s.len() - i,
{
    if i >= s.len() {
        s.len() as int
    } else if s[i] == '\n' {
        i + 1
    } else {
        line_end(s, i + 1)
    }
}

pub proof fn lemma_line_end(s: Seq<char>, i: int)
    requires
        0 <= i < s.len(),
    ensures
        i < line_end(s, i) <= s.len(),
    decreases s.len() - i,
{
    if s[i] != '\n' {
        if i + 1 < s.len() {
            lemma_line_end(s, i + 1);
        } else {
            assert(line_end(s, i + 1) == s.len());
        }
    }
}

pub open spec fn starts_comment(s: Seq<char>, i: int) -> bool {
    0 <= i && i + 1 < s.len() && s[i] == '/' && s[i + 1] == '/'
}

/// Skips Unicode whitespace and `//` line comments.
pub open spec fn skip_ws(s: Seq<char>, i: int) -> int
    decreases s.len() - i,
{
    if i < 0 || i >= s.len() {
        i
    } else if starts_comment(s, i) {
        proof {
            lemma_line_end(s, i);
        }
        skip_ws(s, line_end(s, i))
    } else if is_unicode_whitespace(s[i]) {
        skip_ws(s, i + 1)
    } else {
        i
    }
}

pub proof fn lemma_skip_ws(s: Seq<char>, i: int)
    requires
        0 <= i <= s.len(),
    ensures
        i <= skip_ws(s, i) <= s.len(),
        skip_ws(s, skip_ws(s, i)) == skip_ws(s, i),
    decreases s.len() - i,
{
    if i < s.len() {
        if starts_comment(s, i) {
            lemma_line_end(s, i);
            lemma_skip_ws(s, line_end(s, i));
        } else if is_unicode_whitespace(s[i]) {
            lemma_skip_ws(s, i + 1);
        }
    }
}

/// End of the run of `[A-Za-z0-9_]` starting at `i`.
pub open spec fn ident_end(s: Seq<char>, i: int) -> int
    decreases s.len() - i,
{
    if 0 <= i < s.len() && (is_alnum(s[i]) || s[i] == '_') {
        ident_end(s, i + 1)
    } else {
        i
    }
}

pub proof fn lemma_ident_end(s: Seq<char>, i: int)
    requires
        0 <= i <= s.len(),
    ensures
        i <= ident_end(s, i) <= s.len(),
        forall|k: int| i <= k < ident_end(s, i) ==> (is_alnum(#[trigger] s[k]) || s[k] == '_'),
    decreases s.len() - i,
{
    if i < s.len() && (is_alnum(s[i]) || s[i] == '_') {
        lemma_ident_end(s, i + 1);
    }
}

/// End of the run of ASCII digits starting at `i`.
pub open spec fn digits_end(s: Seq<char>, i: int) -> int
    decreases s.len() - i,
{
    if 0 <= i < s.len() && is_digit(s[i]) {
        digits_end(s, i + 1)
    } else {
        i
    }
}

pub proof fn lemma_digits_end(s: Seq<char>, i: int)
    requires
        0 <= i <= s.len(),
    ensures
        i <= digits_end(s, i) <= s.len(),
        forall|k: int| i <= k < digits_end(s, i) ==> is_digit(#[trigger] s[k]),
    decreases s.len() - i,
{
    if i < s.len() && is_digit(s[i]) {
        lemma_digits_end(s, i + 1);
    }
}

/// `expect(c)`: after whitespace the next character must be `c`.
pub open spec fn spec_expect(s: Seq<char>, i: int, c: char) -> Result<int, RonError> {
    let a = skip_ws(s, i);
    if peek_at(s, a) != c {
        Err(RonError::Expected(c, a))
    } else {
        Ok(a + 1)
    }
}

pub open spec fn spec_identifier(s: Seq<char>, i: int) -> Result<(Seq<char>, int), RonError> {
    let a = skip_ws(s, i);
    let b = ident_end(s, a);
    if b == a {
        Err(RonError::ExpectedIdentifier(a))
    } else {
        Ok((s.subrange(a, b), b))
    }
}

/// The character an escape sequence `\c` stands for.
pub open spec fn escaped_char(c: char) -> Option<char> {
    if c == '"' {
        Some('"')
    } else if c == '\\' {
        Some('\\')
    } else if c == 'n' {
        Some('\n')
    } else if c == 'r' {
        Some('\r')
    } else if c == 't' {
        Some('\t')
    } else {
        None
    }
}

/// The contents of a string literal whose opening quote ends before `k`,
/// and the position after its closing quote.
pub open spec fn string_body(s: Seq<char>, k: int) -> Result<(Seq<char>, int), RonError>
    decreases s.len() - k,
{
    if k < 0 || k >= s.len() {
        Err(RonError::UnterminatedString)
    } else if s[k] == '"' {
        Ok((Seq::empty(), k + 1))
    } else if s[k] == '\\' {
        if k + 1 >= s.len() {
            Err(RonError::UnterminatedEscape)
        } else {
            match escaped_char(s[k + 1]) {
                None => Err(RonError::UnsupportedEscape(s[k + 1])),
                Some(d) => match string_body(s, k + 2) {
                    Ok((rest, e)) => Ok((seq![d] + rest, e)),
                    Err(x) => Err(x),
                },
            }
        }
    } else {
        match string_body(s, k + 1) {
            Ok((rest, e)) => Ok((seq![s[k]] + rest, e)),
            Err(x) => Err(x),
        }
    }
}

pub proof fn lemma_string_body(s: Seq<char>, k: int)
    requires
        0 <= k,
    ensures
        string_body(s, k) matches Ok((_, e)) ==> k < e <= s.len(),
    decreases s.len() - k,
{
    if 0 <= k < s.len() && s[k] != '"' {
        if s[k] == '\\' {
            if k + 1 < s.len() {
                lemma_string_body(s, k + 2);
            }
        } else {
            lemma_string_body(s, k + 1);
        }
    }
}

pub open spec fn spec_string(s: Seq<char>, i: int) -> Result<(Seq<char>, int), RonError> {
    match spec_expect(s, i, '"') {
        Err(x) => Err(x),
        Ok(k) => string_body(s, k),
    }
}

pub open spec fn spec_key(s: Seq<char>, i: int) -> Result<(Seq<char>, int), RonError> {
    let a = skip_ws(s, i);
    if peek_at(s, a) == '"' {
        spec_string(s, a)
    } else {
        spec_identifier(s, a)
    }
}

pub proof fn lemma_key_progress(s: Seq<char>, i: int)
    requires
        0 <= i <= s.len(),
    ensures
        spec_key(s, i) matches Ok((_, j)) ==> i < j <= s.len(),
        spec_string(s, i) matches Ok((_, j)) ==> i < j <= s.len(),
        spec_identifier(s, i) matches Ok((_, j)) ==> i < j <= s.len(),
{
    lemma_skip_ws(s, i);
    let a = skip_ws(s, i);
    lemma_skip_ws(s, a);
    lemma_ident_end(s, a);
    lemma_string_body(s, a + 1);
    lemma_string_body(s, skip_ws(s, i) + 1);
}

/// Value of a run of ASCII digits.
pub open spec fn digits_value(d: Seq<char>) -> int
    decreases d.len(),
{
    if d.len() == 0 {
        0
    } else {
        digits_value(d.drop_last()) * 10 + (d.last() as int - '0' as int)
    }
}

/// The positions a number literal starting at `start` is scanned into:
/// after the sign, after the integer digits, after the fraction, and the end.
pub open spec fn number_sign_end(s: Seq<char>, start: int) -> int {
    if peek_at(s, start) == '-' {
        start + 1
    } else {
        start
    }
}

pub open spec fn number_int_end(s: Seq<char>, start: int) -> int {
    digits_end(s, number_sign_end(s, start))
}

pub open spec fn number_has_dot(s: Seq<char>, start: int) -> bool {
    peek_at(s, number_int_end(s, start)) == '.'
}

pub open spec fn number_frac_end(s: Seq<char>, start: int) -> int {
    if number_has_dot(s, start) {
        digits_end(s, number_int_end(s, start) + 1)
    } else {
        number_int_end(s, start)
    }
}

pub open spec fn number_has_exp(s: Seq<char>, start: int) -> bool {
    peek_at(s, number_frac_end(s, start)) == 'e' || peek_at(s, number_frac_end(s, start)) == 'E'
}

pub open spec fn number_exp_digits_start(s: Seq<char>, start: int) -> int {
    let q = number_frac_end(s, start) + 1;
    if peek_at(s, q) == '+' || peek_at(s, q) == '-' {
        q + 1
    } else {
        q
    }
}

pub open spec fn number_end(s: Seq<char>, start: int) -> int {
    if number_has_exp(s, start) {
        digits_end(s, number_exp_digits_start(s, start))
    } else {
        number_frac_end(s, start)
    }
}

/// Number of digits in the mantissa (integer part plus fraction).
pub open spec fn number_mantissa_digits(s: Seq<char>, start: int) -> int {
    (number_int_end(s, start) - number_sign_end(s, start)) + if number_has_dot(s, start) {
        number_frac_end(s, start) - (number_int_end(s, start) + 1)
    } else {
        0
    }
}

/// The literal is accepted as a float by Rust's decimal grammar: at least one
/// mantissa digit, and at least one exponent digit when there is an exponent.
pub open spec fn float_syntax_ok(s: Seq<char>, start: int) -> bool {
    number_mantissa_digits(s, start) >= 1 && (number_has_exp(s, start) ==> number_end(s, start)
        > number_exp_digits_start(s, start))
}

pub open spec fn is_bare_sign_or_dot(t: Seq<char>) -> bool {
    t.len() == 0 || t == seq!['-'] || t == seq!['.'] || t == seq!['-', '.']
}

/// The least magnitude that reads as an infinite `f64`: `2^1024 - 2^970`,
/// halfway between the largest finite `f64` and `2^1024`.
pub open spec fn f64_overflow_bound() -> Seq<char> {
    "179769313486231580793728971405303415079934132710037826936173778980444968292764750946649017977587207096330286416692887910946555547851940402630657488671505820681908902000708383676273854845817711531764475730270069855571366959622842914819860834936475292719074168444365510704342711559699508093042880177904174497792"@
}

/// A decimal literal whose value reads as a finite `f64`.
pub open spec fn float_in_range(token: Seq<char>) -> bool {
    &&& num_order(NumberModel::Float(token), NumberModel::Float(f64_overflow_bound())) < 0
    &&& num_order(NumberModel::Float(token), NumberModel::Float("-"@ + f64_overflow_bound())) > 0
}

pub open spec fn spec_number(s: Seq<char>, start: int) -> Result<(JsonModel, int), RonError> {
    let end = number_end(s, start);
    let token = s.subrange(start, end);
    if is_bare_sign_or_dot(token) {
        Err(RonError::ExpectedNumber(start))
    } else if number_has_dot(s, start) || number_has_exp(s, start) {
        if float_syntax_ok(s, start) && float_in_range(token) {
            Ok((JsonModel::Number(NumberModel::Float(token)), end))
        } else {
            Err(RonError::InvalidFloat(token))
        }
    } else {
        let magnitude = digits_value(s.subrange(number_sign_end(s, start), end));
        let value = if number_sign_end(s, start) > start {
            -magnitude
        } else {
            magnitude
        };
        if value < i64::MIN || value > i64::MAX {
            Err(RonError::InvalidInteger(token))
        } else if value >= 0 {
            Ok((JsonModel::Number(NumberModel::PosInt(value as u64)), end))
        } else {
            Ok((JsonModel::Number(NumberModel::NegInt(value as i64)), end))
        }
    }
}

/// Whether a decimal literal reads as a finite `f64` (see `float_in_range`).
fn float_fits(token: &Vec<char>) -> (r: bool)
    ensures
        r == float_in_range(token@),
{
    let bound = "179769313486231580793728971405303415079934132710037826936173778980444968292764750946649017977587207096330286416692887910946555547851940402630657488671505820681908902000708383676273854845817711531764475730270069855571366959622842914819860834936475292719074168444365510704342711559699508093042880177904174497792".to_string();
    let mut negative = "-".to_string();
    crate::text::push_text(&mut negative, bound.as_str());
    let t = crate::text::string_of(token);
    let below = compare_numbers(&JsonNumber::Float(t.clone()), &JsonNumber::Float(bound)) < 0;
    let above = compare_numbers(&JsonNumber::Float(t), &JsonNumber::Float(negative)) > 0;
    below && above
}

/// The value a bare identifier stands for.
pub open spec fn keyword_value(id: Seq<char>) -> JsonModel {
    if id == seq!['t', 'r', 'u', 'e'] {
        JsonModel::Bool(true)
    } else if id == seq!['f', 'a', 'l', 's', 'e'] {
        JsonModel::Bool(false)
    } else if id == seq!['n', 'u', 'l', 'l'] || id == seq!['N', 'o', 'n', 'e'] {
        JsonModel::Null
    } else {
        JsonModel::String(id)
    }
}

pub open spec fn looks_like_entry(s: Seq<char>, i: int) -> bool {
    match spec_key(s, i) {
        Ok((_, j)) => peek_at(s, skip_ws(s, j)) == ':',
        Err(_) => false,
    }
}

/// Where a list or object body goes on after an element that ended at `k`.
pub open spec fn after_element(s: Seq<char>, k: int) -> int {
    let k1 = skip_ws(s, k);
    if peek_at(s, k1) == ',' {
        k1 + 1
    } else {
        k1
    }
}

/// A value starting at or after `i` (after whitespace).
pub open spec fn spec_value(s: Seq<char>, i: int) -> Result<(JsonModel, int), RonError>
    decreases s.len() - i, 2int,
{
    if i < 0 || i > s.len() {
        Err(RonError::UnexpectedEnd)
    } else {
        proof {
            lemma_skip_ws(s, i);
        }
        let a = skip_ws(s, i);
        if a >= s.len() {
            Err(RonError::UnexpectedEnd)
        } else {
            let c = s[a];
            if c == '(' {
                spec_group(s, a)
            } else if c == '[' {
                spec_array(s, a)
            } else if c == '"' {
                match spec_string(s, a) {
                    Ok((t, e)) => Ok((JsonModel::String(t), e)),
                    Err(x) => Err(x),
                }
            } else if c == '-' || is_digit(c) {
                spec_number(s, a)
            } else if is_alpha(c) || c == '_' {
                let b = ident_end(s, a);
                proof {
                    lemma_ident_end(s, a);
                    lemma_skip_ws(s, b);
                }
                let b2 = skip_ws(s, b);
                if peek_at(s, b2) == '(' {
                    spec_group(s, b2)
                } else {
                    Ok((keyword_value(s.subrange(a, b)), b2))
                }
            } else {
                Err(RonError::UnsupportedToken(c, a))
            }
        }
    }
}

/// `( ... )`: an empty object, an object of `key: value` entries, or a tuple.
pub open spec fn spec_group(s: Seq<char>, i: int) -> Result<(JsonModel, int), RonError>
    decreases s.len() - i, 1int,
{
    if i < 0 || i > s.len() {
        Err(RonError::UnexpectedEnd)
    } else {
        proof {
            lemma_skip_ws(s, i);
        }
        match spec_expect(s, i, '(') {
            Err(x) => Err(x),
            Ok(k) => {
                proof {
                    lemma_skip_ws(s, k);
                }
                let k2 = skip_ws(s, k);
                if peek_at(s, k2) == ')' {
                    Ok((JsonModel::Object(Seq::empty()), k2 + 1))
                } else if looks_like_entry(s, k2) {
                    spec_object_body(s, k2, Seq::empty())
                } else {
                    spec_list_body(s, k2, ')', Seq::empty())
                }
            },
        }
    }
}

/// `[ ... ]`: an array.
pub open spec fn spec_array(s: Seq<char>, i: int) -> Result<(JsonModel, int), RonError>
    decreases s.len() - i, 1int,
{
    if i < 0 || i > s.len() {
        Err(RonError::UnexpectedEnd)
    } else {
        proof {
            lemma_skip_ws(s, i);
        }
        match spec_expect(s, i, '[') {
            Err(x) => Err(x),
            Ok(k) => spec_list_body(s, k, ']', Seq::empty()),
        }
    }
}

/// Object entries up to the closing `)`, accumulated into `acc`.
pub open spec fn spec_object_body(
    s: Seq<char>,
    i: int,
    acc: Seq<(Seq<char>, JsonModel)>,
) -> Result<(JsonModel, int), RonError>
    decreases s.len() - i, 3int,
{
    if i < 0 || i > s.len() {
        Err(RonError::UnexpectedEnd)
    } else {
        proof {
            lemma_skip_ws(s, i);
        }
        let a = skip_ws(s, i);
        if peek_at(s, a) == ')' {
            Ok((JsonModel::Object(acc), a + 1))
        } else {
            proof {
                lemma_key_progress(s, a);
            }
            match spec_key(s, a) {
                Err(x) => Err(x),
                Ok((key, j)) => {
                    proof {
                        lemma_skip_ws(s, j);
                    }
                    match spec_expect(s, j, ':') {
                        Err(x) => Err(x),
                        Ok(j2) => match spec_value(s, j2) {
                            Err(x) => Err(x),
                            Ok((v, k)) => {
                                let next = after_element(s, k);
                                if next <= i || next > s.len() {
                                    Err(RonError::UnexpectedEnd)
                                } else {
                                    spec_object_body(s, next, object_insert(acc, key, v))
                                }
                            },
                        },
                    }
                },
            }
        }
    }
}

/// Elements up to the closing `close`, accumulated into `acc`.
pub open spec fn spec_list_body(s: Seq<char>, i: int, close: char, acc: Seq<JsonModel>) -> Result<
    (JsonModel, int),
    RonError,
>
    decreases s.len() - i, 3int,
{
    if i < 0 || i > s.len() {
        Err(RonError::UnexpectedEnd)
    } else {
        proof {
            lemma_skip_ws(s, i);
        }
        let a = skip_ws(s, i);
        if peek_at(s, a) == close {
            Ok((JsonModel::Array(acc), a + 1))
        } else {
            match spec_value(s, a) {
                Err(x) => Err(x),
                Ok((v, k)) => {
                    let next = after_element(s, k);
                    if next <= i || next > s.len() {
                        Err(RonError::UnexpectedEnd)
                    } else {
                        spec_list_body(s, next, close, acc.push(v))
                    }
                },
            }
        }
    }
}

/// The whole text is one value, with nothing but whitespace and comments after it.
pub open spec fn spec_parse(s: Seq<char>) -> Result<JsonModel, RonError> {
    match spec_value(s, 0) {
        Err(x) => Err(x),
        Ok((v, k)) => if skip_ws(s, k) != s.len() {
            Err(RonError::TrailingInput(skip_ws(s, k)))
        } else {
            Ok(v)
        },
    }
}

} // verus!

verus! {

/// Every value the parser reads is valid: the keys of each object it builds ascend.
pub proof fn lemma_value_wf(s: Seq<char>, i: int)
    ensures
        spec_value(s, i) matches Ok((m, _)) ==> json_wf(m),
    decreases s.len() - i, 2int,
{
    if 0 <= i <= s.len() {
        lemma_skip_ws(s, i);
        let a = skip_ws(s, i);
        if a < s.len() {
            let c = s[a];
            if c == '(' {
                lemma_group_wf(s, a);
            } else if c == '[' {
                lemma_array_wf(s, a);
            } else if c == '"' || c == '-' || is_digit(c) {
            } else if is_alpha(c) || c == '_' {
                lemma_ident_end(s, a);
                let b = ident_end(s, a);
                lemma_skip_ws(s, b);
                let b2 = skip_ws(s, b);
                if peek_at(s, b2) == '(' {
                    lemma_group_wf(s, b2);
                }
            }
        }
    }
}

proof fn lemma_group_wf(s: Seq<char>, i: int)
    ensures
        spec_group(s, i) matches Ok((m, _)) ==> json_wf(m),
    decreases s.len() - i, 1int,
{
    if 0 <= i <= s.len() {
        lemma_skip_ws(s, i);
        match spec_expect(s, i, '(') {
            Err(_) => {},
            Ok(k) => {
                lemma_skip_ws(s, k);
                let k2 = skip_ws(s, k);
                if peek_at(s, k2) == ')' {
                    assert(json_wf(JsonModel::Object(Seq::empty())));
                } else if looks_like_entry(s, k2) {
                    lemma_object_body_wf(s, k2, Seq::empty());
                } else {
                    lemma_list_body_wf(s, k2, ')', Seq::empty());
                }
            },
        }
    }
}

proof fn lemma_array_wf(s: Seq<char>, i: int)
    ensures
        spec_array(s, i) matches Ok((m, _)) ==> json_wf(m),
    decreases s.len() - i, 1int,
{
    if 0 <= i <= s.len() {
        lemma_skip_ws(s, i);
        match spec_expect(s, i, '[') {
            Err(_) => {},
            Ok(k) => {
                lemma_list_body_wf(s, k, ']', Seq::empty());
            },
        }
    }
}

proof fn lemma_object_body_wf(s: Seq<char>, i: int, acc: Seq<(Seq<char>, JsonModel)>)
    requires
        crate::config::keys_ascending(acc),
        forall|j: int| 0 <= j < acc.len() ==> json_wf(#[trigger] acc[j].1),
    ensures
        spec_object_body(s, i, acc) matches Ok((m, _)) ==> json_wf(m),
    decreases s.len() - i, 3int,
{
    if 0 <= i <= s.len() {
        lemma_skip_ws(s, i);
        let a = skip_ws(s, i);
        if peek_at(s, a) == ')' {
            assert(json_wf(JsonModel::Object(acc)));
        } else {
            lemma_key_progress(s, a);
            match spec_key(s, a) {
                Err(_) => {},
                Ok((key, j)) => {
                    lemma_skip_ws(s, j);
                    match spec_expect(s, j, ':') {
                        Err(_) => {},
                        Ok(j2) => {
                            lemma_value_wf(s, j2);
                            match spec_value(s, j2) {
                                Err(_) => {},
                                Ok((v, k)) => {
                                    let next = after_element(s, k);
                                    if next > i && next <= s.len() {
                                        crate::config::lemma_insert_ascending(acc, key, v);
                                        lemma_insert_json_values_wf(acc, key, v);
                                        lemma_object_body_wf(s, next, object_insert(acc, key, v));
                                    }
                                },
                            }
                        },
                    }
                },
            }
        }
    }
}

proof fn lemma_list_body_wf(s: Seq<char>, i: int, close: char, acc: Seq<JsonModel>)
    requires
        forall|j: int| 0 <= j < acc.len() ==> json_wf(#[trigger] acc[j]),
    ensures
        spec_list_body(s, i, close, acc) matches Ok((m, _)) ==> json_wf(m),
    decreases s.len() - i, 3int,
{
    if 0 <= i <= s.len() {
        lemma_skip_ws(s, i);
        let a = skip_ws(s, i);
        if peek_at(s, a) == close {
            assert(json_wf(JsonModel::Array(acc)));
        } else {
            lemma_value_wf(s, a);
            match spec_value(s, a) {
                Err(_) => {},
                Ok((v, k)) => {
                    let next = after_element(s, k);
                    if next > i && next <= s.len() {
                        assert forall|j: int| 0 <= j < acc.push(v).len() implies json_wf(#[trigger] acc.push(v)[j]) by {
                            if j < acc.len() {
                                assert(acc.push(v)[j] == acc[j]);
                            }
                        }
                        lemma_list_body_wf(s, next, close, acc.push(v));
                    }
                },
            }
        }
    }
}

} // verus!

verus! {

/// The error message the parser reports for `e` on text `s`.
pub open spec fn error_message(s: Seq<char>, e: RonError) -> Seq<char> {
    match e {
        RonError::TrailingInput(p) => "Unexpected token at byte "@ + decimal(byte_offset(s, p)),
        RonError::UnexpectedEnd => "Unexpected end of RON"@,
        RonError::UnsupportedToken(c, p) => "Unsupported token '"@ + seq![c] + "' at byte "@
            + decimal(byte_offset(s, p)),
        RonError::ExpectedIdentifier(p) => "Expected identifier at byte "@ + decimal(
            byte_offset(s, p),
        ),
        RonError::UnterminatedEscape => "Unterminated string escape"@,
        RonError::UnsupportedEscape(c) => "Unsupported string escape '\\"@ + seq![c] + "'"@,
        RonError::UnterminatedString => "Unterminated string"@,
        RonError::ExpectedNumber(p) => "Expected number at byte "@ + decimal(byte_offset(s, p)),
        RonError::InvalidFloat(t) => "Invalid float literal \""@ + t + "\""@,
        RonError::InvalidInteger(t) => "Invalid integer literal \""@ + t + "\""@,
        RonError::Expected(c, p) => "Expected '"@ + seq![c] + "' at byte "@ + decimal(
            byte_offset(s, p),
        ),
    }
}

/// What went wrong, with character positions (the executable form of `RonError`).
enum RonFault {
    TrailingInput(usize),
    UnexpectedEnd,
    UnsupportedToken(char, usize),
    ExpectedIdentifier(usize),
    UnterminatedEscape,
    UnsupportedEscape(char),
    UnterminatedString,
    ExpectedNumber(usize),
    InvalidFloat(Vec<char>),
    InvalidInteger(Vec<char>),
    Expected(char, usize),
}

impl RonFault {
    spec fn model(self) -> RonError {
        match self {
            RonFault::TrailingInput(p) => RonError::TrailingInput(p as int),
            RonFault::UnexpectedEnd => RonError::UnexpectedEnd,
            RonFault::UnsupportedToken(c, p) => RonError::UnsupportedToken(c, p as int),
            RonFault::ExpectedIdentifier(p) => RonError::ExpectedIdentifier(p as int),
            RonFault::UnterminatedEscape => RonError::UnterminatedEscape,
            RonFault::UnsupportedEscape(c) => RonError::UnsupportedEscape(c),
            RonFault::UnterminatedString => RonError::UnterminatedString,
            RonFault::ExpectedNumber(p) => RonError::ExpectedNumber(p as int),
            RonFault::InvalidFloat(t) => RonError::InvalidFloat(t@),
            RonFault::InvalidInteger(t) => RonError::InvalidInteger(t@),
            RonFault::Expected(c, p) => RonError::Expected(c, p as int),
        }
    }
}

fn push_offset(out: &mut String, text: &Vec<char>, p: usize)
    ensures
        final(out)@ == old(out)@ + decimal(byte_offset(text@, p as int)),
{
    let q = if p <= text.len() {
        p
    } else {
        text.len()
    };
    let off = crate::text::byte_offset_of(text, q);
    crate::text::push_decimal(out, off);
}

fn render(f: &RonFault, text: &Vec<char>) -> (e: RonParseError)
    ensures
        e.message@ == error_message(text@, f.model()),
{
    let mut m = String::new();
    match f {
        RonFault::TrailingInput(p) => {
            m.append("Unexpected token at byte ");
            push_offset(&mut m, text, *p);
        },
        RonFault::UnexpectedEnd => {
            m.append("Unexpected end of RON");
        },
        RonFault::UnsupportedToken(c, p) => {
            m.append("Unsupported token '");
            m.push(*c);
            m.append("' at byte ");
            push_offset(&mut m, text, *p);
        },
        RonFault::ExpectedIdentifier(p) => {
            m.append("Expected identifier at byte ");
            push_offset(&mut m, text, *p);
        },
        RonFault::UnterminatedEscape => {
            m.append("Unterminated string escape");
        },
        RonFault::UnsupportedEscape(c) => {
            m.append("Unsupported string escape '\\");
            m.push(*c);
            m.append("'");
        },
        RonFault::UnterminatedString => {
            m.append("Unterminated string");
        },
        RonFault::ExpectedNumber(p) => {
            m.append("Expected number at byte ");
            push_offset(&mut m, text, *p);
        },
        RonFault::InvalidFloat(t) => {
            m.append("Invalid float literal \"");
            crate::text::push_chars(&mut m, t);
            m.append("\"");
        },
        RonFault::InvalidInteger(t) => {
            m.append("Invalid integer literal \"");
            crate::text::push_chars(&mut m, t);
            m.append("\"");
        },
        RonFault::Expected(c, p) => {
            m.append("Expected '");
            m.push(*c);
            m.append("' at byte ");
            push_offset(&mut m, text, *p);
        },
    }
    RonParseError { message: m }
}

} // verus!

verus! {

struct RonSubsetParser {
    text: Vec<char>,
    index: usize,
}


impl RonSubsetParser {
    fn new(text: &str) -> (p: Self)
        ensures
            p.text@ == text@,
            p.index == 0,
    {
        RonSubsetParser { text: crate::text::chars_of(text), index: 0 }
    }

    fn peek(&self) -> (c: char)
        ensures
            c == peek_at(self.text@, self.index as int),
    {
        if self.index < self.text.len() {
            self.text[self.index]
        } else {
            '\0'
        }
    }

    fn skip_ws(&mut self)
        requires
            old(self).index <= old(self).text.len(),
        ensures
            final(self).text@ == old(self).text@,
            final(self).index == skip_ws(old(self).text@, old(self).index as int),
    {
        let ghost s = self.text@;
        let ghost i0 = self.index as int;
        let mut done = false;
        while !done && self.index < self.text.len()
            invariant
                self.text@ == s,
                self.index <= self.text.len(),
                skip_ws(s, i0) == if done {
                    self.index as int
                } else {
                    skip_ws(s, self.index as int)
                },
            decreases self.text.len() - self.index, if done { 0int } else { 1int },
        {
            let i = self.index;
            if self.text[i] == '/' && i + 1 < self.text.len() && self.text[i + 1] == '/' {
                let mut j = i;
                while j < self.text.len() && self.text[j] != '\n'
                    invariant
                        i <= j <= self.text.len(),
                        self.text@ == s,
                        line_end(s, i as int) == line_end(s, j as int),
                    decreases self.text.len() - j,
                {
                    j = j + 1;
                }
                proof {
                    lemma_line_end(s, i as int);
                }
                self.index = if j < self.text.len() {
                    j + 1
                } else {
                    self.text.len()
                };
            } else if crate::text::whitespace(self.text[i]) {
                self.index = i + 1;
            } else {
                done = true;
            }
        }
    }

    fn expect(&mut self, expected: char) -> (r: Result<(), RonFault>)
        requires
            old(self).index <= old(self).text.len(),
            expected != '\0',
        ensures
            final(self).text@ == old(self).text@,
            final(self).index <= final(self).text.len(),
            spec_expect(old(self).text@, old(self).index as int, expected) matches Ok(k) ==> (r
                is Ok && final(self).index == k),
            spec_expect(old(self).text@, old(self).index as int, expected) matches Err(e) ==> (r
                matches Err(f) && f.model() == e),
    {
        proof {
            lemma_skip_ws(self.text@, self.index as int);
        }
        self.skip_ws();
        if self.peek() != expected {
            return Err(RonFault::Expected(expected, self.index));
        }
        self.index = self.index + 1;
        Ok(())
    }

    fn parse_identifier(&mut self) -> (r: Result<Vec<char>, RonFault>)
        requires
            old(self).index <= old(self).text.len(),
        ensures
            final(self).text@ == old(self).text@,
            final(self).index <= final(self).text.len(),
            spec_identifier(old(self).text@, old(self).index as int) matches Ok((t, j)) ==> (r
                matches Ok(v) && v@ == t && final(self).index == j),
            spec_identifier(old(self).text@, old(self).index as int) matches Err(e) ==> (r
                matches Err(f) && f.model() == e),
    {
        let ghost s = self.text@;
        proof {
            lemma_skip_ws(s, self.index as int);
        }
        self.skip_ws();
        let start = self.index;
        while self.index < self.text.len() && (crate::text::alnum(self.text[self.index])
            || self.text[self.index] == '_')
            invariant
                self.text@ == s,
                start <= self.index <= self.text.len(),
                ident_end(s, start as int) == ident_end(s, self.index as int),
            decreases self.text.len() - self.index,
        {
            self.index = self.index + 1;
        }
        if self.index == start {
            return Err(RonFault::ExpectedIdentifier(self.index));
        }
        Ok(slice_chars(&self.text, start, self.index))
    }

    fn parse_string(&mut self) -> (r: Result<Vec<char>, RonFault>)
        requires
            old(self).index <= old(self).text.len(),
        ensures
            final(self).text@ == old(self).text@,
            final(self).index <= final(self).text.len(),
            spec_string(old(self).text@, old(self).index as int) matches Ok((t, j)) ==> (r
                matches Ok(v) && v@ == t && final(self).index == j),
            spec_string(old(self).text@, old(self).index as int) matches Err(e) ==> (r
                matches Err(f) && f.model() == e),
    {
        let ghost s = self.text@;
        self.expect('"')?;
        let ghost k0 = self.index as int;
        let mut chars: Vec<char> = Vec::new();
        while self.index < self.text.len()
            invariant
                self.text@ == s,
                s == old(self).text@,
                spec_string(s, old(self).index as int) == string_body(s, k0),
                self.index <= self.text.len(),
                string_body(s, k0) == match string_body(s, self.index as int) {
                    Ok((rest, e)) => Ok((chars@ + rest, e)),
                    Err(x) => Err(x),
                },
            decreases self.text.len() - self.index,
        {
            let k = self.index;
            let ch = self.text[k];
            self.index = k + 1;
            if ch == '"' {
                assert(chars@ + Seq::<char>::empty() =~= chars@);
                return Ok(chars);
            }
            if ch == '\\' {
                if self.index >= self.text.len() {
                    return Err(RonFault::UnterminatedEscape);
                }
                let escaped = self.text[self.index];
                self.index = self.index + 1;
                let decoded = if escaped == '"' {
                    '"'
                } else if escaped == '\\' {
                    '\\'
                } else if escaped == 'n' {
                    '\n'
                } else if escaped == 'r' {
                    '\r'
                } else if escaped == 't' {
                    '\t'
                } else {
                    return Err(RonFault::UnsupportedEscape(escaped));
                };
                proof {
                    match string_body(s, self.index as int) {
                        Ok((rest, e)) => {
                            assert(chars@.push(decoded) + rest =~= chars@ + (seq![decoded]
                                + rest));
                        },
                        Err(x) => {},
                    }
                }
                chars.push(decoded);
            } else {
                proof {
                    match string_body(s, self.index as int) {
                        Ok((rest, e)) => {
                            assert(chars@.push(ch) + rest =~= chars@ + (seq![ch] + rest));
                        },
                        Err(x) => {},
                    }
                }
                chars.push(ch);
            }
        }
        Err(RonFault::UnterminatedString)
    }

    fn parse_key(&mut self) -> (r: Result<Vec<char>, RonFault>)
        requires
            old(self).index <= old(self).text.len(),
        ensures
            final(self).text@ == old(self).text@,
            final(self).index <= final(self).text.len(),
            spec_key(old(self).text@, old(self).index as int) matches Ok((t, j)) ==> (r matches Ok(
                v) && v@ == t && final(self).index == j),
            spec_key(old(self).text@, old(self).index as int) matches Err(e) ==> (r matches Err(f)
                && f.model() == e),
    {
        let ghost s = self.text@;
        proof {
            lemma_skip_ws(s, self.index as int);
        }
        self.skip_ws();
        if self.peek() == '"' {
            return self.parse_string();
        }
        self.parse_identifier()
    }

    fn looks_like_object_entry(&mut self) -> (r: bool)
        requires
            old(self).index <= old(self).text.len(),
        ensures
            final(self).text@ == old(self).text@,
            final(self).index == old(self).index,
            r == looks_like_entry(old(self).text@, old(self).index as int),
    {
        let snapshot = self.index;
        let is_object = match self.parse_key() {
            Ok(_) => {
                self.skip_ws();
                self.peek() == ':'
            },
            Err(_) => false,
        };
        self.index = snapshot;
        is_object
    }
}

} // verus!

verus! {

pub proof fn lemma_digits_value_push(d: Seq<char>, c: char)
    ensures
        digits_value(d.push(c)) == digits_value(d) * 10 + (c as int - '0' as int),
{
    assert(d.push(c).drop_last() =~= d);
}

impl RonSubsetParser {
    /// Advances over ASCII digits.
    fn skip_digits(&mut self)
        requires
            old(self).index <= old(self).text.len(),
        ensures
            final(self).text@ == old(self).text@,
            final(self).index == digits_end(old(self).text@, old(self).index as int),
    {
        let ghost s = self.text@;
        let ghost i0 = self.index as int;
        while self.index < self.text.len() && crate::text::digit(self.text[self.index])
            invariant
                self.text@ == s,
                i0 <= self.index <= self.text.len(),
                digits_end(s, i0) == digits_end(s, self.index as int),
            decreases self.text.len() - self.index,
        {
            self.index = self.index + 1;
        }
    }

    fn parse_number(&mut self) -> (r: Result<JsonValue, RonFault>)
        requires
            old(self).index <= old(self).text.len(),
            skip_ws(old(self).text@, old(self).index as int) == old(self).index,
        ensures
            final(self).text@ == old(self).text@,
            final(self).index <= final(self).text.len(),
            r is Ok ==> old(self).index < final(self).index,
            spec_number(old(self).text@, old(self).index as int) matches Ok((m, j)) ==> (r
                matches Ok(v) && v.model() == m && final(self).index == j),
            spec_number(old(self).text@, old(self).index as int) matches Err(e) ==> (r
                matches Err(f) && f.model() == e),
    {
        let ghost s = self.text@;
        self.skip_ws();
        let start = self.index;
        proof {
            lemma_digits_end(s, start as int);
        }
        if self.peek() == '-' {
            self.index = self.index + 1;
        }
        let sign_end = self.index;
        proof {
            lemma_digits_end(s, sign_end as int);
        }
        self.skip_digits();
        let int_end = self.index;
        let has_dot = self.peek() == '.';
        if has_dot {
            self.index = self.index + 1;
            proof {
                lemma_digits_end(s, self.index as int);
            }
            self.skip_digits();
        }
        let frac_end = self.index;
        let has_exp = self.peek() == 'e' || self.peek() == 'E';
        let mut exp_start = frac_end;
        if has_exp {
            self.index = self.index + 1;
            if self.peek() == '+' || self.peek() == '-' {
                self.index = self.index + 1;
            }
            exp_start = self.index;
            proof {
                lemma_digits_end(s, self.index as int);
            }
            self.skip_digits();
        }
        let end = self.index;
        assert(sign_end as int == number_sign_end(s, start as int));
        assert(int_end as int == number_int_end(s, start as int));
        assert(frac_end as int == number_frac_end(s, start as int));
        assert(end as int == number_end(s, start as int));
        let token = slice_chars(&self.text, start, end);
        let bare = token.len() == 0 || (token.len() == 1 && (token[0] == '-' || token[0] == '.'))
            || (token.len() == 2 && token[0] == '-' && token[1] == '.');
        assert(bare == is_bare_sign_or_dot(token@)) by {
            if token.len() == 1 {
                if token@[0] == '-' {
                    assert(token@ =~= seq!['-']);
                }
                if token@[0] == '.' {
                    assert(token@ =~= seq!['.']);
                }
            }
            if token.len() == 2 && token@[0] == '-' && token@[1] == '.' {
                assert(token@ =~= seq!['-', '.']);
            }
        }
        if bare {
            return Err(RonFault::ExpectedNumber(start));
        }
        if has_dot || has_exp {
            let frac_digits = if has_dot {
                frac_end - (int_end + 1)
            } else {
                0
            };
            let mantissa_ok = (int_end - sign_end) + frac_digits >= 1;
            let exp_ok = !has_exp || end > exp_start;
            if mantissa_ok && exp_ok && float_fits(&token) {
                return Ok(JsonValue::Number(JsonNumber::Float(crate::text::string_of(&token))));
            } else {
                return Err(RonFault::InvalidFloat(token));
            }
        }
        integer_literal(&self.text, start, sign_end, end, token)
    }
}

/// The integer that the digits in `text[sign_end..end]` spell, negated when a sign stands
/// before them, or the error for a literal outside the `i64` range.
fn integer_literal(text: &Vec<char>, start: usize, sign_end: usize, end: usize, token: Vec<char>) -> (r: Result<JsonValue, RonFault>)
    requires
        start <= sign_end <= end <= text.len(),
        sign_end <= start + 1,
        end as int == digits_end(text@, sign_end as int),
        token@ == text@.subrange(start as int, end as int),
    ensures
        ({
            let magnitude = digits_value(text@.subrange(sign_end as int, end as int));
            let value = if sign_end > start { -magnitude } else { magnitude };
            &&& (value < i64::MIN || value > i64::MAX) ==> (r matches Err(f) && f.model()
                == RonError::InvalidInteger(token@))
            &&& (i64::MIN <= value <= i64::MAX && value >= 0) ==> (r matches Ok(v) && v.model()
                == JsonModel::Number(NumberModel::PosInt(value as u64)))
            &&& (i64::MIN <= value <= i64::MAX && value < 0) ==> (r matches Ok(v) && v.model()
                == JsonModel::Number(NumberModel::NegInt(value as i64)))
        }),
{
    let ghost s = text@;
    proof {
        lemma_digits_end(s, sign_end as int);
    }
    let mut magnitude: u128 = 0;
    let mut too_big = false;
    let mut k = sign_end;
    let limit: u128 = 0x8000_0000_0000_0000;
    assert(s.subrange(sign_end as int, sign_end as int) =~= Seq::<char>::empty());
    while k < end
        invariant
            text@ == s,
            limit == 0x8000_0000_0000_0000,
            sign_end <= k <= end <= s.len(),
            end as int == digits_end(s, sign_end as int),
            forall|q: int| sign_end <= q < end ==> is_digit(#[trigger] s[q]),
            !too_big ==> magnitude == digits_value(s.subrange(sign_end as int, k as int))
                && magnitude <= limit,
            too_big ==> digits_value(s.subrange(sign_end as int, k as int)) > limit,
        decreases end - k,
    {
        let c = text[k];
        let d = (c as u32 - '0' as u32) as u128;
        proof {
            assert(s.subrange(sign_end as int, k + 1) =~= s.subrange(sign_end as int, k as int).push(c));
            lemma_digits_value_push(s.subrange(sign_end as int, k as int), c);
        }
        if !too_big {
            let next = magnitude * 10 + d;
            if next > limit {
                too_big = true;
            } else {
                magnitude = next;
            }
        }
        k = k + 1;
    }
    let negative = sign_end > start;
    if too_big || (negative && magnitude > limit) || (!negative && magnitude >= limit) {
        return Err(RonFault::InvalidInteger(token));
    }
    if !negative || magnitude == 0 {
        Ok(JsonValue::Number(JsonNumber::PosInt(magnitude as u64)))
    } else {
        let v: i128 = 0 - (magnitude as i128);
        Ok(JsonValue::Number(JsonNumber::NegInt(v as i64)))
    }
}

} // verus!

verus! {


/// The value of a bare identifier that does not name a group.
fn keyword(ident: Vec<char>) -> (v: JsonValue)
    ensures
        v.model() == keyword_value(ident@),
{
    if ident.len() == 4 && ident[0] == 't' && ident[1] == 'r' && ident[2] == 'u'
        && ident[3] == 'e' {
        assert(ident@ =~= seq!['t', 'r', 'u', 'e']);
        JsonValue::Bool(true)
    } else if ident.len() == 5 && ident[0] == 'f' && ident[1] == 'a' && ident[2] == 'l'
        && ident[3] == 's' && ident[4] == 'e' {
        assert(ident@ =~= seq!['f', 'a', 'l', 's', 'e']);
        assert(ident@ != seq!['t', 'r', 'u', 'e']);
        JsonValue::Bool(false)
    } else if ident.len() == 4 && ((ident[0] == 'n' && ident[1] == 'u' && ident[2] == 'l'
        && ident[3] == 'l') || (ident[0] == 'N' && ident[1] == 'o' && ident[2] == 'n'
        && ident[3] == 'e')) {
        assert(ident@ =~= seq!['n', 'u', 'l', 'l'] || ident@ =~= seq!['N', 'o', 'n', 'e']);
        assert(ident@ != seq!['t', 'r', 'u', 'e']);
        assert(ident@ != seq!['f', 'a', 'l', 's', 'e']);
        JsonValue::Null
    } else {
        proof {
            if ident@ == seq!['t', 'r', 'u', 'e'] {
                assert(ident@[0] == 't' && ident@[1] == 'r' && ident@[2] == 'u' && ident@[3] == 'e');
            }
            if ident@ == seq!['f', 'a', 'l', 's', 'e'] {
                assert(ident@[0] == 'f' && ident@[1] == 'a' && ident@[2] == 'l' && ident@[3] == 's' && ident@[4] == 'e');
            }
            if ident@ == seq!['n', 'u', 'l', 'l'] {
                assert(ident@[0] == 'n' && ident@[1] == 'u' && ident@[2] == 'l' && ident@[3] == 'l');
            }
            if ident@ == seq!['N', 'o', 'n', 'e'] {
                assert(ident@[0] == 'N' && ident@[1] == 'o' && ident@[2] == 'n' && ident@[3] == 'e');
            }
        }
        JsonValue::String(crate::text::string_of(&ident))
    }
}

impl RonSubsetParser {
    #[verifier::rlimit(40)]
    fn parse_value(&mut self) -> (r: Result<JsonValue, RonFault>)
        requires
            old(self).index <= old(self).text.len(),
        ensures
            final(self).text@ == old(self).text@,
            final(self).index <= final(self).text.len(),
            r is Ok ==> old(self).index < final(self).index,
            spec_value(old(self).text@, old(self).index as int) matches Ok((m, j)) ==> (r
                matches Ok(v) && v.model() == m && final(self).index == j),
            spec_value(old(self).text@, old(self).index as int) matches Err(e) ==> (r
                matches Err(f) && f.model() == e),
        decreases old(self).text.len() - old(self).index, 2int,
    {
        let ghost s = self.text@;
        proof {
            lemma_skip_ws(s, self.index as int);
        }
        self.skip_ws();
        if self.index >= self.text.len() {
            return Err(RonFault::UnexpectedEnd);
        }
        let ch = self.peek();
        if ch == '(' {
            return self.parse_group();
        }
        if ch == '[' {
            return self.parse_array();
        }
        if ch == '"' {
            proof {
                lemma_key_progress(s, self.index as int);
            }
            let t = self.parse_string()?;
            return Ok(JsonValue::String(crate::text::string_of(&t)));
        }
        if ch == '-' || crate::text::digit(ch) {
            proof {
                lemma_skip_ws(s, self.index as int);
            }
            return self.parse_number();
        }
        if crate::text::alpha(ch) || ch == '_' {
            return self.parse_word();
        }
        Err(RonFault::UnsupportedToken(ch, self.index))
    }

    /// An identifier: either the name of a group that follows it, or a keyword.
    fn parse_word(&mut self) -> (r: Result<JsonValue, RonFault>)
        requires
            old(self).index < old(self).text.len(),
            skip_ws(old(self).text@, old(self).index as int) == old(self).index,
            is_alpha(old(self).text@[old(self).index as int]) || old(self).text@[old(self).index as int] == '_',
        ensures
            final(self).text@ == old(self).text@,
            final(self).index <= final(self).text.len(),
            r is Ok ==> old(self).index < final(self).index,
            ({
                let s = old(self).text@;
                let a = old(self).index as int;
                let b2 = skip_ws(s, ident_end(s, a));
                if peek_at(s, b2) == '(' {
                    &&& spec_group(s, b2) matches Ok((m, j)) ==> (r matches Ok(v) && v.model() == m && final(self).index == j)
                    &&& spec_group(s, b2) matches Err(e) ==> (r matches Err(f) && f.model() == e)
                } else {
                    r matches Ok(v) && v.model() == keyword_value(s.subrange(a, ident_end(s, a))) && final(self).index == b2
                }
            }),
        decreases old(self).text.len() - old(self).index, 1int,
    {
        let ghost s = self.text@;
        let ghost a = self.index as int;
        proof {
            lemma_skip_ws(s, a);
            lemma_ident_end(s, a);
            lemma_ident_end(s, a + 1);
            assert(ident_end(s, a) == ident_end(s, a + 1));
            lemma_skip_ws(s, ident_end(s, a));
        }
        let ident = self.parse_identifier()?;
        self.skip_ws();
        if self.peek() == '(' {
            return self.parse_group();
        }
        Ok(keyword(ident))
    }

    fn parse_group(&mut self) -> (r: Result<JsonValue, RonFault>)
        requires
            old(self).index <= old(self).text.len(),
        ensures
            final(self).text@ == old(self).text@,
            final(self).index <= final(self).text.len(),
            r is Ok ==> old(self).index < final(self).index,
            spec_group(old(self).text@, old(self).index as int) matches Ok((m, j)) ==> (r
                matches Ok(v) && v.model() == m && final(self).index == j),
            spec_group(old(self).text@, old(self).index as int) matches Err(e) ==> (r
                matches Err(f) && f.model() == e),
        decreases old(self).text.len() - old(self).index, 1int,
    {
        let ghost s = self.text@;
        proof {
            lemma_skip_ws(s, self.index as int);
        }
        self.expect('(')?;
        proof {
            lemma_skip_ws(s, self.index as int);
        }
        self.skip_ws();
        if self.peek() == ')' {
            self.index = self.index + 1;
            let empty: Vec<(String, JsonValue)> = Vec::new();
            proof {
                crate::json::lemma_object_model(empty);
                assert(crate::json::entry_models(empty@) =~= Seq::empty());
            }
            return Ok(JsonValue::Object(empty));
        }
        if self.looks_like_object_entry() {
            return self.parse_object_body();
        }
        self.parse_sequence_body(')')
    }

    fn parse_array(&mut self) -> (r: Result<JsonValue, RonFault>)
        requires
            old(self).index <= old(self).text.len(),
        ensures
            final(self).text@ == old(self).text@,
            final(self).index <= final(self).text.len(),
            r is Ok ==> old(self).index < final(self).index,
            spec_array(old(self).text@, old(self).index as int) matches Ok((m, j)) ==> (r
                matches Ok(v) && v.model() == m && final(self).index == j),
            spec_array(old(self).text@, old(self).index as int) matches Err(e) ==> (r
                matches Err(f) && f.model() == e),
        decreases old(self).text.len() - old(self).index, 1int,
    {
        let ghost s = self.text@;
        proof {
            lemma_skip_ws(s, self.index as int);
        }
        self.expect('[')?;
        self.parse_sequence_body(']')
    }

    fn parse_object_body(&mut self) -> (r: Result<JsonValue, RonFault>)
        requires
            old(self).index <= old(self).text.len(),
        ensures
            final(self).text@ == old(self).text@,
            final(self).index <= final(self).text.len(),
            r is Ok ==> old(self).index < final(self).index,
            spec_object_body(old(self).text@, old(self).index as int, Seq::empty()) matches Ok((m, j))
                ==> (r matches Ok(v) && v.model() == m && final(self).index == j),
            spec_object_body(old(self).text@, old(self).index as int, Seq::empty()) matches Err(e)
                ==> (r matches Err(f) && f.model() == e),
        decreases old(self).text.len() - old(self).index, 3int,
    {
        let ghost s = self.text@;
        let ghost i0 = self.index as int;
        let mut result: Vec<(String, JsonValue)> = Vec::new();
        assert(crate::json::entry_models(result@) =~= Seq::empty());
        loop
            invariant
                self.text@ == s,
                s == old(self).text@,
                i0 == old(self).index,
                i0 <= self.index <= self.text.len(),
                spec_object_body(s, i0, Seq::empty()) == spec_object_body(
                    s,
                    self.index as int,
                    crate::json::entry_models(result@),
                ),
            decreases self.text.len() - self.index,
        {
            let ghost i = self.index as int;
            let ghost acc = crate::json::entry_models(result@);
            proof {
                lemma_skip_ws(s, i);
            }
            self.skip_ws();
            if self.peek() == ')' {
                self.index = self.index + 1;
                proof {
                    crate::json::lemma_object_model(result);
                }
                return Ok(JsonValue::Object(result));
            }
            proof {
                lemma_key_progress(s, self.index as int);
            }
            let key = self.parse_key()?;
            let ghost j = self.index as int;
            proof {
                lemma_skip_ws(s, j);
            }
            self.skip_ws();
            self.expect(':')?;
            let value = self.parse_value()?;
            let ghost vm = value.model();
            crate::json::insert_entry(&mut result, crate::text::string_of(&key), value);
            let ghost k = self.index as int;
            proof {
                lemma_skip_ws(s, k);
            }
            self.skip_ws();
            if self.peek() == ',' {
                self.index = self.index + 1;
            }
            assert(self.index as int == after_element(s, k));
            assert(crate::json::entry_models(result@) == crate::json::object_insert(acc, key@, vm));
        }
    }

    #[verifier::rlimit(40)]
    fn parse_sequence_body(&mut self, close: char) -> (r: Result<JsonValue, RonFault>)
        requires
            old(self).index <= old(self).text.len(),
            close == ')' || close == ']',
        ensures
            final(self).text@ == old(self).text@,
            final(self).index <= final(self).text.len(),
            r is Ok ==> old(self).index < final(self).index,
            spec_list_body(old(self).text@, old(self).index as int, close, Seq::empty()) matches Ok(
                (m, j),
            ) ==> (r matches Ok(v) && v.model() == m && final(self).index == j),
            spec_list_body(old(self).text@, old(self).index as int, close, Seq::empty()) matches Err(
                e,
            ) ==> (r matches Err(f) && f.model() == e),
        decreases old(self).text.len() - old(self).index, 3int,
    {
        let ghost s = self.text@;
        let ghost i0 = self.index as int;
        let mut result: Vec<JsonValue> = Vec::new();
        assert(crate::json::models(result@) =~= Seq::empty());
        loop
            invariant
                self.text@ == s,
                s == old(self).text@,
                close == ')' || close == ']',
                i0 == old(self).index,
                i0 <= self.index <= self.text.len(),
                spec_list_body(s, i0, close, Seq::empty()) == spec_list_body(
                    s,
                    self.index as int,
                    close,
                    crate::json::models(result@),
                ),
            decreases self.text.len() - self.index,
        {
            let ghost i = self.index as int;
            let ghost acc = crate::json::models(result@);
            proof {
                lemma_skip_ws(s, i);
            }
            self.skip_ws();
            if self.peek() == close {
                assert(self.index < self.text.len());
                self.index = self.index + 1;
                proof {
                    crate::json::lemma_array_model(result);
                }
                return Ok(JsonValue::Array(result));
            }
            let value = self.parse_value()?;
            let ghost vm = value.model();
            result.push(value);
            assert(crate::json::models(result@) =~= acc.push(vm));
            let ghost k = self.index as int;
            proof {
                lemma_skip_ws(s, k);
            }
            self.skip_ws();
            if self.peek() == ',' {
                self.index = self.index + 1;
            }
            assert(self.index as int == after_element(s, k));
        }
    }

    fn parse(self) -> (r: Result<JsonValue, RonFault>)
        requires
            self.index == 0,
        ensures
            spec_parse(self.text@) matches Ok(m) ==> (r matches Ok(v) && v.model() == m),
            spec_parse(self.text@) matches Err(e) ==> (r matches Err(f) && f.model() == e),
    {
        let mut parser = self;
        let value = parser.parse_value()?;
        parser.skip_ws();
        if parser.index != parser.text.len() {
            return Err(RonFault::TrailingInput(parser.index));
        }
        Ok(value)
    }
}

/// Parses RON text of the AA contract subset into a JSON value tree.
///
/// Objects are `(key: value, ...)` groups (keys are identifiers or strings,
/// later duplicates replace earlier ones), other groups and `[...]` are
/// arrays, an identifier followed by a group names that group, `true`,
/// `false`, `null` and `None` are keywords and other identifiers are strings.
pub fn parse_ron_subset(text: &str) -> (r: Result<JsonValue, RonParseError>)
    ensures
        spec_parse(text@) matches Ok(m) ==> (r matches Ok(v) && v.model() == m),
        spec_parse(text@) matches Err(e) ==> (r matches Err(err) && err.message@ == error_message(
            text@,
            e,
        )),
        r matches Ok(v) ==> json_wf(v.model()),
{
    proof {
        lemma_value_wf(text@, 0);
    }
    let parser = RonSubsetParser::new(text);
    let chars = crate::text::chars_of(text);
    match parser.parse() {
        Ok(v) => Ok(v),
        Err(f) => Err(render(&f, &chars)),
    }
}

} // verus!
