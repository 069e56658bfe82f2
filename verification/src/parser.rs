//! A recursive-descent parser for dice notation.
//!
//! Grammar (whitespace may stand between tokens):
//! `expr := term (('+' | '-') term)*`,
//! `term := i32 | count 'd' sides [('kh' | 'kl') [n]]`.

use vstd::prelude::*;

use crate::ast::{DiceExpr, Keep, RollSpec};
use crate::error::{
    decimal_text, digit_char, message_defined, result_view, DiceError, DiceErrorView,
    ParseErrorKind,
};
use crate::text::{
    byte_offset, decimal_of, decimal_value, digit_value, is_ascii_digit, is_digit_char, is_white_space,
    is_white_space_char, lemma_byte_offset_monotone, lemma_byte_offset_step, utf8_width,
};

verus! {

broadcast use vstd::string::group_string_axioms;

/// `skip_digits` moves forward and stops inside the input, on a non-digit.
pub proof fn lemma_skip_digits(s: Seq<char>, i: int)
    requires
        0 <= i <= s.len(),
    ensures
        i <= skip_digits(s, i) <= s.len(),
        skip_digits(s, i) < s.len() ==> !is_digit_char(s[skip_digits(s, i)]),
    decreases s.len() - i,
{
    if i < s.len() && is_digit_char(s[i]) {
        lemma_skip_digits(s, i + 1);
    }
}

/// `skip_white_space` moves forward and stops inside the input, on a non-whitespace character.
pub proof fn lemma_skip_white_space(s: Seq<char>, i: int)
    requires
        0 <= i <= s.len(),
    ensures
        i <= skip_white_space(s, i) <= s.len(),
        skip_white_space(s, i) < s.len() ==> !is_white_space_char(s[skip_white_space(s, i)]),
    decreases s.len() - i,
{
    if i < s.len() && is_white_space_char(s[i]) {
        lemma_skip_white_space(s, i + 1);
    }
}

/// The character at index `i`, if there is one.
pub open spec fn char_at(s: Seq<char>, i: int) -> Option<char> {
    if 0 <= i < s.len() {
        Some(s[i])
    } else {
        None
    }
}

/// The first index at or after `i` that does not hold whitespace.
pub open spec fn skip_white_space(s: Seq<char>, i: int) -> int
    decreases s.len() - i,
{
    if 0 <= i < s.len() && is_white_space_char(s[i]) {
        skip_white_space(s, i + 1)
    } else {
        i
    }
}

/// The first index at or after `i` that does not hold an ASCII digit.
pub open spec fn skip_digits(s: Seq<char>, i: int) -> int
    decreases s.len() - i,
{
    if 0 <= i < s.len() && is_digit_char(s[i]) {
        skip_digits(s, i + 1)
    } else {
        i
    }
}

/// The error for a number that was not found or not readable, between character indices.
pub open spec fn number_error(s: Seq<char>, kind: ParseErrorKind, from: int, to: Option<int>) -> DiceErrorView {
    DiceErrorView::ParseError {
        kind,
        input: s,
        start: byte_offset(s, from),
        stop: match to {
            Some(t) => Some(byte_offset(s, t)),
            None => None,
        },
    }
}

/// The syntax error for the term that starts at `from`, detected at `to`.
pub open spec fn syntax_error(s: Seq<char>, from: int, to: int, expected: Seq<char>) -> DiceErrorView {
    DiceErrorView::SyntaxError {
        input: s,
        start: byte_offset(s, from),
        stop: Some(byte_offset(s, to)),
        expected: Some(expected),
    }
}

/// What a syntax error says when a negative count precedes `d`.
pub open spec fn negative_count_expected() -> Seq<char> {
    "non-negative value for dice count"@
}

/// What a syntax error says when `k` is followed by neither `h` nor `l`.
pub open spec fn keep_kind_expected() -> Seq<char> {
    "'kh' for keep highest or 'kl' for keep lowest"@
}

/// Reading a `u32` at index `i`: the result and the index after it.
pub open spec fn spec_parse_u32(s: Seq<char>, i: int) -> (Result<u32, DiceErrorView>, int) {
    let a = skip_white_space(s, i);
    let b = skip_digits(s, a);
    let value = decimal_of(s.subrange(a, b));
    if b == a {
        (Err(number_error(s, ParseErrorKind::ExpectedNumber, a, None)), b)
    } else if value > u32::MAX {
        (Err(number_error(s, ParseErrorKind::InvalidU32, a, Some(b))), b)
    } else {
        (Ok(value as u32), b)
    }
}

/// Reading an `i32`, with an optional leading `-`, at index `i`: the result and the index after it.
pub open spec fn spec_parse_i32(s: Seq<char>, i: int) -> (Result<i32, DiceErrorView>, int) {
    let a = skip_white_space(s, i);
    let negative = char_at(s, a) == Some('-');
    let k = if negative {
        a + 1
    } else {
        a
    };
    let b = skip_digits(s, k);
    let magnitude = decimal_of(s.subrange(k, b));
    let value: int = if negative {
        -magnitude
    } else {
        magnitude as int
    };
    if !negative && b == a {
        (Err(number_error(s, ParseErrorKind::ExpectedNumber, a, None)), b)
    } else if negative && b == k {
        (Err(number_error(s, ParseErrorKind::ExpectedNumber, a, Some(b))), b)
    } else if value < i32::MIN || value > i32::MAX {
        (Err(number_error(s, ParseErrorKind::InvalidI32, a, Some(b))), b)
    } else {
        (Ok(value as i32), b)
    }
}

/// Reading the optional keep suffix of a roll, whose `k` stands at index `q`.
pub open spec fn spec_parse_keep(s: Seq<char>, term_start: int, q: int) -> (
    Result<Keep, DiceErrorView>,
    int,
) {
    let kind = char_at(s, q + 1);
    if kind == Some('h') || kind == Some('l') {
        let r = skip_white_space(s, q + 2);
        let (n, p): (Result<u32, DiceErrorView>, int) = if r < s.len() && is_digit_char(s[r]) {
            spec_parse_u32(s, r)
        } else {
            (Ok(1u32), r)
        };
        match n {
            Err(e) => (Err(e), p),
            Ok(n) => (
                Ok(
                    if kind == Some('h') {
                        Keep::Highest(n)
                    } else {
                        Keep::Lowest(n)
                    },
                ),
                p,
            ),
        }
    } else {
        (Err(syntax_error(s, term_start, q + 1, keep_kind_expected())), q + 1)
    }
}

/// Reading a term (a literal or a roll) at index `i`: the result and the index after it.
#[verifier::opaque]
pub open spec fn spec_parse_term(s: Seq<char>, i: int) -> (Result<DiceExpr, DiceErrorView>, int) {
    let (count, p) = spec_parse_i32(s, i);
    match count {
        Err(e) => (Err(e), p),
        Ok(count) => {
            let q = skip_white_space(s, p);
            if char_at(s, q) == Some('d') {
                if count < 0 {
                    (Err(syntax_error(s, i, q, negative_count_expected())), q)
                } else {
                    let (sides, p2) = spec_parse_u32(s, q + 1);
                    match sides {
                        Err(e) => (Err(e), p2),
                        Ok(sides) => {
                            let q2 = skip_white_space(s, p2);
                            if char_at(s, q2) == Some('k') {
                                let (keep, p3) = spec_parse_keep(s, i, q2);
                                match keep {
                                    Err(e) => (Err(e), p3),
                                    Ok(keep) => (
                                        Ok(
                                            DiceExpr::Roll(
                                                RollSpec { count: count as u32, sides, keep: Some(keep) },
                                            ),
                                        ),
                                        p3,
                                    ),
                                }
                            } else {
                                (
                                    Ok(
                                        DiceExpr::Roll(
                                            RollSpec { count: count as u32, sides, keep: None },
                                        ),
                                    ),
                                    q2,
                                )
                            }
                        },
                    }
                }
            } else {
                (Ok(DiceExpr::Literal(count)), q)
            }
        },
    }
}

/// Reading the `+ term` and `- term` parts that follow `node`, from index `i`, left to right.
pub open spec fn spec_parse_rest(s: Seq<char>, i: int, node: DiceExpr) -> (
    Result<DiceExpr, DiceErrorView>,
    int,
)
    decreases s.len() - i,
{
    let j = skip_white_space(s, i);
    let op = char_at(s, j);
    if op == Some('+') || op == Some('-') {
        let (rhs, k) = spec_parse_term(s, j + 1);
        match rhs {
            Err(e) => (Err(e), k),
            Ok(rhs) => {
                let combined = if op == Some('+') {
                    DiceExpr::Sum(Box::new(node), Box::new(rhs))
                } else {
                    DiceExpr::Difference(Box::new(node), Box::new(rhs))
                };
                if i < k <= s.len() {
                    spec_parse_rest(s, k, combined)
                } else {
                    (Ok(combined), k)
                }
            },
        }
    } else {
        (Ok(node), j)
    }
}

/// Reading an expression at index `i`: the result and the index after it.
pub open spec fn spec_parse_expr(s: Seq<char>, i: int) -> (Result<DiceExpr, DiceErrorView>, int) {
    let (first, p) = spec_parse_term(s, i);
    match first {
        Err(e) => (Err(e), p),
        Ok(first) => spec_parse_rest(s, p, first),
    }
}

/// Reading an expression at index `i` that must run to the end of the input.
pub open spec fn spec_parse_all(s: Seq<char>, i: int) -> (Result<DiceExpr, DiceErrorView>, int) {
    let (e, p) = spec_parse_expr(s, i);
    match e {
        Err(e) => (Err(e), p),
        Ok(e) => {
            let j = skip_white_space(s, p);
            if j < s.len() {
                (Err(DiceErrorView::TrailingInput { input: s, pos: byte_offset(s, j) }), j)
            } else {
                (Ok(e), j)
            }
        },
    }
}

/// What parsing the whole of `s` gives.
pub open spec fn parse_spec(s: Seq<char>) -> Result<DiceExpr, DiceErrorView> {
    spec_parse_all(s, 0).0
}

impl DiceExpr {
    /// Parses dice notation such as `2d6 + 3` or `4d6kh3 - 1`.
    pub fn parse(input: &str) -> (r: Result<DiceExpr, DiceError>)
        ensures
            result_view(r) == parse_spec(input@),
    {
        let mut parser = Parser::new(input);
        parser.parse()
    }
}

/// The number of bytes of the UTF-8 encoding of `s`.
pub open spec fn byte_len(s: Seq<char>) -> nat {
    byte_offset(s, s.len() as int)
}

/// A number or syntax error about the input `s` whose start and stop lie within the input's
/// bytes, the stop not before the start.
pub open spec fn marks_within(s: Seq<char>, e: DiceErrorView) -> bool {
    match e {
        DiceErrorView::ParseError { input, start, stop, .. } => {
            &&& input == s
            &&& start <= byte_len(s)
            &&& stop matches Some(i) ==> start <= i <= byte_len(s)
        },
        DiceErrorView::SyntaxError { input, start, stop, .. } => {
            &&& input == s
            &&& start <= byte_len(s)
            &&& stop matches Some(i) ==> start <= i <= byte_len(s)
        },
        _ => false,
    }
}

/// Trailing input in `s` at byte `pos`: a character that is not whitespace starts there, and the
/// characters before it parse.
pub open spec fn trailing_after_expression(s: Seq<char>, e: DiceErrorView) -> bool {
    match e {
        DiceErrorView::TrailingInput { input, pos } => {
            &&& input == s
            &&& exists|j: int|
                0 <= j < s.len() && pos == byte_offset(s, j) && !is_white_space_char(s[j])
                    && #[trigger] parse_spec(s.take(j)) is Ok
        },
        _ => false,
    }
}

proof fn lemma_u32_positions(s: Seq<char>, i: int)
    requires
        0 <= i <= s.len(),
    ensures
        i <= spec_parse_u32(s, i).1 <= s.len(),
        spec_parse_u32(s, i).0 matches Err(e) ==> marks_within(s, e),
{
    let a = skip_white_space(s, i);
    lemma_skip_white_space(s, i);
    lemma_skip_digits(s, a);
    let b = skip_digits(s, a);
    lemma_byte_offset_monotone(s, a, b);
    lemma_byte_offset_monotone(s, b, s.len() as int);
}

proof fn lemma_i32_positions(s: Seq<char>, i: int)
    requires
        0 <= i <= s.len(),
    ensures
        i <= spec_parse_i32(s, i).1 <= s.len(),
        spec_parse_i32(s, i).0 matches Err(e) ==> marks_within(s, e),
{
    let a = skip_white_space(s, i);
    lemma_skip_white_space(s, i);
    let k = if char_at(s, a) == Some('-') {
        a + 1
    } else {
        a
    };
    lemma_skip_digits(s, k);
    let b = skip_digits(s, k);
    lemma_byte_offset_monotone(s, a, b);
    lemma_byte_offset_monotone(s, b, s.len() as int);
}

proof fn lemma_term_positions(s: Seq<char>, i: int)
    requires
        0 <= i <= s.len(),
    ensures
        i <= spec_parse_term(s, i).1 <= s.len(),
        spec_parse_term(s, i).0 matches Err(e) ==> marks_within(s, e),
{
    reveal(spec_parse_term);
    lemma_i32_positions(s, i);
    let p = spec_parse_i32(s, i).1;
    lemma_skip_white_space(s, p);
    let q = skip_white_space(s, p);
    if char_at(s, q) == Some('d') {
        lemma_byte_offset_monotone(s, i, q);
        lemma_byte_offset_monotone(s, q, s.len() as int);
        lemma_u32_positions(s, q + 1);
        let p2 = spec_parse_u32(s, q + 1).1;
        lemma_skip_white_space(s, p2);
        let q2 = skip_white_space(s, p2);
        if char_at(s, q2) == Some('k') {
            lemma_byte_offset_monotone(s, i, q2 + 1);
            lemma_byte_offset_monotone(s, q2 + 1, s.len() as int);
            let kind = char_at(s, q2 + 1);
            if kind == Some('h') || kind == Some('l') {
                lemma_skip_white_space(s, q2 + 2);
                let r = skip_white_space(s, q2 + 2);
                if r < s.len() && is_digit_char(s[r]) {
                    lemma_u32_positions(s, r);
                }
            }
        }
    }
}

proof fn lemma_rest_positions(s: Seq<char>, i: int, node: DiceExpr)
    requires
        0 <= i <= s.len(),
    ensures
        i <= spec_parse_rest(s, i, node).1 <= s.len(),
        spec_parse_rest(s, i, node).0 matches Err(e) ==> marks_within(s, e),
    decreases s.len() - i,
{
    lemma_skip_white_space(s, i);
    let j = skip_white_space(s, i);
    let op = char_at(s, j);
    if op == Some('+') || op == Some('-') {
        lemma_term_positions(s, j + 1);
        let (rhs, k) = spec_parse_term(s, j + 1);
        if let Ok(rhs) = rhs {
            let combined = if op == Some('+') {
                DiceExpr::Sum(Box::new(node), Box::new(rhs))
            } else {
                DiceExpr::Difference(Box::new(node), Box::new(rhs))
            };
            if i < k <= s.len() {
                lemma_rest_positions(s, k, combined);
            }
        }
    }
}

proof fn lemma_skip_white_space_prefix(s: Seq<char>, j: int, i: int)
    requires
        0 <= i <= j <= s.len(),
        skip_white_space(s, i) <= j,
    ensures
        skip_white_space(s.take(j), i) == skip_white_space(s, i),
    decreases s.len() - i,
{
    if i < s.len() && is_white_space_char(s[i]) {
        lemma_skip_white_space(s, i + 1);
        lemma_skip_white_space_prefix(s, j, i + 1);
    }
}

proof fn lemma_skip_digits_prefix(s: Seq<char>, j: int, i: int)
    requires
        0 <= i <= j <= s.len(),
        skip_digits(s, i) <= j,
    ensures
        skip_digits(s.take(j), i) == skip_digits(s, i),
    decreases s.len() - i,
{
    if i < s.len() && is_digit_char(s[i]) {
        lemma_skip_digits(s, i + 1);
        lemma_skip_digits_prefix(s, j, i + 1);
    }
}

proof fn lemma_u32_prefix(s: Seq<char>, j: int, i: int)
    requires
        0 <= i <= j <= s.len(),
        spec_parse_u32(s, i).0 is Ok,
        spec_parse_u32(s, i).1 <= j,
    ensures
        spec_parse_u32(s.take(j), i) == spec_parse_u32(s, i),
{
    lemma_skip_white_space(s, i);
    let a = skip_white_space(s, i);
    lemma_skip_digits(s, a);
    lemma_skip_white_space_prefix(s, j, i);
    lemma_skip_digits_prefix(s, j, a);
    let b = skip_digits(s, a);
    assert(s.take(j).subrange(a, b) =~= s.subrange(a, b));
}

proof fn lemma_i32_prefix(s: Seq<char>, j: int, i: int)
    requires
        0 <= i <= j <= s.len(),
        spec_parse_i32(s, i).0 is Ok,
        spec_parse_i32(s, i).1 <= j,
    ensures
        spec_parse_i32(s.take(j), i) == spec_parse_i32(s, i),
{
    lemma_skip_white_space(s, i);
    let a = skip_white_space(s, i);
    let k = if char_at(s, a) == Some('-') {
        a + 1
    } else {
        a
    };
    lemma_skip_digits(s, k);
    lemma_skip_white_space_prefix(s, j, i);
    lemma_skip_digits_prefix(s, j, k);
    let b = skip_digits(s, k);
    assert(s.take(j).subrange(k, b) =~= s.subrange(k, b));
}

proof fn lemma_term_prefix(s: Seq<char>, j: int, i: int)
    requires
        0 <= i <= j <= s.len(),
        spec_parse_term(s, i).0 is Ok,
        spec_parse_term(s, i).1 <= j,
    ensures
        spec_parse_term(s.take(j), i) == spec_parse_term(s, i),
{
    reveal(spec_parse_term);
    let t = s.take(j);
    lemma_i32_positions(s, i);
    let p = spec_parse_i32(s, i).1;
    lemma_skip_white_space(s, p);
    let q = skip_white_space(s, p);
    if char_at(s, q) == Some('d') {
        lemma_u32_positions(s, q + 1);
        let p2 = spec_parse_u32(s, q + 1).1;
        lemma_skip_white_space(s, p2);
        let q2 = skip_white_space(s, p2);
        if char_at(s, q2) == Some('k') {
            lemma_skip_white_space(s, q2 + 2);
            let r = skip_white_space(s, q2 + 2);
            if r < s.len() && is_digit_char(s[r]) {
                lemma_u32_positions(s, r);
                lemma_skip_digits(s, r);
                if r == j {
                    assert(skip_digits(s, r) > r);
                }
                lemma_u32_prefix(s, j, r);
            }
            lemma_skip_white_space_prefix(s, j, q2 + 2);
        }
        lemma_skip_white_space_prefix(s, j, p2);
        lemma_u32_prefix(s, j, q + 1);
    }
    lemma_i32_prefix(s, j, i);
    lemma_skip_white_space_prefix(s, j, p);
}

proof fn lemma_rest_prefix(s: Seq<char>, j: int, i: int, node: DiceExpr)
    requires
        0 <= i <= j <= s.len(),
        spec_parse_rest(s, i, node).0 is Ok,
        spec_parse_rest(s, i, node).1 <= j,
    ensures
        spec_parse_rest(s.take(j), i, node) == spec_parse_rest(s, i, node),
    decreases s.len() - i,
{
    lemma_skip_white_space(s, i);
    let jj = skip_white_space(s, i);
    let op = char_at(s, jj);
    if op == Some('+') || op == Some('-') {
        lemma_term_positions(s, jj + 1);
        let (rhs, k) = spec_parse_term(s, jj + 1);
        if let Ok(rhs) = rhs {
            let combined = if op == Some('+') {
                DiceExpr::Sum(Box::new(node), Box::new(rhs))
            } else {
                DiceExpr::Difference(Box::new(node), Box::new(rhs))
            };
            if i < k <= s.len() {
                lemma_rest_positions(s, k, combined);
                lemma_rest_prefix(s, j, k, combined);
            }
            lemma_term_prefix(s, j, jj + 1);
        }
    }
    lemma_skip_white_space_prefix(s, j, i);
}

/// Parsing fails only in two ways. Either a number or syntax error about the input itself
/// marks bytes of the input, its stop not before its start; or trailing input is reported at
/// the byte offset of a character that is not whitespace, and the characters before that one
/// parse. Every error of parsing therefore has a message (`message_defined`, what
/// `DiceError::to_string` requires).
pub proof fn law_parse_errors_are_markable(s: Seq<char>)
    ensures
        parse_spec(s) matches Err(e) ==> (marks_within(s, e) || trailing_after_expression(s, e)),
        parse_spec(s) matches Err(e) ==> message_defined(e),
{
    lemma_term_positions(s, 0);
    let (first, p) = spec_parse_term(s, 0);
    if let Ok(first) = first {
        lemma_rest_positions(s, p, first);
        let q = spec_parse_rest(s, p, first).1;
        lemma_skip_white_space(s, q);
        let jj = skip_white_space(s, q);
        if jj < s.len() && spec_parse_rest(s, p, first).0 is Ok {
            let t = s.take(jj);
            lemma_term_prefix(s, jj, 0);
            lemma_rest_prefix(s, jj, p, first);
            lemma_skip_white_space_prefix(s, jj, q);
            assert(parse_spec(t) is Ok);
        }
    }
}

/// Every character of `w` is whitespace.
pub open spec fn all_white_space(w: Seq<char>) -> bool {
    forall|i: int| 0 <= i < w.len() ==> #[trigger] is_white_space_char(w[i])
}

/// Two results agree: both succeed with the same value, or both fail.
pub open spec fn same_outcome<T>(a: Result<T, DiceErrorView>, b: Result<T, DiceErrorView>) -> bool {
    match a {
        Ok(x) => b == Ok::<T, DiceErrorView>(x),
        Err(_) => b is Err,
    }
}

/// `s` with `w` inserted before its index `m`.
pub open spec fn insert_at(s: Seq<char>, m: int, w: Seq<char>) -> Seq<char> {
    s.take(m) + w + s.skip(m)
}

/// Index `m` of `s` lies between two tokens: not inside a number, not between a `-` and a
/// digit, and not between a `k` and the `h` or `l` after it.
pub open spec fn between_tokens(s: Seq<char>, m: int) -> bool {
    &&& 0 <= m <= s.len()
    &&& 0 < m < s.len() ==> !((is_digit_char(s[m - 1]) || s[m - 1] == '-') && is_digit_char(
        s[m],
    ))
    &&& 0 < m < s.len() ==> !(s[m - 1] == 'k' && (s[m] == 'h' || s[m] == 'l'))
}

/// Index `i` of `s` and index `j` of `insert_at(s, m, w)` hold the same character, or both
/// lie at the end.
spec fn same_place(s: Seq<char>, m: int, w: Seq<char>, i: int, j: int) -> bool {
    &&& 0 <= i <= s.len()
    &&& j == if i < m {
        i
    } else {
        i + w.len()
    }
}

/// Index `i` of `s` and index `j` of `insert_at(s, m, w)` stand for the same place, or `i` is
/// `m` and `j` lies in the inserted `w` or right after it.
spec fn near_place(s: Seq<char>, m: int, w: Seq<char>, i: int, j: int) -> bool {
    ||| same_place(s, m, w, i, j)
    ||| i == m && m <= j <= m + w.len()
}

proof fn lemma_skip_white_space_inserted(s: Seq<char>, m: int, w: Seq<char>, i: int, j: int)
    requires
        0 <= m <= s.len(),
        all_white_space(w),
        near_place(s, m, w, i, j),
    ensures
        same_place(s, m, w, skip_white_space(s, i), skip_white_space(insert_at(s, m, w), j)),
    decreases s.len() - i, s.len() + w.len() - j,
{
    let t = insert_at(s, m, w);
    lemma_skip_white_space(s, i);
    if i == m && j < m + w.len() {
        assert(t[j] == w[j - m]);
        lemma_skip_white_space_inserted(s, m, w, i, j + 1);
    } else if i < s.len() {
        assert(t[j] == s[i]);
        if is_white_space_char(s[i]) {
            lemma_skip_white_space_inserted(s, m, w, i + 1, j + 1);
        }
    }
}

proof fn lemma_skip_digits_inserted(s: Seq<char>, m: int, w: Seq<char>, i: int, j: int)
    requires
        between_tokens(s, m),
        all_white_space(w),
        near_place(s, m, w, i, j),
        i == m && j < m + w.len() ==> m == s.len() || !is_digit_char(s[m]),
    ensures
        near_place(s, m, w, skip_digits(s, i), skip_digits(insert_at(s, m, w), j)),
        insert_at(s, m, w).subrange(j, skip_digits(insert_at(s, m, w), j)) == s.subrange(
            i,
            skip_digits(s, i),
        ),
        (skip_digits(insert_at(s, m, w), j) == j) == (skip_digits(s, i) == i),
    decreases s.len() - i,
{
    let t = insert_at(s, m, w);
    lemma_skip_digits(s, i);
    lemma_skip_digits(t, j);
    if i == m && j < m + w.len() {
        assert(t[j] == w[j - m]);
        assert(is_white_space_char(w[j - m]));
        assert(t.subrange(j, j) =~= s.subrange(i, i));
    } else if i < s.len() {
        assert(t[j] == s[i]);
        if is_digit_char(s[i]) {
            if i + 1 == m {
                if m < s.len() {
                    assert(!is_digit_char(s[m]));
                }
                if j + 1 < t.len() {
                    if w.len() > 0 {
                        assert(t[j + 1] == w[0]);
                        assert(is_white_space_char(w[0]));
                    } else {
                        assert(t[j + 1] == s[m]);
                    }
                }
                assert(skip_digits(s, i + 1) == i + 1);
                assert(skip_digits(t, j + 1) == j + 1);
            } else {
                lemma_skip_digits_inserted(s, m, w, i + 1, j + 1);
            }
            let e = skip_digits(s, i);
            let e2 = skip_digits(t, j);
            assert(t.subrange(j, e2) =~= seq![t[j]] + t.subrange(j + 1, e2));
            assert(s.subrange(i, e) =~= seq![s[i]] + s.subrange(i + 1, e));
            if i + 1 == m {
                assert(t.subrange(j + 1, e2) =~= s.subrange(i + 1, e));
            }
        } else {
            assert(t.subrange(j, j) =~= s.subrange(i, i));
        }
    } else {
        assert(t.subrange(j, j) =~= s.subrange(i, i));
    }
}

proof fn lemma_u32_inserted(s: Seq<char>, m: int, w: Seq<char>, i: int, j: int)
    requires
        between_tokens(s, m),
        all_white_space(w),
        near_place(s, m, w, i, j),
    ensures
        same_outcome(spec_parse_u32(insert_at(s, m, w), j).0, spec_parse_u32(s, i).0),
        near_place(s, m, w, spec_parse_u32(s, i).1, spec_parse_u32(insert_at(s, m, w), j).1),
{
    let t = insert_at(s, m, w);
    lemma_skip_white_space_inserted(s, m, w, i, j);
    let a = skip_white_space(s, i);
    let a2 = skip_white_space(t, j);
    lemma_skip_digits_inserted(s, m, w, a, a2);
}

proof fn lemma_i32_inserted(s: Seq<char>, m: int, w: Seq<char>, i: int, j: int)
    requires
        between_tokens(s, m),
        all_white_space(w),
        near_place(s, m, w, i, j),
    ensures
        same_outcome(spec_parse_i32(insert_at(s, m, w), j).0, spec_parse_i32(s, i).0),
        near_place(s, m, w, spec_parse_i32(s, i).1, spec_parse_i32(insert_at(s, m, w), j).1),
{
    let t = insert_at(s, m, w);
    lemma_skip_white_space(s, i);
    lemma_skip_white_space_inserted(s, m, w, i, j);
    let a = skip_white_space(s, i);
    let a2 = skip_white_space(t, j);
    if a < s.len() {
        assert(t[a2] == s[a]);
    }
    let negative = char_at(s, a) == Some('-');
    let k = if negative {
        a + 1
    } else {
        a
    };
    let k2 = if char_at(t, a2) == Some('-') {
        a2 + 1
    } else {
        a2
    };
    lemma_skip_digits_inserted(s, m, w, k, k2);
}

proof fn lemma_keep_inserted(
    s: Seq<char>,
    m: int,
    w: Seq<char>,
    start: int,
    start2: int,
    q: int,
    q2: int,
)
    requires
        between_tokens(s, m),
        all_white_space(w),
        same_place(s, m, w, q, q2),
        q < s.len(),
        s[q] == 'k',
    ensures
        same_outcome(
            spec_parse_keep(insert_at(s, m, w), start2, q2).0,
            spec_parse_keep(s, start, q).0,
        ),
        near_place(
            s,
            m,
            w,
            spec_parse_keep(s, start, q).1,
            spec_parse_keep(insert_at(s, m, w), start2, q2).1,
        ),
{
    let t = insert_at(s, m, w);
    if q + 1 == m {
        if q2 + 1 < t.len() {
            if w.len() > 0 {
                assert(t[q2 + 1] == w[0]);
                assert(is_white_space_char(t[q2 + 1]));
            } else {
                assert(t[q2 + 1] == s[q + 1]);
            }
        }
    } else if q + 1 < s.len() {
        assert(t[q2 + 1] == s[q + 1]);
    }
    let kind = char_at(s, q + 1);
    if kind == Some('h') || kind == Some('l') {
        lemma_skip_white_space_inserted(s, m, w, q + 2, q2 + 2);
        let r = skip_white_space(s, q + 2);
        let r2 = skip_white_space(t, q2 + 2);
        if r < s.len() {
            assert(t[r2] == s[r]);
            lemma_u32_inserted(s, m, w, r, r2);
        }
    }
}

proof fn lemma_term_inserted(s: Seq<char>, m: int, w: Seq<char>, i: int, j: int)
    requires
        between_tokens(s, m),
        all_white_space(w),
        near_place(s, m, w, i, j),
    ensures
        same_outcome(spec_parse_term(insert_at(s, m, w), j).0, spec_parse_term(s, i).0),
        near_place(s, m, w, spec_parse_term(s, i).1, spec_parse_term(insert_at(s, m, w), j).1),
{
    reveal(spec_parse_term);
    let t = insert_at(s, m, w);
    lemma_i32_inserted(s, m, w, i, j);
    let p = spec_parse_i32(s, i).1;
    let p2 = spec_parse_i32(t, j).1;
    lemma_skip_white_space(s, p);
    lemma_skip_white_space_inserted(s, m, w, p, p2);
    let q = skip_white_space(s, p);
    let q2 = skip_white_space(t, p2);
    if q < s.len() {
        assert(t[q2] == s[q]);
        if s[q] == 'd' {
            lemma_u32_inserted(s, m, w, q + 1, q2 + 1);
            let pp = spec_parse_u32(s, q + 1).1;
            let pp2 = spec_parse_u32(t, q2 + 1).1;
            lemma_skip_white_space(s, pp);
            lemma_skip_white_space_inserted(s, m, w, pp, pp2);
            let r = skip_white_space(s, pp);
            let r2 = skip_white_space(t, pp2);
            if r < s.len() {
                assert(t[r2] == s[r]);
                if s[r] == 'k' {
                    lemma_keep_inserted(s, m, w, i, j, r, r2);
                }
            }
        }
    }
}

proof fn lemma_rest_inserted(
    s: Seq<char>,
    m: int,
    w: Seq<char>,
    i: int,
    j: int,
    node: DiceExpr,
)
    requires
        between_tokens(s, m),
        all_white_space(w),
        near_place(s, m, w, i, j),
    ensures
        same_outcome(
            spec_parse_rest(insert_at(s, m, w), j, node).0,
            spec_parse_rest(s, i, node).0,
        ),
        near_place(
            s,
            m,
            w,
            spec_parse_rest(s, i, node).1,
            spec_parse_rest(insert_at(s, m, w), j, node).1,
        ),
    decreases s.len() - i,
{
    let t = insert_at(s, m, w);
    lemma_skip_white_space(s, i);
    lemma_skip_white_space(t, j);
    lemma_skip_white_space_inserted(s, m, w, i, j);
    let jj = skip_white_space(s, i);
    let jj2 = skip_white_space(t, j);
    if jj < s.len() {
        assert(t[jj2] == s[jj]);
        let op = char_at(s, jj);
        if op == Some('+') || op == Some('-') {
            lemma_term_positions(s, jj + 1);
            lemma_term_positions(t, jj2 + 1);
            lemma_term_inserted(s, m, w, jj + 1, jj2 + 1);
            let (rhs, k) = spec_parse_term(s, jj + 1);
            let k2 = spec_parse_term(t, jj2 + 1).1;
            if let Ok(rhs) = rhs {
                let combined = if op == Some('+') {
                    DiceExpr::Sum(Box::new(node), Box::new(rhs))
                } else {
                    DiceExpr::Difference(Box::new(node), Box::new(rhs))
                };
                lemma_rest_inserted(s, m, w, k, k2, combined);
            }
        }
    }
}

/// Whitespace inserted between two tokens changes nothing of what an input parses to:
/// `insert_at(s, m, w)` parses to the same expression as `s`, or both fail (their errors point
/// into different inputs). Inside a number, between a sign and its digits, or between `k` and
/// `h` or `l`, whitespace splits a token and the law does not apply.
pub proof fn law_white_space_between_tokens_is_ignored(s: Seq<char>, m: int, w: Seq<char>)
    requires
        between_tokens(s, m),
        all_white_space(w),
    ensures
        same_outcome(parse_spec(insert_at(s, m, w)), parse_spec(s)),
{
    let t = insert_at(s, m, w);
    lemma_term_positions(s, 0);
    lemma_term_inserted(s, m, w, 0, 0);
    let (first, p) = spec_parse_term(s, 0);
    let p2 = spec_parse_term(t, 0).1;
    if let Ok(first) = first {
        lemma_rest_positions(s, p, first);
        lemma_rest_inserted(s, m, w, p, p2, first);
        let q = spec_parse_rest(s, p, first).1;
        let q2 = spec_parse_rest(t, p2, first).1;
        lemma_skip_white_space(s, q);
        lemma_skip_white_space_inserted(s, m, w, q, q2);
    }
}

/// Whitespace before and after an expression changes nothing of what it parses to: `u + s + w`
/// parses to the same expression as `s`, or both fail.
pub proof fn law_surrounding_white_space_is_ignored(u: Seq<char>, s: Seq<char>, w: Seq<char>)
    requires
        all_white_space(u),
        all_white_space(w),
    ensures
        same_outcome(parse_spec(u + s + w), parse_spec(s)),
{
    let sw = insert_at(s, s.len() as int, w);
    assert(sw =~= s + w);
    law_white_space_between_tokens_is_ignored(s, s.len() as int, w);
    assert(insert_at(sw, 0, u) =~= u + s + w);
    law_white_space_between_tokens_is_ignored(sw, 0, u);
}

/// A roll written in dice notation: the count, `d`, the sides, and for a roll that keeps dice
/// `kh` or `kl` with the number kept.
pub open spec fn roll_notation(spec: RollSpec) -> Seq<char> {
    decimal_text(spec.count as nat) + seq!['d'] + decimal_text(spec.sides as nat) + match spec.keep {
        None => Seq::<char>::empty(),
        Some(Keep::Highest(n)) => seq!['k', 'h'] + decimal_text(n as nat),
        Some(Keep::Lowest(n)) => seq!['k', 'l'] + decimal_text(n as nat),
    }
}

/// An integer literal written in decimal, with a leading `-` when it is negative.
pub open spec fn literal_notation(value: i32) -> Seq<char> {
    if value < 0 {
        seq!['-'] + decimal_text((-value) as nat)
    } else {
        decimal_text(value as nat)
    }
}

/// The digit that `digit_char` writes for `d` is an ASCII digit whose value is `d`.
proof fn lemma_digit_char(d: nat)
    requires
        d < 10,
    ensures
        is_digit_char(digit_char(d)),
        digit_value(digit_char(d)) == d,
{
    if d == 0 {
        assert(digit_char(d) == '0');
    } else if d == 1 {
        assert(digit_char(d) == '1');
    } else if d == 2 {
        assert(digit_char(d) == '2');
    } else if d == 3 {
        assert(digit_char(d) == '3');
    } else if d == 4 {
        assert(digit_char(d) == '4');
    } else if d == 5 {
        assert(digit_char(d) == '5');
    } else if d == 6 {
        assert(digit_char(d) == '6');
    } else if d == 7 {
        assert(digit_char(d) == '7');
    } else if d == 8 {
        assert(digit_char(d) == '8');
    } else if d == 9 {
        assert(digit_char(d) == '9');
    }
}

/// The decimal text of `n` is a nonempty run of digits whose value is `n`.
proof fn lemma_decimal_text(n: nat)
    ensures
        decimal_text(n).len() >= 1,
        forall|x: int|
            0 <= x < decimal_text(n).len() ==> #[trigger] is_digit_char(decimal_text(n)[x]),
        decimal_of(decimal_text(n)) == n,
    decreases n,
{
    let t = decimal_text(n);
    if n < 10 {
        lemma_digit_char(n);
        assert(t =~= seq![digit_char(n)]);
        assert(t.drop_last() =~= Seq::<char>::empty());
        assert forall|x: int| 0 <= x < t.len() implies #[trigger] is_digit_char(t[x]) by {
            assert(t[x] == digit_char(n));
        }
        assert(t.last() == digit_char(n));
        assert(decimal_of(t.drop_last()) == 0);
    } else {
        lemma_decimal_text(n / 10);
        lemma_digit_char(n % 10);
        let h = decimal_text(n / 10);
        assert(t =~= h + seq![digit_char(n % 10)]);
        assert(t.drop_last() =~= h);
        assert forall|x: int| 0 <= x < t.len() implies #[trigger] is_digit_char(t[x]) by {
            if x < h.len() {
                assert(t[x] == h[x]);
            }
        }
        assert(t.last() == digit_char(n % 10));
        assert(decimal_of(t) == decimal_of(h) * 10 + digit_value(digit_char(n % 10)));
        assert(n == (n / 10) * 10 + n % 10) by (nonlinear_arith);
    }
}

/// Skipping digits over a run of digits stops where the run ends.
proof fn lemma_skip_digit_run(s: Seq<char>, i: int, j: int)
    requires
        0 <= i <= j <= s.len(),
        forall|x: int| i <= x < j ==> #[trigger] is_digit_char(s[x]),
        j == s.len() || !is_digit_char(s[j]),
    ensures
        skip_digits(s, i) == j,
    decreases j - i,
{
    if i < j {
        lemma_skip_digit_run(s, i + 1, j);
    }
}

/// The decimal text of `n` at index `i` of `s`, not followed by a digit, reads as `n`.
proof fn lemma_number_at(s: Seq<char>, i: int, n: nat)
    requires
        0 <= i,
        i + decimal_text(n).len() <= s.len(),
        s.subrange(i, i + decimal_text(n).len()) == decimal_text(n),
        i + decimal_text(n).len() == s.len() || !is_digit_char(s[i + decimal_text(n).len()]),
    ensures
        skip_white_space(s, i) == i,
        char_at(s, i) != Some('-'),
        skip_digits(s, i) == i + decimal_text(n).len(),
        n <= u32::MAX ==> spec_parse_u32(s, i) == (
            Ok::<u32, DiceErrorView>(n as u32),
            i + decimal_text(n).len(),
        ),
        n <= i32::MAX ==> spec_parse_i32(s, i) == (
            Ok::<i32, DiceErrorView>(n as i32),
            i + decimal_text(n).len(),
        ),
{
    let t = decimal_text(n);
    lemma_decimal_text(n);
    assert forall|x: int| i <= x < i + t.len() implies #[trigger] is_digit_char(s[x]) by {
        assert(s[x] == t[x - i]);
    }
    assert(s[i] == t[0]);
    lemma_skip_digit_run(s, i, i + t.len());
}

/// The notation of what a roll keeps.
spec fn keep_notation(keep: Option<Keep>) -> Seq<char> {
    match keep {
        None => Seq::<char>::empty(),
        Some(Keep::Highest(n)) => seq!['k', 'h'] + decimal_text(n as nat),
        Some(Keep::Lowest(n)) => seq!['k', 'l'] + decimal_text(n as nat),
    }
}

/// A term made of an `i32` count, `d`, a `u32` of sides and what a keep suffix gives.
#[verifier::rlimit(30)]
proof fn lemma_roll_term(s: Seq<char>, spec: RollSpec, l: int, p2: int)
    requires
        0 < l < p2 <= s.len(),
        spec.count <= i32::MAX,
        spec_parse_i32(s, 0) == (Ok::<i32, DiceErrorView>(spec.count as i32), l),
        s[l] == 'd',
        spec_parse_u32(s, l + 1) == (Ok::<u32, DiceErrorView>(spec.sides), p2),
        spec.keep is None ==> p2 == s.len(),
        spec.keep matches Some(keep) ==> p2 < s.len() && s[p2] == 'k' && spec_parse_keep(s, 0, p2)
            == (Ok::<Keep, DiceErrorView>(keep), s.len() as int),
    ensures
        spec_parse_term(s, 0) == (Ok::<DiceExpr, DiceErrorView>(DiceExpr::Roll(spec)), s.len() as int),
{
    reveal(spec_parse_term);
    assert(skip_white_space(s, l) == l);
    assert(skip_white_space(s, p2) == p2);
}

/// A keep suffix written after index `p` of `s`, up to the end, reads as that keep.
#[verifier::rlimit(30)]
proof fn lemma_keep_notation(s: Seq<char>, p: int, keep: Keep)
    requires
        0 <= p <= s.len(),
        s.skip(p) == keep_notation(Some(keep)),
    ensures
        p < s.len(),
        s[p] == 'k',
        spec_parse_keep(s, 0, p) == (Ok::<Keep, DiceErrorView>(keep), s.len() as int),
{
    let n = match keep {
        Keep::Highest(n) => n,
        Keep::Lowest(n) => n,
    };
    let kt = decimal_text(n as nat);
    lemma_decimal_text(n as nat);
    let suffix = keep_notation(Some(keep));
    assert(suffix.len() == kt.len() + 2);
    assert(s.skip(p)[0] == s[p]);
    assert(s[p] == suffix[0]);
    assert(s[p + 1] == suffix[1]);
    assert forall|x: int| 0 <= x < kt.len() implies s[p + 2 + x] == kt[x] by {
        assert(s.skip(p)[2 + x] == s[p + 2 + x]);
        assert(suffix[2 + x] == kt[x]);
    }
    assert(s.subrange(p + 2, s.len() as int) =~= kt);
    lemma_number_at(s, p + 2, n as nat);
}

/// A roll written in dice notation parses back to that roll, when its count is an `i32` (the
/// type the count is read as).
#[verifier::rlimit(30)]
pub proof fn law_roll_notation_parses_back(spec: RollSpec)
    requires
        spec.count <= i32::MAX,
    ensures
        parse_spec(roll_notation(spec)) == Ok::<DiceExpr, DiceErrorView>(DiceExpr::Roll(spec)),
{
    let s = roll_notation(spec);
    let c = decimal_text(spec.count as nat);
    let sd = decimal_text(spec.sides as nat);
    let suffix = keep_notation(spec.keep);
    assert(s =~= c + seq!['d'] + sd + suffix);
    lemma_decimal_text(spec.count as nat);
    lemma_decimal_text(spec.sides as nat);
    let l = c.len() as int;
    let p2 = l + 1 + sd.len();
    assert(s[l] == 'd');
    assert(s.subrange(0, l) =~= c);
    lemma_number_at(s, 0, spec.count as nat);
    assert(s.subrange(l + 1, p2) =~= sd);
    assert(s.skip(p2) =~= suffix);
    if let Some(keep) = spec.keep {
        lemma_keep_notation(s, p2, keep);
    }
    lemma_number_at(s, l + 1, spec.sides as nat);
    lemma_roll_term(s, spec, l, p2);
}

/// An integer literal written in decimal parses back to that literal.
#[verifier::rlimit(30)]
pub proof fn law_literal_notation_parses_back(value: i32)
    ensures
        parse_spec(literal_notation(value)) == Ok::<DiceExpr, DiceErrorView>(
            DiceExpr::Literal(value),
        ),
{
    reveal(spec_parse_term);
    let s = literal_notation(value);
    if value < 0 {
        let n = (-value) as nat;
        let t = decimal_text(n);
        lemma_decimal_text(n);
        assert(s.subrange(1, s.len() as int) =~= t);
        assert(s[0] == '-');
        assert(s[1] == t[0]);
        assert forall|x: int| 1 <= x < s.len() implies #[trigger] is_digit_char(s[x]) by {
            assert(s[x] == t[x - 1]);
        }
        lemma_skip_digit_run(s, 1, s.len() as int);
        assert(spec_parse_i32(s, 0) == (Ok::<i32, DiceErrorView>(value), s.len() as int));
    } else {
        lemma_decimal_text(value as nat);
        assert(s.subrange(0, s.len() as int) =~= s);
        lemma_number_at(s, 0, value as nat);
    }
    assert(spec_parse_term(s, 0) == (
        Ok::<DiceExpr, DiceErrorView>(DiceExpr::Literal(value)),
        s.len() as int,
    ));
}

/// A character that cannot go on a term that is complete: not whitespace, not a digit, and
/// neither `d` nor `k`.
pub open spec fn closes_term(c: char) -> bool {
    !is_white_space_char(c) && !is_digit_char(c) && c != 'd' && c != 'k'
}

proof fn lemma_skip_white_space_extended(s: Seq<char>, v: Seq<char>, i: int)
    requires
        0 <= i <= s.len(),
        v.len() > 0,
        closes_term(v[0]),
    ensures
        skip_white_space(s + v, i) == skip_white_space(s, i),
    decreases s.len() - i,
{
    let u = s + v;
    if i < s.len() {
        assert(u[i] == s[i]);
        if is_white_space_char(s[i]) {
            lemma_skip_white_space_extended(s, v, i + 1);
        }
    } else {
        assert(u[i] == v[0]);
    }
}

proof fn lemma_skip_digits_extended(s: Seq<char>, v: Seq<char>, i: int)
    requires
        0 <= i <= s.len(),
        v.len() > 0,
        closes_term(v[0]),
    ensures
        skip_digits(s + v, i) == skip_digits(s, i),
    decreases s.len() - i,
{
    let u = s + v;
    if i < s.len() {
        assert(u[i] == s[i]);
        if is_digit_char(s[i]) {
            lemma_skip_digits_extended(s, v, i + 1);
        }
    } else {
        assert(u[i] == v[0]);
    }
}

proof fn lemma_u32_extended(s: Seq<char>, v: Seq<char>, i: int)
    requires
        0 <= i <= s.len(),
        v.len() > 0,
        closes_term(v[0]),
        spec_parse_u32(s, i).0 is Ok,
    ensures
        spec_parse_u32(s + v, i) == spec_parse_u32(s, i),
{
    lemma_skip_white_space(s, i);
    lemma_skip_white_space_extended(s, v, i);
    let a = skip_white_space(s, i);
    lemma_skip_digits(s, a);
    lemma_skip_digits_extended(s, v, a);
    let b = skip_digits(s, a);
    assert((s + v).subrange(a, b) =~= s.subrange(a, b));
}

proof fn lemma_i32_extended(s: Seq<char>, v: Seq<char>, i: int)
    requires
        0 <= i <= s.len(),
        v.len() > 0,
        closes_term(v[0]),
        spec_parse_i32(s, i).0 is Ok,
    ensures
        spec_parse_i32(s + v, i) == spec_parse_i32(s, i),
{
    let u = s + v;
    lemma_skip_white_space(s, i);
    lemma_skip_white_space_extended(s, v, i);
    let a = skip_white_space(s, i);
    if a == s.len() {
        assert(skip_digits(s, a) == a);
    }
    assert(u[a] == s[a]);
    let k = if char_at(s, a) == Some('-') {
        a + 1
    } else {
        a
    };
    lemma_skip_digits(s, k);
    lemma_skip_digits_extended(s, v, k);
    let b = skip_digits(s, k);
    assert(u.subrange(k, b) =~= s.subrange(k, b));
}

proof fn lemma_keep_extended(s: Seq<char>, v: Seq<char>, start: int, q: int)
    requires
        0 <= q < s.len(),
        v.len() > 0,
        closes_term(v[0]),
        spec_parse_keep(s, start, q).0 is Ok,
    ensures
        spec_parse_keep(s + v, start, q) == spec_parse_keep(s, start, q),
{
    let u = s + v;
    assert(q + 1 < s.len());
    assert(u[q + 1] == s[q + 1]);
    lemma_skip_white_space(s, q + 2);
    lemma_skip_white_space_extended(s, v, q + 2);
    let r = skip_white_space(s, q + 2);
    if r < s.len() {
        assert(u[r] == s[r]);
        if is_digit_char(s[r]) {
            lemma_u32_extended(s, v, r);
        }
    } else {
        assert(u[r] == v[0]);
    }
}

#[verifier::rlimit(30)]
proof fn lemma_term_extended(s: Seq<char>, v: Seq<char>, i: int)
    requires
        0 <= i <= s.len(),
        v.len() > 0,
        closes_term(v[0]),
        spec_parse_term(s, i).0 is Ok,
    ensures
        spec_parse_term(s + v, i) == spec_parse_term(s, i),
{
    reveal(spec_parse_term);
    let u = s + v;
    lemma_i32_positions(s, i);
    lemma_i32_extended(s, v, i);
    let p = spec_parse_i32(s, i).1;
    lemma_skip_white_space(s, p);
    lemma_skip_white_space_extended(s, v, p);
    let q = skip_white_space(s, p);
    assert(u[q] == if q < s.len() { s[q] } else { v[0] });
    if q < s.len() && s[q] == 'd' {
        lemma_u32_positions(s, q + 1);
        lemma_u32_extended(s, v, q + 1);
        let p2 = spec_parse_u32(s, q + 1).1;
        lemma_skip_white_space(s, p2);
        lemma_skip_white_space_extended(s, v, p2);
        let q2 = skip_white_space(s, p2);
        assert(u[q2] == if q2 < s.len() { s[q2] } else { v[0] });
        if q2 < s.len() && s[q2] == 'k' {
            lemma_keep_extended(s, v, i, q2);
        }
    }
}

#[verifier::rlimit(30)]
proof fn lemma_rest_extended(s: Seq<char>, v: Seq<char>, i: int, node: DiceExpr)
    requires
        0 <= i <= s.len(),
        v.len() > 0,
        closes_term(v[0]),
        spec_parse_rest(s, i, node).0 is Ok,
    ensures
        spec_parse_rest(s + v, i, node) == spec_parse_rest(
            s + v,
            spec_parse_rest(s, i, node).1,
            spec_parse_rest(s, i, node).0->Ok_0,
        ),
    decreases s.len() - i,
{
    let u = s + v;
    lemma_skip_white_space(s, i);
    lemma_skip_white_space_extended(s, v, i);
    let j = skip_white_space(s, i);
    lemma_skip_white_space(u, i);
    lemma_skip_white_space(u, j);
    assert(skip_white_space(u, j) == j);
    lemma_term_positions(u, j + 1);
    let op = char_at(s, j);
    if op == Some('+') || op == Some('-') {
        assert(u[j] == s[j]);
        lemma_term_positions(s, j + 1);
        lemma_term_extended(s, v, j + 1);
        let (rhs, k) = spec_parse_term(s, j + 1);
        let rhs = rhs->Ok_0;
        let combined = if op == Some('+') {
            DiceExpr::Sum(Box::new(node), Box::new(rhs))
        } else {
            DiceExpr::Difference(Box::new(node), Box::new(rhs))
        };
        lemma_rest_extended(s, v, k, combined);
    }
}

proof fn lemma_skip_white_space_shifted(pre: Seq<char>, t: Seq<char>, i: int)
    requires
        0 <= i <= t.len(),
    ensures
        skip_white_space(pre + t, i + pre.len()) == skip_white_space(t, i) + pre.len(),
    decreases t.len() - i,
{
    if i < t.len() {
        assert((pre + t)[i + pre.len()] == t[i]);
        if is_white_space_char(t[i]) {
            lemma_skip_white_space_shifted(pre, t, i + 1);
        }
    }
}

proof fn lemma_skip_digits_shifted(pre: Seq<char>, t: Seq<char>, i: int)
    requires
        0 <= i <= t.len(),
    ensures
        skip_digits(pre + t, i + pre.len()) == skip_digits(t, i) + pre.len(),
    decreases t.len() - i,
{
    if i < t.len() {
        assert((pre + t)[i + pre.len()] == t[i]);
        if is_digit_char(t[i]) {
            lemma_skip_digits_shifted(pre, t, i + 1);
        }
    }
}

proof fn lemma_u32_shifted(pre: Seq<char>, t: Seq<char>, i: int)
    requires
        0 <= i <= t.len(),
        spec_parse_u32(t, i).0 is Ok,
    ensures
        spec_parse_u32(pre + t, i + pre.len()).0 == spec_parse_u32(t, i).0,
        spec_parse_u32(pre + t, i + pre.len()).1 == spec_parse_u32(t, i).1 + pre.len(),
{
    let o = pre.len() as int;
    lemma_skip_white_space(t, i);
    lemma_skip_white_space_shifted(pre, t, i);
    let a = skip_white_space(t, i);
    lemma_skip_digits(t, a);
    lemma_skip_digits_shifted(pre, t, a);
    let b = skip_digits(t, a);
    assert((pre + t).subrange(a + o, b + o) =~= t.subrange(a, b));
}

proof fn lemma_i32_shifted(pre: Seq<char>, t: Seq<char>, i: int)
    requires
        0 <= i <= t.len(),
        spec_parse_i32(t, i).0 is Ok,
    ensures
        spec_parse_i32(pre + t, i + pre.len()).0 == spec_parse_i32(t, i).0,
        spec_parse_i32(pre + t, i + pre.len()).1 == spec_parse_i32(t, i).1 + pre.len(),
{
    let o = pre.len() as int;
    let u = pre + t;
    lemma_skip_white_space(t, i);
    lemma_skip_white_space_shifted(pre, t, i);
    let a = skip_white_space(t, i);
    if a < t.len() {
        assert(u[a + o] == t[a]);
    }
    let k = if char_at(t, a) == Some('-') {
        a + 1
    } else {
        a
    };
    if a == t.len() {
        assert(skip_digits(t, a) == a);
    }
    lemma_skip_digits(t, k);
    lemma_skip_digits_shifted(pre, t, k);
    let b = skip_digits(t, k);
    assert(u.subrange(k + o, b + o) =~= t.subrange(k, b));
}

proof fn lemma_keep_shifted(pre: Seq<char>, t: Seq<char>, start: int, start2: int, q: int)
    requires
        0 <= q < t.len(),
        spec_parse_keep(t, start, q).0 is Ok,
    ensures
        spec_parse_keep(pre + t, start2, q + pre.len()).0 == spec_parse_keep(t, start, q).0,
        spec_parse_keep(pre + t, start2, q + pre.len()).1 == spec_parse_keep(t, start, q).1
            + pre.len(),
{
    let o = pre.len() as int;
    let u = pre + t;
    assert(q + 1 < t.len());
    assert(u[q + 1 + o] == t[q + 1]);
    lemma_skip_white_space(t, q + 2);
    lemma_skip_white_space_shifted(pre, t, q + 2);
    let r = skip_white_space(t, q + 2);
    if r < t.len() {
        assert(u[r + o] == t[r]);
        if is_digit_char(t[r]) {
            lemma_u32_shifted(pre, t, r);
        }
    }
}

#[verifier::rlimit(30)]
proof fn lemma_term_shifted(pre: Seq<char>, t: Seq<char>, i: int)
    requires
        0 <= i <= t.len(),
        spec_parse_term(t, i).0 is Ok,
    ensures
        spec_parse_term(pre + t, i + pre.len()).0 == spec_parse_term(t, i).0,
        spec_parse_term(pre + t, i + pre.len()).1 == spec_parse_term(t, i).1 + pre.len(),
{
    reveal(spec_parse_term);
    let o = pre.len() as int;
    let u = pre + t;
    lemma_i32_positions(t, i);
    lemma_i32_shifted(pre, t, i);
    let p = spec_parse_i32(t, i).1;
    lemma_skip_white_space(t, p);
    lemma_skip_white_space_shifted(pre, t, p);
    let q = skip_white_space(t, p);
    if q < t.len() {
        assert(u[q + o] == t[q]);
        if t[q] == 'd' {
            lemma_u32_positions(t, q + 1);
            lemma_u32_shifted(pre, t, q + 1);
            let p2 = spec_parse_u32(t, q + 1).1;
            lemma_skip_white_space(t, p2);
            lemma_skip_white_space_shifted(pre, t, p2);
            let q2 = skip_white_space(t, p2);
            if q2 < t.len() {
                assert(u[q2 + o] == t[q2]);
                if t[q2] == 'k' {
                    lemma_keep_shifted(pre, t, i, i + o, q2);
                }
            }
        }
    }
}

/// The parts that follow a term either add nothing or make a sum or a difference.
proof fn lemma_rest_shape(s: Seq<char>, i: int, node: DiceExpr)
    requires
        0 <= i <= s.len(),
        spec_parse_rest(s, i, node).0 is Ok,
    ensures
        ({
            let j = skip_white_space(s, i);
            let e = spec_parse_rest(s, i, node).0->Ok_0;
            ||| e is Sum || e is Difference
            ||| e == node && spec_parse_rest(s, i, node).1 == j && char_at(s, j) != Some('+')
                && char_at(s, j) != Some('-')
        }),
    decreases s.len() - i,
{
    lemma_skip_white_space(s, i);
    let j = skip_white_space(s, i);
    let op = char_at(s, j);
    if op == Some('+') || op == Some('-') {
        lemma_term_positions(s, j + 1);
        let (rhs, k) = spec_parse_term(s, j + 1);
        let rhs = rhs->Ok_0;
        let combined = if op == Some('+') {
            DiceExpr::Sum(Box::new(node), Box::new(rhs))
        } else {
            DiceExpr::Difference(Box::new(node), Box::new(rhs))
        };
        lemma_rest_shape(s, k, combined);
    }
}

/// What parsing `s + v` gives up to where the expression of `s` ends, when `s` parses and `v`
/// begins with a character that closes a term: the same first term, and the same expression
/// at the index after `s`'s trailing whitespace.
#[verifier::rlimit(30)]
proof fn lemma_parse_extended(s: Seq<char>, v: Seq<char>)
    requires
        v.len() > 0,
        closes_term(v[0]),
        parse_spec(s) is Ok,
    ensures
        spec_parse_expr(s + v, 0) == spec_parse_rest(s + v, s.len() as int, parse_spec(s)->Ok_0),
        skip_white_space(s + v, s.len() as int) == s.len(),
{
    let u = s + v;
    lemma_term_positions(s, 0);
    lemma_term_extended(s, v, 0);
    let (first, p) = spec_parse_term(s, 0);
    let first = first->Ok_0;
    lemma_rest_positions(s, p, first);
    lemma_rest_extended(s, v, p, first);
    let q = spec_parse_rest(s, p, first).1;
    let e = spec_parse_rest(s, p, first).0->Ok_0;
    lemma_skip_white_space(s, q);
    lemma_skip_white_space_extended(s, v, q);
    assert(skip_white_space(s, q) == s.len());
    lemma_skip_white_space_extended(s, v, s.len() as int);
    assert(u[s.len() as int] == v[0]);
    lemma_skip_white_space(u, q);
    lemma_term_positions(u, (s.len() + 1) as int);
    // Both rests look first at the end of `s`, where they read the same.
    assert(skip_white_space(u, q) == s.len());
    assert(spec_parse_rest(u, q, e) == spec_parse_rest(u, s.len() as int, e));
}

/// `+` and `-` group from the left: when `s` parses to `e` and `t` parses to the single term
/// `x`, then `s`, the operator and `t` parse to `e` combined with `x` by that operator, so a
/// chain `a - b - c` means `(a - b) - c`.
#[verifier::rlimit(30)]
pub proof fn law_operators_group_from_the_left(
    s: Seq<char>,
    op: char,
    t: Seq<char>,
    e: DiceExpr,
    x: DiceExpr,
)
    requires
        op == '+' || op == '-',
        parse_spec(s) == Ok::<DiceExpr, DiceErrorView>(e),
        parse_spec(t) == Ok::<DiceExpr, DiceErrorView>(x),
        x is Literal || x is Roll,
    ensures
        parse_spec(s + seq![op] + t) == Ok::<DiceExpr, DiceErrorView>(
            if op == '+' {
                DiceExpr::Sum(Box::new(e), Box::new(x))
            } else {
                DiceExpr::Difference(Box::new(e), Box::new(x))
            },
        ),
{
    let pre = s + seq![op];
    let u = pre + t;
    let v = seq![op] + t;
    assert(u =~= s + v);
    assert(v[0] == op);
    lemma_parse_extended(s, v);
    let n = s.len() as int;
    let o = pre.len() as int;
    assert(u[n] == op);
    // The term `t` starts with, shifted behind the operator.
    lemma_term_positions(t, 0);
    let (x0, pt) = spec_parse_term(t, 0);
    let x0 = x0->Ok_0;
    lemma_rest_positions(t, pt, x0);
    lemma_rest_shape(t, pt, x0);
    let jt = skip_white_space(t, pt);
    lemma_skip_white_space(t, pt);
    lemma_skip_white_space(t, jt);
    assert(jt == t.len());
    lemma_term_shifted(pre, t, 0);
    lemma_skip_white_space_shifted(pre, t, pt);
    let combined = if op == '+' {
        DiceExpr::Sum(Box::new(e), Box::new(x))
    } else {
        DiceExpr::Difference(Box::new(e), Box::new(x))
    };
    assert(skip_white_space(u, pt + o) == u.len());
    assert(spec_parse_rest(u, pt + o, combined) == (
        Ok::<DiceExpr, DiceErrorView>(combined),
        u.len() as int,
    ));
    assert(spec_parse_rest(u, n, e) == (Ok::<DiceExpr, DiceErrorView>(combined), u.len() as int));
}

/// A character that closes a term ends the expression: when `s` parses, then `s`, any
/// whitespace, such a character (one that is not `+` or `-`) and anything after it fail with
/// trailing input reported at that character.
#[verifier::rlimit(30)]
pub proof fn law_unexpected_character_is_trailing_input(
    s: Seq<char>,
    w: Seq<char>,
    c: char,
    v: Seq<char>,
)
    requires
        parse_spec(s) is Ok,
        all_white_space(w),
        closes_term(c),
        c != '+',
        c != '-',
    ensures
        parse_spec(s + w + seq![c] + v) == Err::<DiceExpr, DiceErrorView>(
            DiceErrorView::TrailingInput {
                input: s + w + seq![c] + v,
                pos: byte_offset(s + w + seq![c] + v, (s.len() + w.len()) as int),
            },
        ),
{
    let sw = s + w;
    assert(insert_at(s, s.len() as int, w) =~= sw);
    law_white_space_between_tokens_is_ignored(s, s.len() as int, w);
    let tail = seq![c] + v;
    let u = sw + tail;
    assert(u =~= s + w + seq![c] + v);
    assert(tail[0] == c);
    lemma_parse_extended(sw, tail);
    let n = sw.len() as int;
    assert(u[n] == c);
    lemma_skip_white_space_extended(sw, tail, n);
    assert(spec_parse_rest(u, n, parse_spec(sw)->Ok_0) == (
        Ok::<DiceExpr, DiceErrorView>(parse_spec(sw)->Ok_0),
        n,
    ));
}

/// A roll whose keep suffix gives no number keeps one die: `NdSkh` keeps the highest die and
/// `NdSkl` the lowest, when the count `N` is an `i32`.
#[verifier::rlimit(30)]
pub proof fn law_keep_without_number_keeps_one(count: u32, sides: u32, highest: bool)
    requires
        count <= i32::MAX,
    ensures
        parse_spec(
            decimal_text(count as nat) + seq!['d'] + decimal_text(sides as nat) + seq![
                'k',
                if highest {
                    'h'
                } else {
                    'l'
                },
            ],
        ) == Ok::<DiceExpr, DiceErrorView>(
            DiceExpr::Roll(
                RollSpec {
                    count,
                    sides,
                    keep: Some(
                        if highest {
                            Keep::Highest(1)
                        } else {
                            Keep::Lowest(1)
                        },
                    ),
                },
            ),
        ),
{
    let kind = if highest {
        'h'
    } else {
        'l'
    };
    let keep = if highest {
        Keep::Highest(1)
    } else {
        Keep::Lowest(1)
    };
    let spec = RollSpec { count, sides, keep: Some(keep) };
    let c = decimal_text(count as nat);
    let sd = decimal_text(sides as nat);
    let s = c + seq!['d'] + sd + seq!['k', kind];
    lemma_decimal_text(count as nat);
    lemma_decimal_text(sides as nat);
    let l = c.len() as int;
    let p2 = l + 1 + sd.len();
    assert(s[l] == 'd');
    assert(s.subrange(0, l) =~= c);
    lemma_number_at(s, 0, count as nat);
    assert(s.subrange(l + 1, p2) =~= sd);
    assert(s[p2] == 'k');
    assert(s[p2 + 1] == kind);
    assert(s.len() == p2 + 2);
    lemma_number_at(s, l + 1, sides as nat);
    assert(skip_white_space(s, p2 + 2) == p2 + 2);
    assert(spec_parse_keep(s, 0, p2) == (Ok::<Keep, DiceErrorView>(keep), s.len() as int));
    lemma_roll_term(s, spec, l, p2);
}

/// No term starts where only whitespace is left.
proof fn lemma_no_term_in_white_space(u: Seq<char>, i: int)
    requires
        0 <= i <= u.len(),
        forall|x: int| i <= x < u.len() ==> #[trigger] is_white_space_char(u[x]),
    ensures
        spec_parse_term(u, i).0 is Err,
{
    reveal(spec_parse_term);
    lemma_skip_white_space(u, i);
    let a = skip_white_space(u, i);
    assert(a == u.len());
    assert(spec_parse_i32(u, i).0 is Err);
}

/// An operator needs a term after it: when `s` parses, `s` followed by `+` or `-` and nothing
/// but whitespace fails.
pub proof fn law_operator_needs_a_term(s: Seq<char>, op: char, w: Seq<char>)
    requires
        parse_spec(s) is Ok,
        op == '+' || op == '-',
        all_white_space(w),
    ensures
        parse_spec(s + seq![op] + w) is Err,
{
    let v = seq![op] + w;
    let u = s + v;
    assert(u =~= s + seq![op] + w);
    assert(v[0] == op);
    lemma_parse_extended(s, v);
    let n = s.len() as int;
    assert(u[n] == op);
    assert forall|x: int| n + 1 <= x < u.len() implies #[trigger] is_white_space_char(u[x]) by {
        assert(u[x] == w[x - n - 1]);
    }
    lemma_no_term_in_white_space(u, n + 1);
}

#[derive(Clone, Copy)]
struct Cursor {
    index: usize,
    byte: usize,
}

/// A parser over one input string, with a cursor that moves forward.
pub struct Parser<'a> {
    input: &'a str,
    chars: Vec<char>,
    cursor: Cursor,
}

impl<'a> Parser<'a> {
    #[verifier::type_invariant]
    spec fn well_formed(&self) -> bool {
        &&& self.chars@ == self.input@
        &&& self.cursor.index <= self.chars@.len()
        &&& self.cursor.byte == byte_offset(self.input@, self.cursor.index as int)
        &&& byte_offset(self.input@, self.input@.len() as int) <= usize::MAX
    }

    /// The characters of the input.
    pub closed spec fn text(&self) -> Seq<char> {
        self.input@
    }

    /// The index of the character under the cursor.
    pub closed spec fn position(&self) -> int {
        self.cursor.index as int
    }

    /// A parser at the start of `input`.
    pub fn new(input: &'a str) -> (p: Self)
        ensures
            p.text() == input@,
            p.position() == 0,
    {
        let total_bytes = input.as_bytes().len();
        let mut chars: Vec<char> = Vec::new();
        for c in it: input.chars()
            invariant
                chars@ == it.seq().take(it.index() as int),
        {
            chars.push(c);
        }
        assert(chars@ =~= input@);
        assert(input@.take(input@.len() as int) =~= input@);
        assert(input@.take(0) =~= Seq::<char>::empty());
        Parser { input, chars, cursor: Cursor { index: 0, byte: 0 } }
    }

    /// The input this parser reads.
    pub fn input(&self) -> (s: &'a str)
        ensures
            s@ == self.text(),
    {
        self.input
    }

    /// The byte offset of the cursor in the input.
    pub fn byte_pos(&self) -> (b: usize)
        ensures
            b == byte_offset(self.text(), self.position()),
    {
        proof {
            use_type_invariant(self);
        }
        self.cursor.byte
    }

    /// The character under the cursor, if any.
    pub fn peek(&self) -> (c: Option<char>)
        ensures
            c == char_at(self.text(), self.position()),
            0 <= self.position() <= self.text().len(),
    {
        proof {
            use_type_invariant(self);
        }
        if self.cursor.index < self.chars.len() {
            Some(self.chars[self.cursor.index])
        } else {
            None
        }
    }

    /// Moves the cursor past the character under it and returns that character.
    pub fn consume(&mut self) -> (c: Option<char>)
        ensures
            c == char_at(old(self).text(), old(self).position()),
            final(self).text() == old(self).text(),
            final(self).position() == if c is Some {
                old(self).position() + 1
            } else {
                old(self).position()
            },
    {
        proof {
            use_type_invariant(&*self);
        }
        let i = self.cursor.index;
        if i < self.chars.len() {
            let c = self.chars[i];
            let w = utf8_width(c);
            proof {
                lemma_byte_offset_step(self.input@, i as int);
                lemma_byte_offset_monotone(self.input@, i + 1, self.input@.len() as int);
            }
            self.cursor = Cursor { index: i + 1, byte: self.cursor.byte + w };
            Some(c)
        } else {
            None
        }
    }

    /// Moves the cursor past any whitespace.
    pub fn skip_ws(&mut self)
        ensures
            final(self).text() == old(self).text(),
            final(self).position() == skip_white_space(old(self).text(), old(self).position()),
            old(self).position() <= final(self).position() <= final(self).text().len(),
    {
        proof {
            use_type_invariant(&*self);
        }
        loop
            invariant
                self.text() == old(self).text(),
                old(self).position() <= self.position() <= self.text().len(),
                skip_white_space(self.text(), self.position()) == skip_white_space(
                    old(self).text(),
                    old(self).position(),
                ),
            ensures
                self.text() == old(self).text(),
                self.position() == skip_white_space(old(self).text(), old(self).position()),
                old(self).position() <= self.position() <= self.text().len(),
            decreases self.text().len() - self.position(),
        {
            match self.peek() {
                Some(c) => {
                    if is_white_space(c) {
                        self.consume();
                    } else {
                        break ;
                    }
                },
                None => {
                    break ;
                },
            }
        }
    }

    /// Moves the cursor past any ASCII digits.
    fn skip_digits(&mut self)
        ensures
            final(self).text() == old(self).text(),
            final(self).position() == skip_digits(old(self).text(), old(self).position()),
            old(self).position() <= final(self).position() <= final(self).text().len(),
            forall|k: int|
                old(self).position() <= k < final(self).position() ==> is_digit_char(
                    #[trigger] old(self).text()[k],
                ),
    {
        proof {
            use_type_invariant(&*self);
        }
        loop
            invariant
                self.text() == old(self).text(),
                old(self).position() <= self.position() <= self.text().len(),
                skip_digits(self.text(), self.position()) == skip_digits(
                    old(self).text(),
                    old(self).position(),
                ),
                forall|k: int|
                    old(self).position() <= k < self.position() ==> is_digit_char(
                        #[trigger] old(self).text()[k],
                    ),
            ensures
                self.text() == old(self).text(),
                self.position() == skip_digits(old(self).text(), old(self).position()),
                old(self).position() <= self.position() <= self.text().len(),
                forall|k: int|
                    old(self).position() <= k < self.position() ==> is_digit_char(
                        #[trigger] old(self).text()[k],
                    ),
            decreases self.text().len() - self.position(),
        {
            match self.peek() {
                Some(c) => {
                    if is_ascii_digit(c) {
                        self.consume();
                    } else {
                        break ;
                    }
                },
                None => {
                    break ;
                },
            }
        }
    }

    /// The error for an unreadable number that starts at byte `start`.
    fn number_error(&self, kind: ParseErrorKind, start: usize, stop: Option<usize>) -> (e: DiceError)
        ensures
            e == (DiceError::ParseError { kind, input: e->ParseError_input, start, stop }),
            e->ParseError_input@ == self.text(),
    {
        DiceError::ParseError { kind, input: self.input.to_owned(), start, stop }
    }

    /// Reads a `u32` written in decimal, after any whitespace.
    pub fn parse_u32(&mut self) -> (r: Result<u32, DiceError>)
        ensures
            final(self).text() == old(self).text(),
            (result_view(r), final(self).position()) == spec_parse_u32(
                old(self).text(),
                old(self).position(),
            ),
            old(self).position() <= final(self).position(),
    {
        self.skip_ws();
        let start = self.byte_pos();
        let a = self.cursor.index;
        self.skip_digits();
        let b = self.cursor.index;
        proof {
            use_type_invariant(&*self);
        }
        if a == b {
            return Err(self.number_error(ParseErrorKind::ExpectedNumber, start, None));
        }
        match decimal_value(&self.chars, a, b, u32::MAX) {
            Some(v) => Ok(v),
            None => {
                let stop = self.byte_pos();
                Err(self.number_error(ParseErrorKind::InvalidU32, start, Some(stop)))
            },
        }
    }

    /// Reads an `i32` written in decimal with an optional leading `-`, after any whitespace.
    pub fn parse_i32(&mut self) -> (r: Result<i32, DiceError>)
        ensures
            final(self).text() == old(self).text(),
            (result_view(r), final(self).position()) == spec_parse_i32(
                old(self).text(),
                old(self).position(),
            ),
            old(self).position() <= final(self).position(),
    {
        self.skip_ws();
        let start = self.byte_pos();
        let a = self.cursor.index;
        let mut is_negative = false;
        match self.peek() {
            Some(c) => {
                if c == '-' {
                    is_negative = true;
                    self.consume();
                }
            },
            None => {},
        }
        let k = self.cursor.index;
        self.skip_digits();
        let b = self.cursor.index;
        proof {
            use_type_invariant(&*self);
        }
        if !is_negative && a == b {
            return Err(self.number_error(ParseErrorKind::ExpectedNumber, start, None));
        }
        let stop = self.byte_pos();
        if is_negative && b == k {
            return Err(self.number_error(ParseErrorKind::ExpectedNumber, start, Some(stop)));
        }
        let limit: u32 = if is_negative {
            2147483648
        } else {
            2147483647
        };
        match decimal_value(&self.chars, k, b, limit) {
            Some(v) => {
                if !is_negative {
                    Ok(v as i32)
                } else if v == 2147483648 {
                    Ok(i32::MIN)
                } else {
                    Ok(-(v as i32))
                }
            },
            None => Err(self.number_error(ParseErrorKind::InvalidI32, start, Some(stop))),
        }
    }

    /// Reads a term: an `i32` literal, or a roll `count d sides` with an optional `kh n` or
    /// `kl n` (where `n` defaults to 1).
    pub fn parse_term(&mut self) -> (r: Result<DiceExpr, DiceError>)
        ensures
            final(self).text() == old(self).text(),
            (result_view(r), final(self).position()) == spec_parse_term(
                old(self).text(),
                old(self).position(),
            ),
            old(self).position() <= final(self).position(),
    {
        reveal(spec_parse_term);
        let start = self.byte_pos();
        let count = match self.parse_i32() {
            Ok(count) => count,
            Err(e) => return Err(e),
        };
        self.skip_ws();
        let is_roll = match self.peek() {
            Some(c) => c == 'd',
            None => false,
        };
        if !is_roll {
            return Ok(DiceExpr::Literal(count));
        }
        if count < 0 {
            let stop = self.byte_pos();
            return Err(
                DiceError::SyntaxError {
                    input: self.input.to_owned(),
                    start,
                    stop: Some(stop),
                    expected: Some("non-negative value for dice count".to_owned()),
                },
            );
        }
        self.consume();
        let sides = match self.parse_u32() {
            Ok(sides) => sides,
            Err(e) => return Err(e),
        };
        self.skip_ws();
        let has_keep = match self.peek() {
            Some(c) => c == 'k',
            None => false,
        };
        if !has_keep {
            return Ok(DiceExpr::Roll(RollSpec::new(count as u32, sides, None)));
        }
        self.consume();
        let (highest, lowest) = match self.peek() {
            Some(c) => (c == 'h', c == 'l'),
            None => (false, false),
        };
        if !highest && !lowest {
            let stop = self.byte_pos();
            return Err(
                DiceError::SyntaxError {
                    input: self.input.to_owned(),
                    start,
                    stop: Some(stop),
                    expected: Some("'kh' for keep highest or 'kl' for keep lowest".to_owned()),
                },
            );
        }
        self.skip_ws();
        self.consume();
        self.skip_ws();
        let digit_next = match self.peek() {
            Some(c) => is_ascii_digit(c),
            None => false,
        };
        let n = if digit_next {
            match self.parse_u32() {
                Ok(n) => n,
                Err(e) => return Err(e),
            }
        } else {
            1
        };
        let keep = if highest {
            Keep::Highest(n)
        } else {
            Keep::Lowest(n)
        };
        Ok(DiceExpr::Roll(RollSpec::new(count as u32, sides, Some(keep))))
    }

    /// Reads terms joined by `+` and `-`, grouping them from the left.
    pub fn parse_expr(&mut self) -> (r: Result<DiceExpr, DiceError>)
        ensures
            final(self).text() == old(self).text(),
            (result_view(r), final(self).position()) == spec_parse_expr(
                old(self).text(),
                old(self).position(),
            ),
            old(self).position() <= final(self).position(),
    {
        let ghost s = self.text();
        let ghost p0 = self.position();
        let ghost target = spec_parse_expr(s, p0);
        let mut node = match self.parse_term() {
            Ok(t) => t,
            Err(e) => return Err(e),
        };
        proof {
            use_type_invariant(&*self);
        }
        loop
            invariant
                s == old(self).text(),
                p0 == old(self).position(),
                target == spec_parse_expr(s, p0),
                self.text() == s,
                p0 <= self.position() <= s.len(),
                spec_parse_rest(s, self.position(), node) == target,
            decreases s.len() - self.position(),
        {
            let ghost i = self.position();
            self.skip_ws();
            let (plus, minus) = match self.peek() {
                Some(c) => (c == '+', c == '-'),
                None => (false, false),
            };
            if !plus && !minus {
                return Ok(node);
            }
            self.consume();
            let rhs = match self.parse_term() {
                Ok(t) => t,
                Err(e) => return Err(e),
            };
            proof {
                use_type_invariant(&*self);
            }
            node = if plus {
                DiceExpr::Sum(Box::new(node), Box::new(rhs))
            } else {
                DiceExpr::Difference(Box::new(node), Box::new(rhs))
            };
        }
    }

    /// Reads a whole expression; only whitespace may follow it.
    pub fn parse(&mut self) -> (r: Result<DiceExpr, DiceError>)
        ensures
            final(self).text() == old(self).text(),
            (result_view(r), final(self).position()) == spec_parse_all(
                old(self).text(),
                old(self).position(),
            ),
    {
        let expr = match self.parse_expr() {
            Ok(e) => e,
            Err(e) => return Err(e),
        };
        self.skip_ws();
        match self.peek() {
            Some(_) => Err(
                DiceError::TrailingInput { input: self.input.to_owned(), pos: self.byte_pos() },
            ),
            None => Ok(expr),
        }
    }
}

} // verus!
