//! The errors of parsing and rolling.

use vstd::prelude::*;
use vstd::string::{StrSliceExecFns, StringExecFns};

use crate::ast::{Keep, RollSpec};
use crate::parser::Parser;
use crate::text::byte_offset;

verus! {

/// Errors of parsing or evaluating a dice expression.
#[derive(Debug, Clone)]
pub enum DiceError {
    /// An integer overflowed during evaluation.
    Overflow(String),
    /// The roll specification cannot be evaluated (it keeps more dice than it rolls).
    InvalidSpec(RollSpec, String),
    /// A number was expected or could not be read.
    ParseError {
        /// What went wrong.
        kind: ParseErrorKind,
        /// The whole input.
        input: String,
        /// Byte offset where the faulty text starts.
        start: usize,
        /// Byte offset where the faulty text ends, when known.
        stop: Option<usize>,
    },
    /// The expression is not well formed.
    SyntaxError {
        /// The whole input.
        input: String,
        /// Byte offset where the faulty text starts.
        start: usize,
        /// Byte offset where the faulty text ends, when known.
        stop: Option<usize>,
        /// What was expected instead.
        expected: Option<String>,
    },
    /// Characters are left over after a complete expression.
    TrailingInput {
        /// The whole input.
        input: String,
        /// Byte offset of the first left-over character.
        pos: usize,
    },
    /// Dice had to be drawn, but no generator could be seeded (the operating system provided
    /// no entropy).
    RandomnessUnavailable,
}

/// The kind of a number that could not be read.
#[derive(Debug, Clone, Copy, PartialEq, Eq, Structural)]
pub enum ParseErrorKind {
    /// No digits where a number was expected.
    ExpectedNumber,
    /// The text is not an `i32`.
    InvalidI32,
    /// The text is not a `u32`.
    InvalidU32,
}

/// A `DiceError` with its strings taken as character sequences.
pub enum DiceErrorView {
    Overflow(Seq<char>),
    InvalidSpec(RollSpec, Seq<char>),
    ParseError { kind: ParseErrorKind, input: Seq<char>, start: nat, stop: Option<nat> },
    SyntaxError {
        input: Seq<char>,
        start: nat,
        stop: Option<nat>,
        expected: Option<Seq<char>>,
    },
    TrailingInput { input: Seq<char>, pos: nat },
    RandomnessUnavailable,
}

/// An optional byte offset as a natural number.
pub open spec fn offset_view(o: Option<usize>) -> Option<nat> {
    match o {
        Some(i) => Some(i as nat),
        None => None,
    }
}

impl View for DiceError {
    type V = DiceErrorView;

    open spec fn view(&self) -> DiceErrorView {
        match self {
            DiceError::Overflow(msg) => DiceErrorView::Overflow(msg@),
            DiceError::InvalidSpec(spec, msg) => DiceErrorView::InvalidSpec(*spec, msg@),
            DiceError::ParseError { kind, input, start, stop } => DiceErrorView::ParseError {
                kind: *kind,
                input: input@,
                start: *start as nat,
                stop: offset_view(*stop),
            },
            DiceError::SyntaxError { input, start, stop, expected } => DiceErrorView::SyntaxError {
                input: input@,
                start: *start as nat,
                stop: offset_view(*stop),
                expected: match expected {
                    Some(e) => Some(e@),
                    None => None,
                },
            },
            DiceError::TrailingInput { input, pos } => DiceErrorView::TrailingInput {
                input: input@,
                pos: *pos as nat,
            },
            DiceError::RandomnessUnavailable => DiceErrorView::RandomnessUnavailable,
        }
    }
}

/// A result whose error is taken by its view.
pub open spec fn result_view<T>(r: Result<T, DiceError>) -> Result<T, DiceErrorView> {
    match r {
        Ok(v) => Ok(v),
        Err(e) => Err(e@),
    }
}

/// `n` copies of `c`.
pub open spec fn repeat_char(c: char, n: nat) -> Seq<char> {
    Seq::new(n, |_i: int| c)
}

/// The line under the input that marks the faulty text: spaces up to `start`, then one caret
/// per character up to `stop` (at least one).
pub open spec fn marker(start: nat, stop: Option<nat>) -> Seq<char> {
    repeat_char(' ', start) + match stop {
        Some(i) => repeat_char(
            '^',
            if i - start >= 1 {
                (i - start) as nat
            } else {
                1
            },
        ),
        None => seq!['^'],
    }
}

/// The character of the decimal digit `d`.
pub open spec fn digit_char(d: nat) -> char {
    seq!['0', '1', '2', '3', '4', '5', '6', '7', '8', '9'][d as int]
}

/// `n` written in decimal.
pub open spec fn decimal_text(n: nat) -> Seq<char>
    decreases n,
{
    if n < 10 {
        seq![digit_char(n)]
    } else {
        decimal_text(n / 10) + seq![digit_char(n % 10)]
    }
}

/// A keep specification as its derived `Debug` writes it.
pub open spec fn keep_text(keep: Option<Keep>) -> Seq<char> {
    match keep {
        None => "None"@,
        Some(Keep::Highest(n)) => "Some(Highest("@ + decimal_text(n as nat) + "))"@,
        Some(Keep::Lowest(n)) => "Some(Lowest("@ + decimal_text(n as nat) + "))"@,
    }
}

/// A roll specification as its derived `Debug` writes it.
pub open spec fn roll_spec_text(spec: RollSpec) -> Seq<char> {
    "RollSpec { count: "@ + decimal_text(spec.count as nat) + ", sides: "@ + decimal_text(
        spec.sides as nat,
    ) + ", keep: "@ + keep_text(spec.keep) + " }"@
}

/// The first line of the message of a number error.
pub open spec fn kind_heading(kind: ParseErrorKind) -> Seq<char> {
    match kind {
        ParseErrorKind::ExpectedNumber => "expected number in input, found nothing here:"@,
        ParseErrorKind::InvalidI32 => "invalid i32 literal in input, parse errored here:"@,
        ParseErrorKind::InvalidU32 => "invalid u32 literal in input, parse errored here:"@,
    }
}

/// A line break.
pub open spec fn newline() -> Seq<char> {
    seq!['\n']
}

/// The positions of an error lie where its message can mark them: a stop is not before its
/// start.
pub open spec fn message_defined(e: DiceErrorView) -> bool {
    match e {
        DiceErrorView::ParseError { start, stop, .. } => stop matches Some(i) ==> start <= i,
        DiceErrorView::SyntaxError { start, stop, .. } => stop matches Some(i) ==> start <= i,
        _ => true,
    }
}

/// The index of the first character of `s`, from index `k` on, that starts at byte offset `b`
/// or later (the length of `s` when there is none).
pub open spec fn char_index_at_byte(s: Seq<char>, b: nat, k: int) -> int
    decreases s.len() - k,
{
    if 0 <= k < s.len() && byte_offset(s, k) < b {
        char_index_at_byte(s, b, k + 1)
    } else {
        k
    }
}

/// The human-readable message of an error.
pub open spec fn message(e: DiceErrorView) -> Seq<char> {
    match e {
        DiceErrorView::Overflow(msg) => "dice overflow error: "@ + msg,
        DiceErrorView::InvalidSpec(spec, msg) => "invalid RollSpec error: "@ + msg + ", "@
            + roll_spec_text(spec),
        DiceErrorView::ParseError { kind, input, start, stop } => kind_heading(kind) + newline()
            + input + newline() + marker(start, stop),
        DiceErrorView::SyntaxError { input, start, stop, expected } => "syntax error in dice expression here:"@
            + newline() + input + newline() + marker(start, stop) + match expected {
            Some(x) => newline() + "expected: "@ + x,
            None => Seq::empty(),
        },
        DiceErrorView::TrailingInput { input, pos } => "trailing input encountered in expression:"@
            + newline() + input + newline() + repeat_char(' ', pos) + repeat_char(
            '^',
            (input.len() - char_index_at_byte(input, pos, 0)) as nat,
        ),
        DiceErrorView::RandomnessUnavailable => "dice generator unavailable: the operating system provided no entropy"@,
    }
}

/// Appends `n` copies of the one-character string `piece`.
fn push_repeated(out: &mut String, piece: &str, n: usize)
    requires
        piece@.len() == 1,
    ensures
        final(out)@ == old(out)@ + repeat_char(piece@[0], n as nat),
{
    let mut i: usize = 0;
    while i < n
        invariant
            piece@.len() == 1,
            i <= n,
            out@ == old(out)@ + repeat_char(piece@[0], i as nat),
        decreases n - i,
    {
        out.append(piece);
        assert(repeat_char(piece@[0], i as nat) + piece@ =~= repeat_char(piece@[0], (i + 1) as nat));
        i = i + 1;
    }
}

/// The one-character string of the decimal digit `d`.
fn digit_str(d: u32) -> (s: &'static str)
    requires
        d < 10,
    ensures
        s@ == seq![digit_char(d as nat)],
{
    proof {
        reveal_strlit("0");
        reveal_strlit("1");
        reveal_strlit("2");
        reveal_strlit("3");
        reveal_strlit("4");
        reveal_strlit("5");
        reveal_strlit("6");
        reveal_strlit("7");
        reveal_strlit("8");
        reveal_strlit("9");
    }
    let s = match d {
        0 => "0",
        1 => "1",
        2 => "2",
        3 => "3",
        4 => "4",
        5 => "5",
        6 => "6",
        7 => "7",
        8 => "8",
        _ => "9",
    };
    assert(s@ =~= seq![digit_char(d as nat)]);
    s
}

/// Appends `n` written in decimal.
fn push_decimal(out: &mut String, n: u32)
    ensures
        final(out)@ == old(out)@ + decimal_text(n as nat),
    decreases n,
{
    if n >= 10 {
        push_decimal(out, n / 10);
    }
    out.append(digit_str(n % 10));
    proof {
        if n >= 10 {
            assert(old(out)@ + decimal_text(n as nat) =~= old(out)@ + decimal_text((n / 10) as nat)
                + seq![digit_char((n % 10) as nat)]);
        }
    }
}

/// Appends a keep specification as its derived `Debug` writes it.
fn push_keep(out: &mut String, keep: Option<Keep>)
    ensures
        final(out)@ == old(out)@ + keep_text(keep),
{
    match keep {
        None => out.append("None"),
        Some(Keep::Highest(n)) => {
            out.append("Some(Highest(");
            push_decimal(out, n);
            out.append("))");
            assert(out@ =~= old(out)@ + keep_text(keep));
        },
        Some(Keep::Lowest(n)) => {
            out.append("Some(Lowest(");
            push_decimal(out, n);
            out.append("))");
            assert(out@ =~= old(out)@ + keep_text(keep));
        },
    }
}

/// Appends the marker line (see `marker`).
fn push_marker(out: &mut String, start: usize, stop: Option<usize>)
    requires
        stop matches Some(i) ==> start <= i,
    ensures
        final(out)@ == old(out)@ + marker(start as nat, offset_view(stop)),
{
    proof {
        reveal_strlit(" ");
        reveal_strlit("^");
    }
    push_repeated(out, " ", start);
    match stop {
        Some(i) => {
            let width = if i - start >= 1 {
                i - start
            } else {
                1
            };
            push_repeated(out, "^", width);
        },
        None => {
            out.append("^");
        },
    }
    assert(out@ =~= old(out)@ + marker(start as nat, offset_view(stop)));
}

impl DiceError {
    /// The human-readable message of this error: what went wrong and, for errors in the input,
    /// the input with the faulty text marked by carets underneath.
    pub fn to_string(&self) -> (s: String)
        requires
            message_defined(self@),
        ensures
            s@ == message(self@),
    {
        proof {
            reveal_strlit("\n");
        }
        let mut out = String::new();
        match self {
            DiceError::Overflow(msg) => {
                out.append("dice overflow error: ");
                out.append(msg.as_str());
            },
            DiceError::InvalidSpec(spec, msg) => {
                out.append("invalid RollSpec error: ");
                out.append(msg.as_str());
                out.append(", RollSpec { count: ");
                push_decimal(&mut out, spec.count);
                out.append(", sides: ");
                push_decimal(&mut out, spec.sides);
                out.append(", keep: ");
                push_keep(&mut out, spec.keep);
                out.append(" }");
                assert(", RollSpec { count: "@ =~= ", "@ + "RollSpec { count: "@) by {
                    reveal_strlit(", RollSpec { count: ");
                    reveal_strlit(", ");
                    reveal_strlit("RollSpec { count: ");
                }
            },
            DiceError::ParseError { kind, input, start, stop } => {
                let heading = match kind {
                    ParseErrorKind::ExpectedNumber => "expected number in input, found nothing here:",
                    ParseErrorKind::InvalidI32 => "invalid i32 literal in input, parse errored here:",
                    ParseErrorKind::InvalidU32 => "invalid u32 literal in input, parse errored here:",
                };
                out.append(heading);
                out.append("\n");
                out.append(input.as_str());
                out.append("\n");
                push_marker(&mut out, *start, *stop);
            },
            DiceError::SyntaxError { input, start, stop, expected } => {
                out.append("syntax error in dice expression here:");
                out.append("\n");
                out.append(input.as_str());
                out.append("\n");
                push_marker(&mut out, *start, *stop);
                match expected {
                    Some(x) => {
                        out.append("\n");
                        out.append("expected: ");
                        out.append(x.as_str());
                    },
                    None => {},
                }
            },
            DiceError::TrailingInput { input, pos } => {
                out.append("trailing input encountered in expression:");
                out.append("\n");
                out.append(input.as_str());
                out.append("\n");
                proof {
                    reveal_strlit(" ");
                    reveal_strlit("^");
                }
                push_repeated(&mut out, " ", *pos);
                let count = input.as_str().unicode_len();
                let mut cursor = Parser::new(input.as_str());
                let mut k: usize = 0;
                loop
                    invariant
                        count == input@.len(),
                        cursor.text() == input@,
                        k == cursor.position(),
                        0 <= k <= count,
                        char_index_at_byte(input@, *pos as nat, k as int) == char_index_at_byte(
                            input@,
                            *pos as nat,
                            0,
                        ),
                    ensures
                        k == char_index_at_byte(input@, *pos as nat, 0),
                        0 <= k <= count,
                    decreases count - k,
                {
                    if cursor.byte_pos() >= *pos {
                        break ;
                    }
                    match cursor.consume() {
                        Some(_) => {
                            k = k + 1;
                        },
                        None => {
                            break ;
                        },
                    }
                }
                push_repeated(&mut out, "^", count - k);
            },
            DiceError::RandomnessUnavailable => {
                out.append("dice generator unavailable: the operating system provided no entropy");
            },
        }
        assert(out@ =~= message(self@));
        out
    }
}

} // verus!
