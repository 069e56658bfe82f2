//! Character classes, decimal values and UTF-8 byte offsets of character sequences.

use vstd::prelude::*;
use vstd::utf8::{char_is_scalar, encode_scalar, encode_utf8};

verus! {

/// Whether `c` has the Unicode `White_Space` property (what `char::is_whitespace` tests).
pub open spec fn is_white_space_char(c: char) -> bool {
    let u = c as u32;
    ||| 0x09 <= u <= 0x0D
    ||| u == 0x20
    ||| u == 0x85
    ||| u == 0xA0
    ||| u == 0x1680
    ||| 0x2000 <= u <= 0x200A
    ||| u == 0x2028
    ||| u == 0x2029
    ||| u == 0x202F
    ||| u == 0x205F
    ||| u == 0x3000
}

/// Whether `c` is one of the ASCII digits `0` to `9`.
pub open spec fn is_digit_char(c: char) -> bool {
    '0' <= c <= '9'
}

/// The numeric value of an ASCII digit.
pub open spec fn digit_value(c: char) -> nat {
    ((c as u32) - ('0' as u32)) as nat
}

/// The value of a sequence of ASCII digits read in base ten.
pub open spec fn decimal_of(digits: Seq<char>) -> nat
    decreases digits.len(),
{
    if digits.len() == 0 {
        0
    } else {
        decimal_of(digits.drop_last()) * 10 + digit_value(digits.last())
    }
}

/// The number of bytes in the UTF-8 encoding of `c`.
pub open spec fn width_of(c: char) -> nat {
    let u = c as u32;
    if u <= 0x7F {
        1
    } else if u <= 0x7FF {
        2
    } else if u <= 0xFFFF {
        3
    } else {
        4
    }
}

/// The byte offset, in the UTF-8 encoding of `s`, of the character at index `i`.
pub open spec fn byte_offset(s: Seq<char>, i: int) -> nat {
    encode_utf8(s.take(i)).len()
}

/// Whitespace test, with the same answers as `char::is_whitespace`.
pub fn is_white_space(c: char) -> (b: bool)
    ensures
        b == is_white_space_char(c),
{
    let u = c as u32;
    (0x09 <= u && u <= 0x0D) || u == 0x20 || u == 0x85 || u == 0xA0 || u == 0x1680 || (0x2000 <= u
        && u <= 0x200A) || u == 0x2028 || u == 0x2029 || u == 0x202F || u == 0x205F || u == 0x3000
}

/// ASCII digit test, with the same answers as `char::is_ascii_digit`.
pub fn is_ascii_digit(c: char) -> (b: bool)
    ensures
        b == is_digit_char(c),
{
    '0' <= c && c <= '9'
}

/// The length in bytes of the UTF-8 encoding of `c`, as `char::len_utf8` gives it.
pub fn utf8_width(c: char) -> (w: usize)
    ensures
        w == width_of(c),
        1 <= w <= 4,
{
    let u = c as u32;
    if u <= 0x7F {
        1
    } else if u <= 0x7FF {
        2
    } else if u <= 0xFFFF {
        3
    } else {
        4
    }
}

/// The value of the ASCII digits `chars[from..to]` in base ten, or `None` when it exceeds `limit`.
pub fn decimal_value(chars: &Vec<char>, from: usize, to: usize, limit: u32) -> (r: Option<u32>)
    requires
        from <= to <= chars.len(),
        forall|k: int| from <= k < to ==> is_digit_char(#[trigger] chars@[k]),
    ensures
        match r {
            Some(v) => v == decimal_of(chars@.subrange(from as int, to as int)) && v <= limit,
            None => decimal_of(chars@.subrange(from as int, to as int)) > limit,
        },
{
    let mut acc: u64 = 0;
    let mut i = from;
    assert(chars@.subrange(from as int, from as int) =~= Seq::<char>::empty());
    while i < to
        invariant
            from <= i <= to <= chars.len(),
            forall|k: int| from <= k < to ==> is_digit_char(#[trigger] chars@[k]),
            acc == decimal_of(chars@.subrange(from as int, i as int)),
            acc <= limit,
        decreases to - i,
    {
        let c = chars[i];
        let d = (c as u32 - '0' as u32) as u64;
        assert(chars@.subrange(from as int, i + 1).drop_last() =~= chars@.subrange(
            from as int,
            i as int,
        ));
        let next = acc * 10 + d;
        i = i + 1;
        if next > limit as u64 {
            proof {
                lemma_decimal_grows(chars@.subrange(from as int, to as int), i - from);
                assert(chars@.subrange(from as int, to as int).take(i - from) =~= chars@.subrange(
                    from as int,
                    i as int,
                ));
            }
            return None;
        }
        acc = next;
    }
    Some(acc as u32)
}

/// A longer run of digits never has a smaller value than its prefix.
pub proof fn lemma_decimal_grows(digits: Seq<char>, k: int)
    requires
        0 <= k <= digits.len(),
    ensures
        decimal_of(digits.take(k)) <= decimal_of(digits),
    decreases digits.len() - k,
{
    if k < digits.len() {
        lemma_decimal_grows(digits, k + 1);
        assert(digits.take(k + 1).drop_last() =~= digits.take(k));
    } else {
        assert(digits.take(k) =~= digits);
    }
}

/// The UTF-8 encoding of a character takes `width_of` bytes.
pub proof fn lemma_scalar_width(c: char)
    ensures
        encode_scalar(c as u32).len() == width_of(c),
{
    char_is_scalar(c);
}

/// Encoding distributes over concatenation.
pub proof fn lemma_encode_concat(a: Seq<char>, b: Seq<char>)
    ensures
        encode_utf8(a + b) == encode_utf8(a) + encode_utf8(b),
    decreases a.len(),
{
    if a.len() == 0 {
        assert(a + b =~= b);
        assert(encode_utf8(a) =~= Seq::<u8>::empty());
        assert(encode_utf8(a) + encode_utf8(b) =~= encode_utf8(b));
    } else {
        assert((a + b).drop_first() =~= a.drop_first() + b);
        lemma_encode_concat(a.drop_first(), b);
        assert(encode_utf8(a + b) =~= encode_scalar(a[0] as u32) + encode_utf8(a.drop_first() + b));
    }
}

/// Moving past the character at `i` moves the byte offset by its width.
pub proof fn lemma_byte_offset_step(s: Seq<char>, i: int)
    requires
        0 <= i < s.len(),
    ensures
        byte_offset(s, i + 1) == byte_offset(s, i) + width_of(s[i]),
{
    assert(s.take(i + 1) =~= s.take(i) + seq![s[i]]);
    lemma_encode_concat(s.take(i), seq![s[i]]);
    assert(seq![s[i]].drop_first() =~= Seq::<char>::empty());
    assert(encode_utf8(seq![s[i]]) =~= encode_scalar(s[i] as u32) + encode_utf8(
        Seq::<char>::empty(),
    ));
    lemma_scalar_width(s[i]);
}

/// Byte offsets grow with the character index.
pub proof fn lemma_byte_offset_monotone(s: Seq<char>, i: int, j: int)
    requires
        0 <= i <= j <= s.len(),
    ensures
        byte_offset(s, i) <= byte_offset(s, j),
{
    assert(s.take(j) =~= s.take(i) + s.subrange(i, j));
    lemma_encode_concat(s.take(i), s.subrange(i, j));
}

} // verus!
