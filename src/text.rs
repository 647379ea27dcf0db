//! Text conversions used by the decoder: UTF-8 validation and decimal literals.

use vstd::prelude::*;
use vstd::utf8::*;

verus! {

/// An ASCII decimal digit.
pub open spec fn is_digit_char(c: char) -> bool {
    '0' <= c && c <= '9'
}

/// One or more ASCII decimal digits.
pub open spec fn all_digits(t: Seq<char>) -> bool {
    &&& t.len() > 0
    &&& forall|i: int| 0 <= i < t.len() ==> is_digit_char(#[trigger] t[i])
}

/// The number a run of decimal digits denotes.
pub open spec fn digits_value(t: Seq<char>) -> int
    decreases t.len(),
{
    if t.len() == 0 {
        0
    } else {
        digits_value(t.drop_last()) * 10 + (t.last() as int - '0' as int)
    }
}

/// The value of a signed decimal literal: an optional `+` or `-` sign
/// followed by one or more digits.
pub open spec fn signed_literal(t: Seq<char>) -> Option<int> {
    if t.len() > 0 && t[0] == '-' && all_digits(t.drop_first()) {
        Some(-digits_value(t.drop_first()))
    } else if t.len() > 0 && t[0] == '+' && all_digits(t.drop_first()) {
        Some(digits_value(t.drop_first()))
    } else if all_digits(t) {
        Some(digits_value(t))
    } else {
        None
    }
}

/// The value of an integer literal: an optional `-` followed by one or more
/// digits.
pub open spec fn integer_literal(t: Seq<char>) -> Option<int> {
    if t.len() > 0 && t[0] == '-' && all_digits(t.drop_first()) {
        Some(-digits_value(t.drop_first()))
    } else if all_digits(t) {
        Some(digits_value(t))
    } else {
        None
    }
}

/// The value of an integer literal, if it fits in a signed 64-bit integer.
pub open spec fn literal_i64(t: Seq<char>) -> Option<i64> {
    match integer_literal(t) {
        Some(v) => if i64::MIN <= v <= i64::MAX {
            Some(v as i64)
        } else {
            None
        },
        None => None,
    }
}

/// The value of an unsigned decimal literal: an optional `+` sign followed by
/// one or more digits.
pub open spec fn unsigned_literal(t: Seq<char>) -> Option<int> {
    if t.len() > 0 && t[0] == '+' && all_digits(t.drop_first()) {
        Some(digits_value(t.drop_first()))
    } else if all_digits(t) {
        Some(digits_value(t))
    } else {
        None
    }
}

/// The text that `b` encodes, if `b` is well-formed UTF-8.
pub open spec fn utf8_of(b: Seq<u8>) -> Option<Seq<char>> {
    if valid_utf8(b) {
        Some(decode_utf8(b))
    } else {
        None
    }
}

/// The signed 64-bit integer a text denotes, if it is a signed literal in range.
pub open spec fn i64_of(t: Seq<char>) -> Option<i64> {
    match signed_literal(t) {
        Some(v) => if i64::MIN <= v <= i64::MAX {
            Some(v as i64)
        } else {
            None
        },
        None => None,
    }
}

/// The `usize` a text denotes, if it is an unsigned literal in range.
pub open spec fn usize_of(t: Seq<char>) -> Option<usize> {
    match unsigned_literal(t) {
        Some(v) => if v <= usize::MAX {
            Some(v as usize)
        } else {
            None
        },
        None => None,
    }
}

/// Relies on `std::str::from_utf8`: it accepts exactly the well-formed UTF-8
/// byte sequences and then yields the text they encode.
#[verifier::external_body]
pub fn utf8_text(b: &[u8]) -> (r: Option<&str>)
    ensures
        r matches Some(t) ==> utf8_of(b@) == Some(t@),
        r is None ==> utf8_of(b@) is None,
{
    std::str::from_utf8(b).ok()
}

/// Relies on `<i64 as FromStr>::from_str`: an optional sign and one or more
/// ASCII digits, with the value in range, and nothing else.
#[verifier::external_body]
pub fn parse_i64(t: &str) -> (r: Option<i64>)
    ensures
        r == i64_of(t@),
{
    t.parse::<i64>().ok()
}

/// Relies on `<usize as FromStr>::from_str`: an optional `+` and one or more
/// ASCII digits, with the value in range, and nothing else.
#[verifier::external_body]
pub fn parse_usize(t: &str) -> (r: Option<usize>)
    ensures
        r == usize_of(t@),
{
    t.parse::<usize>().ok()
}

/// The ASCII digit of a value below 10.
pub open spec fn digit_char(v: int) -> char {
    seq!['0', '1', '2', '3', '4', '5', '6', '7', '8', '9'][v]
}

/// Decimal digits of a number, without leading zeros.
pub open spec fn decimal_of(n: nat) -> Seq<char>
    decreases n,
{
    if n < 10 {
        seq![digit_char(n as int)]
    } else {
        decimal_of(n / 10) + seq![digit_char((n % 10) as int)]
    }
}

/// Decimal digits of an integer, after a `-` when it is negative.
pub open spec fn signed_decimal_of(n: int) -> Seq<char> {
    if n < 0 {
        seq!['-'] + decimal_of((-n) as nat)
    } else {
        decimal_of(n as nat)
    }
}

/// Relies on `ToString` for `usize`, which formats the number in decimal.
#[verifier::external_body]
pub(crate) fn decimal(n: usize) -> (r: String)
    ensures
        r@ == decimal_of(n as nat),
{
    n.to_string()
}

/// Relies on `ToString` for `i64`, which formats the number in decimal,
/// after a `-` when it is negative.
#[verifier::external_body]
pub(crate) fn signed_decimal(n: i64) -> (r: String)
    ensures
        r@ == signed_decimal_of(n as int),
{
    n.to_string()
}

/// A text that is a signed literal for std and does not start with `+` is an
/// integer literal with the same value.
pub proof fn lemma_literal_without_plus(t: Seq<char>)
    requires
        !(t.len() > 0 && t[0] == '+'),
    ensures
        i64_of(t) == literal_i64(t),
{
}

/// A text that starts with `+` is no integer literal.
pub proof fn lemma_plus_start(t: Seq<char>)
    requires
        t.len() > 0 && t[0] == '+',
    ensures
        literal_i64(t) is None,
{
    assert(!is_digit_char(t[0]));
}

/// Well-formed UTF-8 text starts with `+` exactly when its first byte is the
/// byte of `+`.
pub proof fn lemma_leading_plus(b: Seq<u8>)
    requires
        valid_utf8(b),
        b.len() > 0,
    ensures
        decode_utf8(b).len() > 0,
        (decode_utf8(b)[0] == '+') <==> (b[0] == 0x2b),
{
    let t = decode_utf8(b);
    decode_utf8_encode_utf8(b);
    assert(t.len() > 0);
    if t[0] == '+' {
        assert(('+' as u32) == 43);
        assert(((43u32 & 0x7f) as u8) == 0x2bu8) by (bit_vector);
        assert(encode_utf8(t)[0] == 0x2b);
    }
    if b[0] == 0x2b {
        assert(((0x2bu8 & 0x7f) as u32) == 43u32) by (bit_vector);
        assert(decode_first_scalar(b) == 43);
        char_u32_cast('+', 43);
    }
}

} // verus!
