//! Bytes as hexadecimal text, and back.
use vstd::prelude::*;
use vstd::string::*;
use vstd::utf8::*;

use crate::text;

verus! {

/// Why text is not hexadecimal.
#[derive(Debug, Clone, Copy, PartialEq, Eq, Structural)]
pub enum HexError {
    /// A byte of the text is not a digit.
    InvalidHexCharacter { c: char, index: usize },
    /// The text has an odd number of bytes.
    OddLength,
    /// The text is not as long as its target.
    InvalidStringLength,
}

/// Bytes as hexadecimal text, in lower case.
pub open spec fn hex_text(b: Seq<u8>) -> Seq<char>
    decreases b.len(),
{
    if b.len() == 0 {
        Seq::empty()
    } else {
        hex_text(b.drop_last()) + text::hex_byte(b.last())
    }
}

/// The value of a hexadecimal digit, or -1.
pub open spec fn digit_value(c: u8) -> int {
    if 48 <= c <= 57 {
        c - 48
    } else if 65 <= c <= 70 {
        c - 55
    } else if 97 <= c <= 102 {
        c - 87
    } else {
        -1
    }
}

/// Where the first byte stands that is not a digit.
pub open spec fn first_invalid(b: Seq<u8>) -> int
    decreases b.len(),
{
    if b.len() == 0 {
        0
    } else if digit_value(b[0]) < 0 {
        0
    } else {
        1 + first_invalid(b.drop_first())
    }
}

/// The bytes that digits stand for, two for each.
pub open spec fn digits_value(b: Seq<u8>) -> Seq<u8> {
    Seq::new(b.len() / 2, |i: int| (16 * digit_value(b[2 * i]) + digit_value(b[2 * i + 1])) as u8)
}

/// The bytes that the bytes of a text stand for, or why there are none.
pub open spec fn unhex(b: Seq<u8>) -> Result<Seq<u8>, HexError> {
    if b.len() % 2 != 0 {
        Err(HexError::OddLength)
    } else if first_invalid(b) < b.len() {
        Err(
            HexError::InvalidHexCharacter {
                c: b[first_invalid(b)] as char,
                index: first_invalid(b) as usize,
            },
        )
    } else {
        Ok(digits_value(b))
    }
}

/// `hex::encode`: two digits in lower case for each byte.
#[verifier::external_body]
pub(crate) fn encode(b: &[u8]) -> (r: String)
    ensures
        r@ == hex_text(b@),
{
    hex::encode(b)
}

/// `hex::decode`: the number of bytes of the text is looked at first, then each
/// of its bytes in turn.
#[verifier::external_body]
pub(crate) fn decode(s: &str) -> (r: Result<Vec<u8>, HexError>)
    ensures
        match (r, unhex(encode_utf8(s@))) {
            (Ok(v), Ok(out)) => v@ == out,
            (Err(e), Err(reason)) => e == reason,
            _ => false,
        },
{
    match hex::decode(s) {
        Ok(v) => Ok(v),
        Err(hex::FromHexError::InvalidHexCharacter { c, index }) => Err(HexError::InvalidHexCharacter { c, index }),
        Err(hex::FromHexError::OddLength) => Err(HexError::OddLength),
        Err(hex::FromHexError::InvalidStringLength) => Err(HexError::InvalidStringLength),
    }
}

/// The digits of bytes, two for each, all of them ASCII.
proof fn lemma_hex_text(b: Seq<u8>)
    ensures
        hex_text(b).len() == 2 * b.len(),
        forall|i: int|
            #![trigger b[i]]
            0 <= i < b.len() ==> hex_text(b)[2 * i] == text::hex_digit((b[i] / 16) as int) && hex_text(b)[2 * i + 1]
                == text::hex_digit((b[i] % 16) as int),
    decreases b.len(),
{
    if b.len() > 0 {
        let rest = b.drop_last();
        lemma_hex_text(rest);
        assert forall|i: int| #![trigger b[i]] 0 <= i < b.len() implies hex_text(b)[2 * i] == text::hex_digit(
            (b[i] / 16) as int,
        ) && hex_text(b)[2 * i + 1] == text::hex_digit((b[i] % 16) as int) by {
            if i < rest.len() {
                assert(rest[i] == b[i]);
                assert(hex_text(b)[2 * i] == hex_text(rest)[2 * i]);
                assert(hex_text(b)[2 * i + 1] == hex_text(rest)[2 * i + 1]);
            }
        }
    }
}

/// The digits of two runs of bytes are the digits of both together.
pub proof fn lemma_hex_join(a: Seq<u8>, b: Seq<u8>)
    ensures
        hex_text(a + b) == hex_text(a) + hex_text(b),
    decreases b.len(),
{
    if b.len() == 0 {
        assert(a + b =~= a);
        assert(hex_text(a) + hex_text(b) =~= hex_text(a));
    } else {
        assert((a + b).drop_last() =~= a + b.drop_last());
        lemma_hex_join(a, b.drop_last());
        assert(hex_text(a + b) =~= hex_text(a) + hex_text(b));
    }
}

/// The digits of bytes are ASCII, without white space, and in upper case they
/// still tell the bytes.
pub proof fn lemma_hex_upper(a: Seq<u8>, b: Seq<u8>)
    ensures
        is_ascii_chars(hex_text(a)),
        forall|i: int| 0 <= i < hex_text(a).len() ==> !text::is_white_space(#[trigger] hex_text(a)[i]),
        a.len() == b.len() && text::uppercase(hex_text(a)) == text::uppercase(hex_text(b)) ==> a == b,
{
    lemma_hex_text(a);
    lemma_hex_text(b);
    let (s, t) = (hex_text(a), hex_text(b));
    lemma_hex_is_ascii(a);
    lemma_hex_is_ascii(b);
    if a.len() == b.len() && text::uppercase(s) == text::uppercase(t) {
        assert forall|i: int| 0 <= i < a.len() implies a[i] == b[i] by {
            assert(text::uppercase(s)[2 * i] == text::uppercase(t)[2 * i]);
            assert(text::uppercase(s)[2 * i + 1] == text::uppercase(t)[2 * i + 1]);
            lemma_digit_upper((a[i] / 16) as int, (b[i] / 16) as int);
            lemma_digit_upper((a[i] % 16) as int, (b[i] % 16) as int);
        }
        assert(a =~= b);
    }
}

/// Digits in upper case still tell their values.
proof fn lemma_digit_upper(d: int, e: int)
    requires
        0 <= d < 16,
        0 <= e < 16,
        text::ascii_upper(text::hex_digit(d)) == text::ascii_upper(text::hex_digit(e)),
    ensures
        d == e,
{
}

/// The digits of bytes are ASCII, without white space.
proof fn lemma_hex_is_ascii(b: Seq<u8>)
    ensures
        is_ascii_chars(hex_text(b)),
        forall|i: int| 0 <= i < hex_text(b).len() ==> !text::is_white_space(#[trigger] hex_text(b)[i]),
{
    lemma_hex_text(b);
    let t = hex_text(b);
    assert forall|i: int| 0 <= i < t.len() implies '\0' <= #[trigger] t[i] <= '\u{7f}' && !text::is_white_space(t[i]) by {
        assert(b[i / 2] == b[i / 2]);
        if i % 2 == 0 {
            assert(t[2 * (i / 2)] == text::hex_digit((b[i / 2] / 16) as int));
        } else {
            assert(t[2 * (i / 2) + 1] == text::hex_digit((b[i / 2] % 16) as int));
        }
    }
}

/// Every byte takes two digits.
pub proof fn lemma_hex_len(b: Seq<u8>)
    ensures
        hex_text(b).len() == 2 * b.len(),
{
    lemma_hex_text(b);
}

/// Where all bytes are digits there is no first that is none.
proof fn lemma_all_digits(b: Seq<u8>)
    requires
        forall|i: int| 0 <= i < b.len() ==> digit_value(#[trigger] b[i]) >= 0,
    ensures
        first_invalid(b) == b.len(),
    decreases b.len(),
{
    if b.len() > 0 {
        let rest = b.drop_first();
        assert forall|i: int| 0 <= i < rest.len() implies digit_value(#[trigger] rest[i]) >= 0 by {
            assert(rest[i] == b[i + 1]);
        }
        lemma_all_digits(rest);
    }
}

/// Decoding gives back what was encoded.
pub proof fn law_hex_round_trip(b: Seq<u8>)
    ensures
        unhex(encode_utf8(hex_text(b))) == Ok::<Seq<u8>, HexError>(b),
{
    lemma_hex_text(b);
    lemma_hex_is_ascii(b);
    let t = hex_text(b);
    is_ascii_chars_encode_utf8(t);
    let e = encode_utf8(t);
    assert(e =~= Seq::new(t.len(), |i: int| t[i] as u8));
    assert forall|i: int| 0 <= i < e.len() implies digit_value(#[trigger] e[i]) >= 0 by {
        assert(b[i / 2] == b[i / 2]);
        if i % 2 == 0 {
            assert(t[2 * (i / 2)] == text::hex_digit((b[i / 2] / 16) as int));
        } else {
            assert(t[2 * (i / 2) + 1] == text::hex_digit((b[i / 2] % 16) as int));
        }
    }
    lemma_all_digits(e);
    assert forall|i: int| 0 <= i < b.len() implies digits_value(e)[i] == #[trigger] b[i] by {
        assert(e[2 * i] == t[2 * i] as u8);
        assert(e[2 * i + 1] == t[2 * i + 1] as u8);
    }
    assert(digits_value(e) =~= b);
}

/// Bytes are shown by two digits each, in lower case, the higher half of the byte first.
pub proof fn law_bytes_are_shown_by_two_digits(b: Seq<u8>, i: int)
    requires
        0 <= i < b.len(),
    ensures
        hex_text(b).len() == 2 * b.len(),
        ({
            let high = hex_text(b)[2 * i];
            let low = hex_text(b)[2 * i + 1];
            &&& '0' <= high <= '9' || 'a' <= high <= 'f'
            &&& '0' <= low <= '9' || 'a' <= low <= 'f'
            &&& b[i] == 16 * digit_value(high as u8) + digit_value(low as u8)
        }),
{
    lemma_hex_text(b);
    let v = b[i] as int;
    assert(hex_text(b)[2 * i] == text::hex_digit(v / 16));
    assert(hex_text(b)[2 * i + 1] == text::hex_digit(v % 16));
    assert(0 <= v / 16 < 16 && 0 <= v % 16 < 16);
    assert(v == 16 * (v / 16) + v % 16);
}

} // verus!
