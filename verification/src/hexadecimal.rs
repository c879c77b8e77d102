//! Hexadecimal text.

use hex::FromHexError;
use vstd::prelude::*;
use vstd::utf8::{encode_utf8, is_ascii_chars, is_ascii_chars_encode_utf8};

verus! {

/// Why a text is no hexadecimal byte string.
#[derive(Clone, Copy, Debug, PartialEq, Eq, Structural)]
pub enum HexError {
    /// A byte of the text, read as a character, is no hexadecimal digit.
    InvalidCharacter { c: char, index: usize },
    /// The text has an odd number of digits.
    OddLength,
    /// The text does not fill a container of a fixed size.
    InvalidLength,
}

/// The value of a hexadecimal digit.
pub open spec fn digit_value(c: u8) -> Option<u8> {
    if 0x30 <= c <= 0x39 {
        Some((c - 0x30) as u8)
    } else if 0x41 <= c <= 0x46 {
        Some((c - 0x41 + 10) as u8)
    } else if 0x61 <= c <= 0x66 {
        Some((c - 0x61 + 10) as u8)
    } else {
        None
    }
}

/// The hexadecimal digit of a value, in lower case.
pub open spec fn digit_char(v: int) -> char {
    if v < 10 {
        (0x30 + v) as char
    } else {
        (0x61 + v - 10) as char
    }
}

/// The first of the first `n` bytes that is no digit.
pub open spec fn first_non_digit(text: Seq<u8>, n: nat) -> Option<nat>
    decreases n,
{
    if n == 0 {
        None
    } else {
        let before = first_non_digit(text, (n - 1) as nat);
        if before is Some {
            before
        } else if digit_value(text[n - 1]) is None {
            Some((n - 1) as nat)
        } else {
            None
        }
    }
}

/// The bytes that digits spell, two digits each, the high one first.
pub open spec fn digits_decoded(text: Seq<u8>) -> Seq<u8> {
    Seq::new(
        text.len() / 2,
        |i: int| (16 * digit_value(text[2 * i])->0 + digit_value(text[2 * i + 1])->0) as u8,
    )
}

/// The bytes that a text spells.
pub open spec fn hex_decoded(text: Seq<u8>) -> Result<Seq<u8>, HexError> {
    if text.len() % 2 != 0 {
        Err(HexError::OddLength)
    } else {
        match first_non_digit(text, text.len()) {
            Some(i) => Err(
                HexError::InvalidCharacter { c: text[i as int] as char, index: i as usize },
            ),
            None => Ok(digits_decoded(text)),
        }
    }
}

/// The digits of bytes, in lower case.
pub open spec fn hex_encoded(bytes: Seq<u8>) -> Seq<char> {
    Seq::new(
        2 * bytes.len(),
        |i: int|
            if i % 2 == 0 {
                digit_char(bytes[i / 2] as int / 16)
            } else {
                digit_char(bytes[i / 2] as int % 16)
            },
    )
}

/// Calls `hex::decode` on the text: pairs of digits of either case become bytes. An odd number of
/// bytes is refused before anything else, and then the first byte that is no digit.
#[verifier::external_body]
pub(crate) fn hex_decode(text: &str) -> (r: Result<Vec<u8>, HexError>)
    ensures
        match r {
            Ok(b) => hex_decoded(encode_utf8(text@)) == Ok::<Seq<u8>, HexError>(b@),
            Err(e) => hex_decoded(encode_utf8(text@)) == Err::<Seq<u8>, HexError>(e),
        },
{
    hex::decode(text).map_err(|e| match e {
        FromHexError::InvalidHexCharacter { c, index } => HexError::InvalidCharacter { c, index },
        FromHexError::OddLength => HexError::OddLength,
        FromHexError::InvalidStringLength => HexError::InvalidLength,
    })
}

/// Calls `hex::encode`: two lower-case digits for each byte.
#[verifier::external_body]
pub(crate) fn hex_encode(bytes: &[u8]) -> (r: String)
    ensures
        r@ == hex_encoded(bytes@),
{
    hex::encode(bytes)
}

/// The Unicode property `White_Space`.
pub open spec fn is_space(c: char) -> bool {
    let v = c as u32;
    ||| 0x09 <= v <= 0x0d
    ||| v == 0x20
    ||| v == 0x85
    ||| v == 0xa0
    ||| v == 0x1680
    ||| 0x2000 <= v <= 0x200a
    ||| v == 0x2028
    ||| v == 0x2029
    ||| v == 0x202f
    ||| v == 0x205f
    ||| v == 0x3000
}

/// The text without the white space at its end.
pub open spec fn trimmed_end(s: Seq<char>) -> Seq<char>
    decreases s.len(),
{
    if s.len() > 0 && is_space(s.last()) {
        trimmed_end(s.drop_last())
    } else {
        s
    }
}

/// The text without the white space at its start.
pub open spec fn trimmed_start(s: Seq<char>) -> Seq<char>
    decreases s.len(),
{
    if s.len() > 0 && is_space(s[0]) {
        trimmed_start(s.skip(1))
    } else {
        s
    }
}

/// The text without the white space around it.
pub open spec fn trimmed(s: Seq<char>) -> Seq<char> {
    trimmed_end(trimmed_start(s))
}

fn is_white_space(c: char) -> (r: bool)
    ensures
        r == is_space(c),
{
    let v: u32 = c as u32;
    (0x09 <= v && v <= 0x0d) || v == 0x20 || v == 0x85 || v == 0xa0 || v == 0x1680 || (0x2000 <= v
        && v <= 0x200a) || v == 0x2028 || v == 0x2029 || v == 0x202f || v == 0x205f || v == 0x3000
}

/// The text without the white space around it.
pub fn trim(s: &str) -> (r: &str)
    ensures
        r@ == trimmed(s@),
{
    let n: usize = s.unicode_len();
    let mut lo: usize = 0;
    assert(s@.skip(0) =~= s@);
    let mut more = true;
    while more
        invariant
            lo <= n,
            n == s@.len(),
            trimmed_start(s@) == trimmed_start(s@.skip(lo as int)),
            !more ==> trimmed_start(s@) == s@.skip(lo as int),
        decreases (if more { n - lo + 1 } else { 0 }),
    {
        if lo < n && is_white_space(s.get_char(lo)) {
            assert(s@.skip(lo as int).skip(1) =~= s@.skip(lo + 1));
            lo += 1;
        } else {
            more = false;
        }
    }
    let mut hi: usize = n;
    assert(s@.subrange(lo as int, hi as int) =~= s@.skip(lo as int));
    let mut again = true;
    while again
        invariant
            lo <= hi <= n,
            n == s@.len(),
            trimmed(s@) == trimmed_end(s@.subrange(lo as int, hi as int)),
            !again ==> trimmed(s@) == s@.subrange(lo as int, hi as int),
        decreases (if again { hi - lo + 1 } else { 0 }),
    {
        if lo < hi && is_white_space(s.get_char(hi - 1)) {
            assert(s@.subrange(lo as int, hi as int).drop_last() =~= s@.subrange(
                lo as int,
                hi - 1,
            ));
            hi -= 1;
        } else {
            again = false;
        }
    }
    s.substring_char(lo, hi)
}

/// Decoding what was encoded gives the bytes back, also through trimming.
pub proof fn lemma_hex_round_trip(bytes: Seq<u8>)
    ensures
        trimmed(hex_encoded(bytes)) == hex_encoded(bytes),
        hex_decoded(encode_utf8(hex_encoded(bytes))) == Ok::<Seq<u8>, HexError>(bytes),
{
    let text = hex_encoded(bytes);
    assert forall|i: int| 0 <= i < text.len() implies !is_space(#[trigger] text[i]) && (text[i]
        as u32) < 0x80 by {}
    if text.len() > 0 {
        assert(!is_space(text[0]));
        assert(!is_space(text[text.len() - 1]));
    }
    assert(is_ascii_chars(text));
    is_ascii_chars_encode_utf8(text);
    let b = encode_utf8(text);
    assert(b.len() == text.len());
    assert forall|i: int| 0 <= i < b.len() implies #[trigger] b[i] == text[i] as u8 by {}
    lemma_all_digits(b, bytes, b.len());
    assert(digits_decoded(b) =~= bytes) by {
        assert forall|i: int| 0 <= i < bytes.len() implies digits_decoded(b)[i] == bytes[i] by {
            assert(b[2 * i] == text[2 * i] as u8);
            assert(b[2 * i + 1] == text[2 * i + 1] as u8);
        }
    }
}

proof fn lemma_all_digits(b: Seq<u8>, bytes: Seq<u8>, n: nat)
    requires
        n <= b.len(),
        b.len() == 2 * bytes.len(),
        forall|i: int| 0 <= i < b.len() ==> #[trigger] b[i] == hex_encoded(bytes)[i] as u8,
    ensures
        first_non_digit(b, n) is None,
    decreases n,
{
    if n > 0 {
        lemma_all_digits(b, bytes, (n - 1) as nat);
        assert(b[n - 1] == hex_encoded(bytes)[n - 1] as u8);
    }
}

} // verus!
