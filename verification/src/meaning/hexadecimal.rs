//! Hexadecimal text: which texts spell bytes, which bytes they spell, and what is wrong with the others.
use vstd::prelude::*;

use crate::hexadecimal::{digit_value, first_non_digit, hex_decoded, hex_encoded, HexError};

verus! {

/// The byte is one of the characters `0` to `9`, `a` to `f` and `A` to `F`, and stands for `v`.
pub open spec fn stands_for(c: u8, v: int) -> bool {
    ||| 0 <= v <= 9 && c == 48 + v
    ||| 10 <= v <= 15 && c == 97 + (v - 10)
    ||| 10 <= v <= 15 && c == 65 + (v - 10)
}

/// The byte stands for some number.
pub open spec fn is_digit(c: u8) -> bool {
    48 <= c <= 57 || 65 <= c <= 70 || 97 <= c <= 102
}

proof fn lemma_first_non_digit(text: Seq<u8>, n: nat)
    requires
        n <= text.len(),
    ensures
        match first_non_digit(text, n) {
            Some(i) => i < n && !is_digit(text[i as int]) && forall|k: int|
                0 <= k < i ==> is_digit(#[trigger] text[k]),
            None => forall|k: int| 0 <= k < n ==> is_digit(#[trigger] text[k]),
        },
    decreases n,
{
    if n > 0 {
        lemma_first_non_digit(text, (n - 1) as nat);
    }
}

/// A text spells bytes exactly where it has an even number of characters and all of them are digits; two
/// characters spell one byte, the first its upper half.
pub proof fn law_decoded_text(text: Seq<u8>, i: int, hi: int, lo: int)
    ensures
        hex_decoded(text) is Ok <==> text.len() % 2 == 0 && forall|k: int|
            0 <= k < text.len() ==> is_digit(#[trigger] text[k]),
        hex_decoded(text) matches Ok(b) ==> {
            &&& 2 * b.len() == text.len()
            &&& 0 <= i < b.len() && stands_for(text[2 * i], hi) && stands_for(text[2 * i + 1], lo)
                ==> b[i] == 16 * hi + lo
        },
{
    lemma_first_non_digit(text, text.len());
}

/// A text of odd length is refused for its length, whatever it holds; another text is refused for the
/// first character that is no digit.
pub proof fn law_refused_text(text: Seq<u8>)
    requires
        text.len() <= usize::MAX,
    ensures
        match hex_decoded(text) {
            Ok(_) => true,
            Err(HexError::OddLength) => text.len() % 2 == 1,
            Err(HexError::InvalidLength) => false,
            Err(HexError::InvalidCharacter { c, index }) => {
                &&& text.len() % 2 == 0
                &&& index < text.len()
                &&& c as int == text[index as int]
                &&& !is_digit(text[index as int])
                &&& forall|k: int| 0 <= k < index ==> is_digit(#[trigger] text[k])
            },
        },
{
    lemma_first_non_digit(text, text.len());
}

/// Bytes are spelled with small letters, the upper half of each first.
pub proof fn law_encoded_bytes(b: Seq<u8>, i: int)
    requires
        0 <= i < b.len(),
    ensures
        hex_encoded(b).len() == 2 * b.len(),
        ({
            let hi = hex_encoded(b)[2 * i] as int;
            let lo = hex_encoded(b)[2 * i + 1] as int;
            &&& 48 <= hi <= 57 || 97 <= hi <= 102
            &&& 48 <= lo <= 57 || 97 <= lo <= 102
            &&& stands_for(hi as u8, b[i] as int / 16)
            &&& stands_for(lo as u8, b[i] as int % 16)
        }),
{
    let t = hex_encoded(b);
    assert((2 * i) / 2 == i && (2 * i) % 2 == 0);
    assert((2 * i + 1) / 2 == i && (2 * i + 1) % 2 == 1);
    assert(0 <= b[i] as int / 16 < 16 && 0 <= b[i] as int % 16 < 16);
}

/// Small and capital letters spell the same bytes.
pub proof fn law_case_does_not_matter(a: Seq<u8>, b: Seq<u8>)
    requires
        a.len() == b.len(),
        forall|k: int|
            0 <= k < a.len() ==> (#[trigger] a[k]) == b[k] || (65 <= a[k] <= 70 && b[k] == a[k] + 32) || (
            65 <= b[k] <= 70 && a[k] == b[k] + 32),
    ensures
        hex_decoded(a) is Ok <==> hex_decoded(b) is Ok,
        hex_decoded(a) is Ok ==> hex_decoded(a) == hex_decoded(b),
{
    lemma_first_non_digit(a, a.len());
    lemma_first_non_digit(b, b.len());
    assert forall|k: int| 0 <= k < a.len() implies digit_value(#[trigger] a[k]) == digit_value(b[k]) by {}
    assert forall|k: int| 0 <= k < a.len() implies is_digit(#[trigger] a[k]) == is_digit(b[k]) by {}
    assert forall|k: int| 0 <= k < a.len() implies is_digit(#[trigger] b[k]) == is_digit(a[k]) by {}
    if hex_decoded(a) is Ok && hex_decoded(b) is Ok {
        assert(hex_decoded(a)->Ok_0 =~= hex_decoded(b)->Ok_0);
    }
}

} // verus!
