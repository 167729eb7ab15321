//! Hexadecimal text.
use crate::text::{decimal, decimal_string};
use vstd::prelude::*;
use vstd::utf8::{
    encode_utf8, encode_utf8_valid_utf8, is_ascii_chars, is_ascii_chars_encode_utf8,
    is_char_boundary, is_char_boundary_iff_not_is_continuation_byte,
    is_char_boundary_start_end_of_seq,
};

verus! {

/// The value of one hexadecimal digit, in either case.
pub open spec fn hex_digit(b: u8) -> Option<u8> {
    if 48 <= b <= 57 {
        Some((b - 48) as u8)
    } else if 97 <= b <= 102 {
        Some((b - 87) as u8)
    } else if 65 <= b <= 70 {
        Some((b - 55) as u8)
    } else {
        None
    }
}

/// The value of two bytes of text as a number in base 16. A plus sign may take the place of the
/// first digit.
pub open spec fn hex_pair(high: u8, low: u8) -> Option<u8> {
    match (hex_digit(high), hex_digit(low)) {
        (Some(h), Some(l)) => Some((h * 16 + l) as u8),
        (None, Some(l)) => if high == 43 {
            Some(l)
        } else {
            None
        },
        _ => None,
    }
}

/// The value of the `i`-th pair of `bytes`.
pub open spec fn pair_at(bytes: Seq<u8>, i: int) -> Option<u8> {
    hex_pair(bytes[2 * i], bytes[2 * i + 1])
}

/// The `i`-th pair of `bytes` is the first one that is not hexadecimal.
pub open spec fn first_bad_pair(bytes: Seq<u8>, i: int) -> bool {
    &&& 0 <= i
    &&& 2 * i + 1 < bytes.len()
    &&& pair_at(bytes, i) is None
    &&& forall|j: int| 0 <= j < i ==> #[trigger] pair_at(bytes, j) is Some
}

/// The first pair of `hex` that is not hexadecimal ends inside a character, so that it is no text
/// of its own. (An odd length is refused before any pair is looked at.)
pub open spec fn splits_character(hex: Seq<char>) -> bool {
    let bytes = encode_utf8(hex);
    &&& bytes.len() % 2 == 0
    &&& exists|i: int| #[trigger]
        first_bad_pair(bytes, i) && !is_char_boundary(bytes, 2 * i + 2)
}

/// The message for a text of an odd number of bytes.
pub open spec fn odd_length_message(len: nat) -> Seq<char> {
    "Hex length ganjil: "@ + decimal(len)
}

/// The message for a pair that is not hexadecimal, at byte `pos`.
pub open spec fn invalid_pair_message(pos: nat) -> Seq<char> {
    "Hex invalid di pos "@ + decimal(pos) + ": invalid digit found in string"@
}

/// What decoding `hex` gives: the bytes that its pairs of digits spell, or the message for the
/// first thing that is wrong with it.
pub open spec fn decodes_to(hex: Seq<char>, result: Result<Seq<u8>, Seq<char>>) -> bool {
    let text = encode_utf8(hex);
    match result {
        Ok(bytes) => {
            &&& text.len() == 2 * bytes.len()
            &&& forall|i: int|
                0 <= i < bytes.len() ==> #[trigger] pair_at(text, i) == Some(bytes[i])
        },
        Err(message) => if text.len() % 2 != 0 {
            message == odd_length_message(text.len())
        } else {
            exists|i: int| #[trigger]
                first_bad_pair(text, i) && message == invalid_pair_message((2 * i) as nat)
        },
    }
}

fn digit(b: u8) -> (value: Option<u8>)
    ensures
        value == hex_digit(b),
{
    if 48 <= b && b <= 57 {
        Some(b - 48)
    } else if 97 <= b && b <= 102 {
        Some(b - 87)
    } else if 65 <= b && b <= 70 {
        Some(b - 55)
    } else {
        None
    }
}

fn pair(high: u8, low: u8) -> (value: Option<u8>)
    ensures
        value == hex_pair(high, low),
{
    match (digit(high), digit(low)) {
        (Some(h), Some(l)) => Some(h * 16 + l),
        (None, Some(l)) => if high == 43 {
            Some(l)
        } else {
            None
        },
        _ => None,
    }
}

/// Finds the first pair of `bytes` that is not hexadecimal, or the number of pairs.
fn find_bad_pair(bytes: &[u8]) -> (found: usize)
    requires
        bytes@.len() % 2 == 0,
    ensures
        2 * found <= bytes@.len(),
        2 * found < bytes@.len() ==> first_bad_pair(bytes@, found as int),
        forall|j: int| 0 <= j < found ==> #[trigger] pair_at(bytes@, j) is Some,
{
    let len = bytes.len();
    let pairs: usize = len / 2;
    let mut i: usize = 0;
    while i < pairs
        invariant
            i <= pairs,
            2 * pairs == len == bytes@.len(),
            forall|j: int| 0 <= j < i ==> #[trigger] pair_at(bytes@, j) is Some,
        decreases pairs - i,
    {
        if pair(bytes[2 * i], bytes[2 * i + 1]).is_none() {
            assert(pair_at(bytes@, i as int) is None);
            return i;
        }
        i = i + 1;
    }
    i
}

/// Tells whether decoding `hex` would come upon a pair that ends inside a character.
pub fn hex_splits_character(hex: &str) -> (splits: bool)
    ensures
        splits == splits_character(hex@),
{
    let bytes = hex.as_bytes();
    if bytes.len() % 2 != 0 {
        return false;
    }
    let i = find_bad_pair(bytes);
    if 2 * i == bytes.len() {
        assert forall|k: int| !#[trigger] first_bad_pair(bytes@, k) by {
            if 0 <= k < i {
                assert(pair_at(bytes@, k) is Some);
            }
        }
        return false;
    }
    assert forall|k: int| #[trigger] first_bad_pair(bytes@, k) implies k == i by {
        if k < i {
            assert(pair_at(bytes@, k) is Some);
        } else if k > i {
            assert(pair_at(bytes@, i as int) is None);
        }
    }
    !hex.is_char_boundary(2 * i + 2)
}

/// Decodes hexadecimal text, two digits to the byte. An odd number of bytes and a pair that is not
/// hexadecimal are refused with a message.
pub fn hex_to_bytes(hex: &str) -> (result: Result<Vec<u8>, String>)
    requires
        !splits_character(hex@),
    ensures
        result matches Ok(bytes) ==> decodes_to(hex@, Ok(bytes@)),
        result matches Err(message) ==> decodes_to(hex@, Err(message@)),
{
    let text = hex.as_bytes();
    let len = text.len();
    if len % 2 != 0 {
        let mut message = "Hex length ganjil: ".to_owned();
        message.append(decimal_string(len as u64).as_str());
        return Err(message);
    }
    let mut bytes: Vec<u8> = Vec::with_capacity(len / 2);
    let mut i: usize = 0;
    while i < len / 2
        invariant
            i <= len / 2,
            len % 2 == 0,
            len == text@.len(),
            text@ == encode_utf8(hex@),
            bytes@.len() == i,
            forall|j: int| 0 <= j < i ==> #[trigger] pair_at(text@, j) == Some(bytes@[j]),
        decreases len / 2 - i,
    {
        match pair(text[2 * i], text[2 * i + 1]) {
            Some(byte) => {
                assert(pair_at(text@, i as int) == Some(byte));
                bytes.push(byte);
            },
            None => {
                assert(first_bad_pair(text@, i as int));
                let mut message = "Hex invalid di pos ".to_owned();
                message.append(decimal_string((2 * i) as u64).as_str());
                message.append(": invalid digit found in string");
                return Err(message);
            },
        }
        i = i + 1;
    }
    Ok(bytes)
}

/// The lower-case digit for `value`.
pub open spec fn lower_digit(value: int) -> char {
    if value < 10 {
        (48 + value) as char
    } else {
        (87 + value) as char
    }
}

/// The lower-case spelling of `bytes`, two digits to the byte.
pub open spec fn spelled(bytes: Seq<u8>) -> Seq<char> {
    Seq::new(
        2 * bytes.len(),
        |k: int|
            if k % 2 == 0 {
                lower_digit(bytes[k / 2] as int / 16)
            } else {
                lower_digit(bytes[k / 2] as int % 16)
            },
    )
}

/// A text has one decoding only.
pub proof fn law_decoding_is_unique(
    hex: Seq<char>,
    a: Result<Seq<u8>, Seq<char>>,
    b: Result<Seq<u8>, Seq<char>>,
)
    requires
        decodes_to(hex, a),
        decodes_to(hex, b),
    ensures
        a == b,
{
    let text = encode_utf8(hex);
    match (a, b) {
        (Ok(x), Ok(y)) => {
            assert forall|i: int| 0 <= i < x.len() implies x[i] == y[i] by {
                assert(pair_at(text, i) == Some(x[i]));
            }
            assert(x =~= y);
        },
        (Err(x), Err(y)) => if text.len() % 2 == 0 {
            let i = choose|i: int| #[trigger]
                first_bad_pair(text, i) && x == invalid_pair_message((2 * i) as nat);
            let j = choose|j: int| #[trigger]
                first_bad_pair(text, j) && y == invalid_pair_message((2 * j) as nat);
            assert(pair_at(text, i) is None && pair_at(text, j) is None);
            assert(i == j);
        },
        (Ok(x), Err(y)) => {
            let j = choose|j: int| #[trigger] first_bad_pair(text, j);
            assert(pair_at(text, j) is None);
        },
        (Err(x), Ok(y)) => {
            let j = choose|j: int| #[trigger] first_bad_pair(text, j);
            assert(pair_at(text, j) is None);
        },
    }
}

/// Decoding the lower-case spelling of some bytes gives those bytes back.
pub proof fn law_spelled_bytes_decode(bytes: Seq<u8>)
    ensures
        decodes_to(spelled(bytes), Ok(bytes)),
        !splits_character(spelled(bytes)),
{
    let hex = spelled(bytes);
    assert(is_ascii_chars(hex));
    is_ascii_chars_encode_utf8(hex);
    let text = encode_utf8(hex);
    assert forall|i: int| 0 <= i < bytes.len() implies #[trigger] pair_at(text, i) == Some(
        bytes[i],
    ) by {
        let b = bytes[i];
        assert(text[2 * i] == lower_digit(b as int / 16) as u8);
        assert(text[2 * i + 1] == lower_digit(b as int % 16) as u8);
        assert(hex_digit(text[2 * i]) == Some((b / 16) as u8));
        assert(hex_digit(text[2 * i + 1]) == Some((b % 16) as u8));
    }
    assert forall|i: int| !#[trigger] first_bad_pair(text, i) by {
        if 0 <= i && 2 * i + 1 < text.len() {
            assert(pair_at(text, i) is Some);
        }
    }
}

/// Decoding never comes upon a split character in a text that is all ASCII.
pub proof fn law_ascii_never_splits(hex: Seq<char>)
    requires
        is_ascii_chars(hex),
    ensures
        !splits_character(hex),
{
    let bytes = encode_utf8(hex);
    encode_utf8_valid_utf8(hex);
    is_ascii_chars_encode_utf8(hex);
    if bytes.len() % 2 == 0 {
        assert forall|i: int| #[trigger] first_bad_pair(bytes, i) implies is_char_boundary(
            bytes,
            2 * i + 2,
        ) by {
            is_char_boundary_start_end_of_seq(bytes);
            if 2 * i + 2 < bytes.len() {
                assert(bytes[2 * i + 2] == hex[2 * i + 2] as u8);
                is_char_boundary_iff_not_is_continuation_byte(bytes, 2 * i + 2);
            }
        }
    }
}

/// The value of a digit: that of `0` to `9` is 0 to 9, that of `a` to `f` and of `A` to `F` is 10 to
/// 15, and nothing else has one.
pub proof fn law_digit_values(b: u8, value: u8)
    ensures
        hex_digit(b) == Some(value) <==> value < 10 && b == '0' as int + value || 10 <= value < 16 && (
        b == 'a' as int + (value - 10) || b == 'A' as int + (value - 10)),
{
}

/// The value of a pair, by its digits: sixteen times the first one's and the second one's, or the
/// second one's alone after a plus sign. A pair without a second digit, or with anything else in
/// front of it, has none.
pub proof fn law_pair_values(bytes: Seq<u8>, i: int)
    ensures
        hex_digit(bytes[2 * i + 1]) matches Some(low) ==> {
            &&& hex_digit(bytes[2 * i]) matches Some(high) ==> (pair_at(bytes, i) matches Some(value)
                && value == 16 * high + low)
            &&& hex_digit(bytes[2 * i]) is None && bytes[2 * i] == '+' as int ==> pair_at(bytes, i)
                == Some(low)
            &&& hex_digit(bytes[2 * i]) is None && bytes[2 * i] != '+' as int ==> pair_at(bytes, i)
                is None
        },
        hex_digit(bytes[2 * i + 1]) is None ==> pair_at(bytes, i) is None,
{
}

/// What decoding gives: as many bytes as there are pairs, each of them the value of its pair.
pub proof fn law_decoded_bytes_are_pair_values(hex: Seq<char>, bytes: Seq<u8>)
    ensures
        decodes_to(hex, Ok(bytes)) <==> encode_utf8(hex).len() == 2 * bytes.len() && forall|i: int|
            0 <= i < bytes.len() ==> #[trigger] pair_at(encode_utf8(hex), i) == Some(bytes[i]),
{
}

/// Digits of either case decode to the bytes that they spell: a text with two digits for each byte,
/// the one for its upper half first, is decoded to those bytes and is not refused.
pub proof fn law_digits_decode(hex: Seq<char>, bytes: Seq<u8>, message: Seq<char>)
    requires
        hex.len() == 2 * bytes.len(),
        is_ascii_chars(hex),
        forall|i: int| #![trigger bytes[i]]
            0 <= i < bytes.len() ==> {
                &&& hex_digit(hex[2 * i] as u8) matches Some(high) && high == bytes[i] as int / 16
                &&& hex_digit(hex[2 * i + 1] as u8) matches Some(low) && low == bytes[i] as int % 16
            },
    ensures
        decodes_to(hex, Ok(bytes)),
        !decodes_to(hex, Err(message)),
        !splits_character(hex),
{
    is_ascii_chars_encode_utf8(hex);
    let text = encode_utf8(hex);
    assert forall|i: int| 0 <= i < bytes.len() implies #[trigger] pair_at(text, i) == Some(
        bytes[i],
    ) by {
        assert(text[2 * i] == hex[2 * i] as u8);
        assert(text[2 * i + 1] == hex[2 * i + 1] as u8);
    }
    assert forall|i: int| !#[trigger] first_bad_pair(text, i) by {
        if 0 <= i && 2 * i + 1 < text.len() {
            assert(pair_at(text, i) is Some);
        }
    }
}

/// Which pair is the first bad one: a pair of the text without a value, after pairs that all have
/// one.
pub proof fn law_first_bad_pair(bytes: Seq<u8>, i: int)
    ensures
        first_bad_pair(bytes, i) <==> 0 <= i && 2 * i + 2 <= bytes.len() && pair_at(bytes, i) is None
            && forall|j: int| 0 <= j < i ==> #[trigger] pair_at(bytes, j) is Some,
{
}

/// A text of an odd number of bytes is refused with its length, before any pair is looked at.
pub proof fn law_odd_text_is_refused(hex: Seq<char>, bytes: Seq<u8>, message: Seq<char>)
    requires
        encode_utf8(hex).len() % 2 == 1,
    ensures
        !splits_character(hex),
        !decodes_to(hex, Ok(bytes)),
        decodes_to(hex, Err(message)) <==> message == "Hex length ganjil: "@ + decimal(
            encode_utf8(hex).len(),
        ),
{
}

/// A text with a bad pair is refused with the place of the first byte of the first one. Where that
/// pair ends inside a character, the text has to be kept from the decoder.
pub proof fn law_bad_pair_is_refused(hex: Seq<char>, i: int, bytes: Seq<u8>, message: Seq<char>)
    requires
        encode_utf8(hex).len() % 2 == 0,
        first_bad_pair(encode_utf8(hex), i),
    ensures
        splits_character(hex) <==> !is_char_boundary(encode_utf8(hex), 2 * i + 2),
        !decodes_to(hex, Ok(bytes)),
        decodes_to(hex, Err(message)) <==> message == "Hex invalid di pos "@ + decimal(
            (2 * i) as nat,
        ) + ": invalid digit found in string"@,
{
    let text = encode_utf8(hex);
    assert(pair_at(text, i) is None);
    assert forall|k: int| #[trigger] first_bad_pair(text, k) implies k == i by {
        assert(pair_at(text, k) is None);
    }
}

/// A text in which every pair has a value is not refused.
pub proof fn law_good_pairs_are_not_refused(hex: Seq<char>, message: Seq<char>)
    requires
        encode_utf8(hex).len() % 2 == 0,
        forall|i: int|
            0 <= i && 2 * i + 2 <= encode_utf8(hex).len() ==> #[trigger] pair_at(
                encode_utf8(hex),
                i,
            ) is Some,
    ensures
        !splits_character(hex),
        !decodes_to(hex, Err(message)),
{
    let text = encode_utf8(hex);
    assert forall|i: int| !#[trigger] first_bad_pair(text, i) by {
        if 0 <= i && 2 * i + 1 < text.len() {
            assert(pair_at(text, i) is Some);
        }
    }
}

} // verus!
