//! Hexadecimal text: the lowercase encoding of bytes and its decoding.

use vstd::prelude::*;

verus! {

/// The lowercase hexadecimal digit of a nibble `n < 16`.
pub open spec fn hex_digit(n: u8) -> char {
    if n < 10 {
        ((n + 48) as u8) as char
    } else {
        ((n + 87) as u8) as char
    }
}

/// Lowercase hex of `bytes`: two digits per byte, high nibble first.
pub open spec fn hex_lower(bytes: Seq<u8>) -> Seq<char> {
    Seq::new(
        2 * bytes.len(),
        |i: int|
            if i % 2 == 0 {
                hex_digit(bytes[i / 2] >> 4u8)
            } else {
                hex_digit(bytes[i / 2] & 0x0fu8)
            },
    )
}

/// An ASCII hex digit, of either case.
pub open spec fn is_hex_char(c: char) -> bool {
    ('0' <= c && c <= '9') || ('a' <= c && c <= 'f') || ('A' <= c && c <= 'F')
}

/// The value of a hex digit.
pub open spec fn hex_value(c: char) -> int {
    if '0' <= c && c <= '9' {
        c as int - 48
    } else if 'a' <= c && c <= 'f' {
        c as int - 87
    } else {
        c as int - 55
    }
}

/// Decoding of hex text: `None` unless the text has an even number of
/// characters, all of them hex digits; otherwise one byte per pair.
pub open spec fn hex_decode(s: Seq<char>) -> Option<Seq<u8>> {
    if s.len() % 2 == 0 && (forall|i: int| 0 <= i < s.len() ==> is_hex_char(#[trigger] s[i])) {
        Some(Seq::new(s.len() / 2, |i: int| (hex_value(s[2 * i]) * 16 + hex_value(s[2 * i + 1])) as u8))
    } else {
        None
    }
}

/// `hex::encode`: the lowercase hex text of the bytes.
#[verifier::external_body]
pub(crate) fn hex_encode(bytes: &[u8]) -> (r: String)
    ensures
        r@ == hex_lower(bytes@),
{
    hex::encode(bytes)
}

/// `hex::decode` of a string: `Some` of the bytes exactly when the text is an
/// even number of hex digits (of either case); `None` on any error.
#[verifier::external_body]
pub(crate) fn hex_decode_text(s: &str) -> (r: Option<Vec<u8>>)
    ensures
        match r {
            Some(v) => hex_decode(s@) == Some(v@),
            None => hex_decode(s@) is None,
        },
{
    hex::decode(s).ok()
}

proof fn lemma_nibble_digit(n: u8)
    requires
        n < 16,
    ensures
        is_hex_char(hex_digit(n)),
        hex_value(hex_digit(n)) == n,
{
}

proof fn lemma_byte_from_nibbles(b: u8)
    ensures
        (b >> 4u8) < 16,
        (b & 0x0fu8) < 16,
        ((b >> 4u8) as int) * 16 + ((b & 0x0fu8) as int) == b as int,
{
    assert((b >> 4u8) < 16) by (bit_vector);
    assert((b & 0x0fu8) < 16) by (bit_vector);
    assert(((b >> 4u8) as int) * 16 + ((b & 0x0fu8) as int) == b as int) by (bit_vector);
}

/// Decoding the lowercase hex of any bytes gives those bytes back.
pub proof fn lemma_hex_roundtrip(bytes: Seq<u8>)
    ensures
        hex_decode(hex_lower(bytes)) == Some(bytes),
{
    let s = hex_lower(bytes);
    assert forall|i: int| 0 <= i < s.len() implies is_hex_char(#[trigger] s[i]) by {
        lemma_byte_from_nibbles(bytes[i / 2]);
        if i % 2 == 0 {
            lemma_nibble_digit(bytes[i / 2] >> 4u8);
        } else {
            lemma_nibble_digit(bytes[i / 2] & 0x0fu8);
        }
    }
    let d = Seq::new(s.len() / 2, |i: int| (hex_value(s[2 * i]) * 16 + hex_value(s[2 * i + 1])) as u8);
    assert forall|i: int| 0 <= i < bytes.len() implies d[i] == bytes[i] by {
        lemma_byte_from_nibbles(bytes[i]);
        lemma_nibble_digit(bytes[i] >> 4u8);
        lemma_nibble_digit(bytes[i] & 0x0fu8);
        assert((2 * i) / 2 == i);
        assert((2 * i + 1) / 2 == i);
        assert(s[2 * i] == hex_digit(bytes[i] >> 4u8));
        assert(s[2 * i + 1] == hex_digit(bytes[i] & 0x0fu8));
    }
    assert(d =~= bytes);
}

/// Hex text is twice as long as the bytes it encodes.
pub proof fn lemma_hex_length(bytes: Seq<u8>)
    ensures
        hex_lower(bytes).len() == 2 * bytes.len(),
{
}

/// Hex text has two digits per byte, each `0`-`9` or `a`-`f`: the digit at
/// `2i` is the high nibble of byte `i` and the one at `2i + 1` its low nibble.
pub proof fn lemma_hex_digits(bytes: Seq<u8>)
    ensures
        hex_lower(bytes).len() == 2 * bytes.len(),
        forall|i: int|
            0 <= i < hex_lower(bytes).len() ==> ('0' <= #[trigger] hex_lower(bytes)[i] <= '9') || ('a' <= hex_lower(
                bytes,
            )[i] <= 'f'),
        forall|i: int|
            0 <= i < bytes.len() ==> hex_value(hex_lower(bytes)[2 * i]) * 16 + hex_value(hex_lower(bytes)[2 * i + 1])
                == #[trigger] bytes[i],
{
    let s = hex_lower(bytes);
    assert forall|i: int| 0 <= i < s.len() implies ('0' <= #[trigger] s[i] <= '9') || ('a' <= s[i] <= 'f') by {
        lemma_byte_from_nibbles(bytes[i / 2]);
        if i % 2 == 0 {
            lemma_nibble_digit(bytes[i / 2] >> 4u8);
        } else {
            lemma_nibble_digit(bytes[i / 2] & 0x0fu8);
        }
    }
    assert forall|i: int| 0 <= i < bytes.len() implies hex_value(s[2 * i]) * 16 + hex_value(s[2 * i + 1])
        == #[trigger] bytes[i] by {
        lemma_byte_from_nibbles(bytes[i]);
        lemma_nibble_digit(bytes[i] >> 4u8);
        lemma_nibble_digit(bytes[i] & 0x0fu8);
        assert((2 * i) / 2 == i);
        assert((2 * i + 1) / 2 == i);
        assert(s[2 * i] == hex_digit(bytes[i] >> 4u8));
        assert(s[2 * i + 1] == hex_digit(bytes[i] & 0x0fu8));
    }
}

/// Hex text decodes when it has an even number of characters, each `0`-`9`,
/// `a`-`f` or `A`-`F`; byte `i` is then sixteen times the value of
/// character `2i` plus the value of character `2i + 1`, where a digit counts
/// as itself and a letter from `a` (or `A`) as 10 on.
pub proof fn lemma_hex_decode_rule(s: Seq<char>)
    ensures
        hex_decode(s) is Some <==> (s.len() % 2 == 0 && forall|i: int|
            0 <= i < s.len() ==> ('0' <= #[trigger] s[i] <= '9') || ('a' <= s[i] <= 'f') || ('A' <= s[i] <= 'F')),
        hex_decode(s) matches Some(b) ==> b.len() == s.len() / 2 && forall|i: int|
            0 <= i < b.len() ==> #[trigger] b[i] == (digit_value(s[2 * i]) * 16 + digit_value(s[2 * i + 1])) as u8,
{
    if s.len() % 2 == 0 && (forall|i: int| 0 <= i < s.len() ==> ('0' <= #[trigger] s[i] <= '9') || ('a' <= s[i] <= 'f') || (
    'A' <= s[i] <= 'F')) {
        assert(forall|i: int| 0 <= i < s.len() ==> is_hex_char(#[trigger] s[i]));
    }
}

/// The value of a hex digit character: `0`-`9` count from 0, `a`-`f` and
/// `A`-`F` from 10.
pub open spec fn digit_value(c: char) -> int {
    if '0' <= c <= '9' {
        c as int - '0' as int
    } else if 'a' <= c <= 'f' {
        c as int - 'a' as int + 10
    } else {
        c as int - 'A' as int + 10
    }
}

} // verus!
