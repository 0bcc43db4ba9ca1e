//! What comes from the machine: the clock and randomness.

use vstd::prelude::*;
use rand::RngCore;

verus! {

/// `chrono::Utc::now().timestamp_millis()`: milliseconds since the Unix
/// epoch. The value depends on the clock, so nothing is stated of it.
#[verifier::external_body]
pub(crate) fn now_millis() -> (r: i64) {
    chrono::Utc::now().timestamp_millis()
}

/// A lowercase hexadecimal digit.
pub open spec fn is_lower_hex_digit(c: char) -> bool {
    ('0' <= c && c <= '9') || ('a' <= c && c <= 'f')
}

/// The hyphenated form of a UUID: 36 characters, `-` at positions 8, 13,
/// 18 and 23 and a lowercase hex digit everywhere else.
pub open spec fn hyphenated_uuid(s: Seq<char>) -> bool {
    &&& s.len() == 36
    &&& forall|i: int|
        0 <= i < 36 ==> if i == 8 || i == 13 || i == 18 || i == 23 {
            s[i] == '-'
        } else {
            is_lower_hex_digit(#[trigger] s[i])
        }
}

/// `uuid::Uuid::new_v4().to_string()`: a random UUID in its hyphenated
/// lowercase form (`Display` writes `LowerHex`, which writes the hyphenated
/// form). Which UUID comes out is left unsaid.
#[verifier::external_body]
pub(crate) fn random_uuid_text() -> (r: String)
    ensures
        hyphenated_uuid(r@),
{
    uuid::Uuid::new_v4().to_string()
}

/// `rand::thread_rng().fill_bytes` on 16 bytes: 16 random bytes. Which bytes
/// come out is left unsaid.
#[verifier::external_body]
pub(crate) fn random_entropy() -> (r: Vec<u8>)
    ensures
        r@.len() == 16,
{
    let mut entropy = [0u8; 16];
    rand::thread_rng().fill_bytes(&mut entropy);
    entropy.to_vec()
}

} // verus!
