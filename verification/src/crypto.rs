//! Wallets and signatures: BIP-39 phrases, secp256k1 keys, addresses.

use vstd::prelude::*;
use vstd::utf8::encode_utf8;
use crate::types::Wallet;
use crate::digest::{sha256_digest, ripemd160_digest, sha256, ripemd160};
use crate::hexcode::{hex_lower, hex_decode, hex_encode, hex_decode_text, hex_digit, lemma_hex_length, lemma_hex_roundtrip};
use crate::clock::{random_entropy, random_uuid_text, hyphenated_uuid, is_lower_hex_digit};
use vstd::string::StrSliceExecFns;

verus! {

/// What can go wrong in key handling.
#[derive(Debug, Clone, Copy, PartialEq, Eq, Structural)]
pub enum CryptoError {
    /// The phrase is not a valid English BIP-39 mnemonic.
    InvalidMnemonic,
    /// The bytes are not a valid secp256k1 secret key.
    InvalidSecretKey,
    /// The bytes are not a valid secp256k1 public key.
    InvalidPublicKey,
    /// The bytes are not a valid compact ECDSA signature.
    InvalidSignature,
    /// The text is not hex.
    InvalidHex,
}

/// The English BIP-39 phrase of some entropy: its words joined by spaces.
pub uninterp spec fn bip39_phrase(entropy: Seq<u8>) -> Seq<char>;

/// The BIP-39 seed (empty passphrase) of an English phrase, or `None` when
/// the phrase does not parse as a mnemonic.
pub uninterp spec fn bip39_seed(phrase: Seq<char>) -> Option<Seq<u8>>;

/// The compressed (33-byte) serialization of the public key of a secret key.
pub uninterp spec fn secp256k1_public_key(secret: Seq<u8>) -> Seq<u8>;

/// The compact (64-byte) deterministic ECDSA signature of a 32-byte digest.
pub uninterp spec fn ecdsa_signature(secret: Seq<u8>, digest: Seq<u8>) -> Seq<u8>;

/// Whether bytes parse as a secp256k1 public key.
pub uninterp spec fn public_key_encoding_valid(bytes: Seq<u8>) -> bool;

/// Whether the signature verifies for the public key and digest.
pub uninterp spec fn ecdsa_verifies(public_key: Seq<u8>, signature: Seq<u8>, digest: Seq<u8>) -> bool;

/// The unsigned big-endian value of a byte string.
pub open spec fn big_endian(bytes: Seq<u8>) -> nat
    decreases bytes.len(),
{
    if bytes.len() == 0 {
        0
    } else {
        big_endian(bytes.drop_last()) * 256 + bytes.last() as nat
    }
}

/// The order of the secp256k1 group.
pub open spec fn curve_order() -> nat {
    0xFFFFFFFFFFFFFFFFFFFFFFFFFFFFFFFEBAAEDCE6AF48A03BBFD25E8CD0364141nat
}

/// A valid secret key: 32 bytes whose big-endian value is neither 0 nor at
/// least the curve order.
pub open spec fn valid_secret_key(secret: Seq<u8>) -> bool {
    secret.len() == 32 && 0 < big_endian(secret) < curve_order()
}

/// A valid compact signature: 64 bytes, `R` then `S`, each big-endian and
/// below the curve order.
pub open spec fn valid_compact_signature(bytes: Seq<u8>) -> bool {
    &&& bytes.len() == 64
    &&& big_endian(bytes.subrange(0, 32)) < curve_order()
    &&& big_endian(bytes.subrange(32, 64)) < curve_order()
}

/// The address of a serialized public key: `0x` then the hex of
/// RIPEMD-160(SHA-256(key)).
pub open spec fn address_of(public_key: Seq<u8>) -> Seq<char> {
    seq!['0', 'x'] + hex_lower(ripemd160_digest(sha256_digest(public_key)))
}

/// The secret key derived from a seed: SHA-256 of its first 32 bytes.
pub open spec fn secret_from_seed(seed: Seq<u8>) -> Seq<u8> {
    sha256_digest(seed.subrange(0, 32))
}

/// The text with every occurrence of `c` removed.
pub open spec fn without_char(s: Seq<char>, c: char) -> Seq<char>
    decreases s.len(),
{
    if s.len() == 0 {
        s
    } else {
        let rest = without_char(s.drop_last(), c);
        if s.last() == c {
            rest
        } else {
            rest.push(s.last())
        }
    }
}

/// The number of space characters in a text.
pub open spec fn spaces(s: Seq<char>) -> nat
    decreases s.len(),
{
    if s.len() == 0 {
        0
    } else {
        spaces(s.drop_last()) + if s.last() == ' ' {
            1nat
        } else {
            0nat
        }
    }
}

/// `bip39::Mnemonic::from_entropy_in(English, ..)` and its `to_string`: the
/// phrase of the entropy. The crate accepts every entropy of 16 to 32 bytes
/// in steps of 4, makes `len * 3 / 4` words of the English list (none of
/// which holds a space) with a valid checksum, and writes them joined by
/// single spaces; such a phrase parses back as a mnemonic.
#[verifier::external_body]
fn phrase_from_entropy(entropy: &[u8]) -> (r: String)
    requires
        entropy@.len() % 4 == 0,
        16 <= entropy@.len() <= 32,
    ensures
        r@ == bip39_phrase(entropy@),
        bip39_seed(r@) is Some,
        spaces(r@) == entropy@.len() * 3 / 4 - 1,
{
    bip39::Mnemonic::from_entropy_in(bip39::Language::English, entropy).unwrap().to_string()
}

/// `bip39::Mnemonic::parse_in(English, ..)` and `to_seed("")`: the 64-byte
/// seed of the phrase, or `None` when it does not parse.
#[verifier::external_body]
fn seed_from_phrase(phrase: &str) -> (r: Option<Vec<u8>>)
    ensures
        r is Some == bip39_seed(phrase@) is Some,
        r matches Some(s) ==> bip39_seed(phrase@) == Some(s@) && s@.len() == 64,
{
    match bip39::Mnemonic::parse_in(bip39::Language::English, phrase) {
        Ok(m) => Some(m.to_seed("").to_vec()),
        Err(_) => None,
    }
}

/// `secp256k1::SecretKey::from_slice`, `PublicKey::from_secret_key` and
/// `serialize`: the compressed public key of a valid secret key, whose tag
/// byte is 0x02 or 0x03 and which parses back as a public key; `None` when
/// the bytes are not a valid secret key.
#[verifier::external_body]
fn public_key_of(secret: &[u8]) -> (r: Option<Vec<u8>>)
    ensures
        r is Some == valid_secret_key(secret@),
        r matches Some(pk) ==> pk@ == secp256k1_public_key(secret@) && pk@.len() == 33 && (pk@[0] == 2
            || pk@[0] == 3) && public_key_encoding_valid(pk@),
{
    match secp256k1::SecretKey::from_slice(secret) {
        Ok(sk) => Some(secp256k1::PublicKey::from_secret_key(&secp256k1::Secp256k1::new(), &sk).serialize().to_vec()),
        Err(_) => None,
    }
}

/// `secp256k1::Secp256k1::sign_ecdsa` of a 32-byte digest, serialized
/// compactly; `None` when the bytes are not a valid secret key. The compact
/// form holds two scalars below the curve order, and the signature verifies
/// for the digest under the public key of the secret key, which parses.
#[verifier::external_body]
fn ecdsa_sign(secret: &[u8], digest: &[u8]) -> (r: Option<Vec<u8>>)
    requires
        digest@.len() == 32,
    ensures
        r is Some == valid_secret_key(secret@),
        r matches Some(sig) ==> sig@ == ecdsa_signature(secret@, digest@) && sig@.len() == 64
            && valid_compact_signature(sig@) && public_key_encoding_valid(secp256k1_public_key(secret@))
            && ecdsa_verifies(secp256k1_public_key(secret@), sig@, digest@),
{
    match secp256k1::SecretKey::from_slice(secret) {
        Ok(sk) => {
            let msg = secp256k1::Message::from_digest_slice(digest).unwrap();
            Some(secp256k1::Secp256k1::new().sign_ecdsa(&msg, &sk).serialize_compact().to_vec())
        },
        Err(_) => None,
    }
}

/// `secp256k1::PublicKey::from_slice` succeeds.
#[verifier::external_body]
fn public_key_parses(bytes: &[u8]) -> (r: bool)
    ensures
        r == public_key_encoding_valid(bytes@),
{
    secp256k1::PublicKey::from_slice(bytes).is_ok()
}

/// `secp256k1::ecdsa::Signature::from_compact` succeeds: 64 bytes whose two
/// halves are below the curve order.
#[verifier::external_body]
fn signature_parses(bytes: &[u8]) -> (r: bool)
    ensures
        r == valid_compact_signature(bytes@),
{
    secp256k1::ecdsa::Signature::from_compact(bytes).is_ok()
}

/// `secp256k1::Secp256k1::verify_ecdsa` of a parsed signature and public key
/// on a 32-byte digest.
#[verifier::external_body]
fn ecdsa_verify(public_key: &[u8], signature: &[u8], digest: &[u8]) -> (r: bool)
    requires
        public_key_encoding_valid(public_key@),
        valid_compact_signature(signature@),
        digest@.len() == 32,
    ensures
        r == ecdsa_verifies(public_key@, signature@, digest@),
{
    let pk = secp256k1::PublicKey::from_slice(public_key).unwrap();
    let sig = secp256k1::ecdsa::Signature::from_compact(signature).unwrap();
    let msg = secp256k1::Message::from_digest_slice(digest).unwrap();
    secp256k1::Secp256k1::new().verify_ecdsa(&msg, &sig, &pk).is_ok()
}

/// The wallet that a mnemonic phrase stands for, or the error it gives.
pub open spec fn wallet_of_phrase(phrase: Seq<char>) -> Result<(Seq<char>, Seq<char>, Seq<char>), CryptoError> {
    match bip39_seed(phrase) {
        None => Err(CryptoError::InvalidMnemonic),
        Some(seed) => {
            let secret = secret_from_seed(seed);
            if valid_secret_key(secret) {
                let pk = secp256k1_public_key(secret);
                Ok((address_of(pk), hex_lower(pk), hex_lower(secret)))
            } else {
                Err(CryptoError::InvalidSecretKey)
            }
        },
    }
}

/// What checking a signature (hex) for a public key (hex) on the SHA-256 of
/// `data` gives: an error when either does not decode or parse, else whether
/// it verifies.
pub open spec fn signature_check(public_key: Seq<char>, signature: Seq<char>, data: Seq<char>) -> Result<
    bool,
    CryptoError,
> {
    match hex_decode(public_key) {
        None => Err(CryptoError::InvalidHex),
        Some(pk) => if !public_key_encoding_valid(pk) {
            Err(CryptoError::InvalidPublicKey)
        } else {
            match hex_decode(signature) {
                None => Err(CryptoError::InvalidHex),
                Some(sig) => if !valid_compact_signature(sig) {
                    Err(CryptoError::InvalidSignature)
                } else {
                    Ok(ecdsa_verifies(pk, sig, sha256_digest(encode_utf8(data))))
                },
            }
        },
    }
}

proof fn lemma_key_tag_hex(tag: u8)
    requires
        tag == 2 || tag == 3,
    ensures
        hex_digit(tag >> 4u8) == '0',
        hex_digit(tag & 0x0fu8) == '2' || hex_digit(tag & 0x0fu8) == '3',
{
    assert(tag == 2 || tag == 3 ==> (tag >> 4u8) == 0) by (bit_vector);
    assert(tag == 2 ==> (tag & 0x0fu8) == 2) by (bit_vector);
    assert(tag == 3 ==> (tag & 0x0fu8) == 3) by (bit_vector);
}

proof fn lemma_without_char_append(a: Seq<char>, b: Seq<char>, c: char)
    ensures
        without_char(a + b, c) == without_char(a, c) + without_char(b, c),
    decreases b.len(),
{
    if b.len() == 0 {
        assert(a + b =~= a);
        assert(without_char(a, c) + without_char(b, c) =~= without_char(a, c));
    } else {
        assert((a + b).drop_last() =~= a + b.drop_last());
        lemma_without_char_append(a, b.drop_last(), c);
        assert(without_char(a + b, c) =~= without_char(a, c) + without_char(b, c));
    }
}

proof fn lemma_without_absent_char(a: Seq<char>, c: char)
    requires
        forall|i: int| 0 <= i < a.len() ==> a[i] != c,
    ensures
        without_char(a, c) == a,
    decreases a.len(),
{
    if a.len() > 0 {
        lemma_without_absent_char(a.drop_last(), c);
        assert(without_char(a, c) =~= a);
    }
}

/// The hyphenated form of a UUID without its hyphens is 32 lowercase hex
/// digits.
pub proof fn lemma_uuid_without_hyphens(u: Seq<char>)
    requires
        hyphenated_uuid(u),
    ensures
        without_char(u, '-').len() == 32,
        forall|i: int| 0 <= i < 32 ==> is_lower_hex_digit(#[trigger] without_char(u, '-')[i]),
{
    let p0 = u.subrange(0, 8);
    let p1 = u.subrange(9, 13);
    let p2 = u.subrange(14, 18);
    let p3 = u.subrange(19, 23);
    let p4 = u.subrange(24, 36);
    let h = seq!['-'];
    assert(u[8] == '-' && u[13] == '-' && u[18] == '-' && u[23] == '-');
    assert(u =~= p0 + h + p1 + h + p2 + h + p3 + h + p4);
    assert forall|i: int| 0 <= i < 36 && i != 8 && i != 13 && i != 18 && i != 23 implies #[trigger] u[i] != '-'
        && is_lower_hex_digit(u[i]) by {
        assert(is_lower_hex_digit(u[i]));
    }
    assert forall|i: int| 0 <= i < p0.len() implies p0[i] != '-' by { assert(p0[i] == u[i]); }
    assert forall|i: int| 0 <= i < p1.len() implies p1[i] != '-' by { assert(p1[i] == u[i + 9]); }
    assert forall|i: int| 0 <= i < p2.len() implies p2[i] != '-' by { assert(p2[i] == u[i + 14]); }
    assert forall|i: int| 0 <= i < p3.len() implies p3[i] != '-' by { assert(p3[i] == u[i + 19]); }
    assert forall|i: int| 0 <= i < p4.len() implies p4[i] != '-' by { assert(p4[i] == u[i + 24]); }
    lemma_without_absent_char(p0, '-');
    lemma_without_absent_char(p1, '-');
    lemma_without_absent_char(p2, '-');
    lemma_without_absent_char(p3, '-');
    lemma_without_absent_char(p4, '-');
    assert(without_char(h, '-') =~= Seq::<char>::empty()) by {
        assert(h.drop_last() =~= Seq::<char>::empty());
        assert(h.last() == '-');
        assert(without_char(h.drop_last(), '-') =~= Seq::<char>::empty());
    }
    lemma_without_char_append(p0 + h + p1 + h + p2 + h + p3, h + p4, '-');
    lemma_without_char_append(h, p4, '-');
    lemma_without_char_append(p0 + h + p1 + h + p2, h + p3, '-');
    lemma_without_char_append(h, p3, '-');
    lemma_without_char_append(p0 + h + p1, h + p2, '-');
    lemma_without_char_append(h, p2, '-');
    lemma_without_char_append(p0, h + p1, '-');
    lemma_without_char_append(h, p1, '-');
    assert(p0 + h + p1 + h + p2 + h + p3 + h + p4 =~= (p0 + h + p1 + h + p2 + h + p3) + (h + p4));
    assert(p0 + h + p1 + h + p2 + h + p3 =~= (p0 + h + p1 + h + p2) + (h + p3));
    assert(p0 + h + p1 + h + p2 =~= (p0 + h + p1) + (h + p2));
    assert(p0 + h + p1 =~= p0 + (h + p1));
    let w = p0 + p1 + p2 + p3 + p4;
    assert(without_char(u, '-') =~= w);
    assert forall|i: int| 0 <= i < 32 implies is_lower_hex_digit(#[trigger] w[i]) by {
        if i < 8 {
            assert(w[i] == u[i]);
        } else if i < 12 {
            assert(w[i] == u[i + 1]);
        } else if i < 16 {
            assert(w[i] == u[i + 2]);
        } else if i < 20 {
            assert(w[i] == u[i + 3]);
        } else {
            assert(w[i] == u[i + 4]);
        }
    }
}

/// Namespace of the key-handling operations.
pub struct CryptoUtils;

impl CryptoUtils {
    /// The English BIP-39 phrase of the given entropy.
    pub fn mnemonic_from_entropy(entropy: &[u8]) -> (r: String)
        requires
            entropy@.len() % 4 == 0,
            16 <= entropy@.len() <= 32,
        ensures
            r@ == bip39_phrase(entropy@),
            bip39_seed(r@) is Some,
            spaces(r@) == entropy@.len() * 3 / 4 - 1,
    {
        phrase_from_entropy(entropy)
    }

    /// A fresh 12-word phrase: the phrase of 16 random bytes. It parses back
    /// as a mnemonic.
    pub fn generate_mnemonic() -> (r: String)
        ensures
            exists|e: Seq<u8>| e.len() == 16 && r@ == #[trigger] bip39_phrase(e),
            bip39_seed(r@) is Some,
            spaces(r@) == 11,
    {
        let entropy = random_entropy();
        Self::mnemonic_from_entropy(entropy.as_slice())
    }

    /// The wallet of a mnemonic: the secret key is SHA-256 of the first 32
    /// bytes of the phrase's seed; the public key is its compressed point;
    /// the address is that of the public key. Keys are given as hex text.
    pub fn mnemonic_to_wallet(mnemonic: &str) -> (r: Result<Wallet, CryptoError>)
        ensures
            match (r, wallet_of_phrase(mnemonic@)) {
                (Ok(w), Ok((address, public_key, private_key))) => w.address@ == address
                    && w.public_key@ == public_key && w.private_key@ == private_key,
                (Err(e), Err(f)) => e == f,
                _ => false,
            },
            r matches Ok(w) ==> {
                &&& w.private_key@.len() == 64
                &&& w.public_key@.len() == 66
                &&& w.public_key@[0] == '0'
                &&& (w.public_key@[1] == '2' || w.public_key@[1] == '3')
                &&& w.address@.len() == 42
            },
    {
        let seed = match seed_from_phrase(mnemonic) {
            Some(s) => s,
            None => return Err(CryptoError::InvalidMnemonic),
        };
        let head = vstd::slice::slice_subrange(seed.as_slice(), 0, 32);
        let secret = sha256(head);
        let public_key = match public_key_of(secret.as_slice()) {
            Some(pk) => pk,
            None => return Err(CryptoError::InvalidSecretKey),
        };
        let address = Self::public_key_to_address(public_key.as_slice());
        proof {
            lemma_hex_length(secret@);
            lemma_hex_length(public_key@);
            lemma_key_tag_hex(public_key@[0]);
        }
        Ok(Wallet {
            address,
            public_key: hex_encode(public_key.as_slice()),
            private_key: hex_encode(secret.as_slice()),
        })
    }

    /// `0x` followed by the hex of RIPEMD-160(SHA-256(public key)).
    pub fn public_key_to_address(public_key: &[u8]) -> (r: String)
        ensures
            r@ == address_of(public_key@),
            r@.len() == 42,
    {
        let inner = sha256(public_key);
        let outer = ripemd160(inner.as_slice());
        let mut address = String::new();
        address.push('0');
        address.push('x');
        let digits = hex_encode(outer.as_slice());
        address.append(digits.as_str());
        assert(address@ =~= address_of(public_key@));
        proof {
            lemma_hex_length(outer@);
        }
        address
    }

    /// The compact ECDSA signature, as hex, of the SHA-256 of `data` under
    /// the secret key given as hex.
    pub fn sign_transaction(private_key: &str, data: &str) -> (r: Result<String, CryptoError>)
        ensures
            match hex_decode(private_key@) {
                None => r == Err::<String, CryptoError>(CryptoError::InvalidHex),
                Some(secret) => if valid_secret_key(secret) {
                    r matches Ok(s) && s@ == hex_lower(ecdsa_signature(secret, sha256_digest(encode_utf8(data@))))
                } else {
                    r == Err::<String, CryptoError>(CryptoError::InvalidSecretKey)
                },
            },
            r matches Ok(s) ==> s@.len() == 128 && signature_check(
                hex_lower(secp256k1_public_key(hex_decode(private_key@).unwrap())),
                s@,
                data@,
            ) == Ok::<bool, CryptoError>(true),
    {
        let secret = match hex_decode_text(private_key) {
            Some(b) => b,
            None => return Err(CryptoError::InvalidHex),
        };
        let digest = sha256(data.as_bytes());
        match ecdsa_sign(secret.as_slice(), digest.as_slice()) {
            Some(sig) => {
                proof {
                    lemma_hex_length(sig@);
                    lemma_hex_roundtrip(sig@);
                    lemma_hex_roundtrip(secp256k1_public_key(secret@));
                }
                Ok(hex_encode(sig.as_slice()))
            },
            None => Err(CryptoError::InvalidSecretKey),
        }
    }

    /// Whether the signature (hex) verifies for the public key (hex) on the
    /// SHA-256 of `data`; an error when either does not decode or parse.
    pub fn verify_signature(public_key: &str, signature: &str, data: &str) -> (r: Result<bool, CryptoError>)
        ensures
            r == signature_check(public_key@, signature@, data@),
    {
        let pk = match hex_decode_text(public_key) {
            Some(b) => b,
            None => return Err(CryptoError::InvalidHex),
        };
        if !public_key_parses(pk.as_slice()) {
            return Err(CryptoError::InvalidPublicKey);
        }
        let digest = sha256(data.as_bytes());
        let sig = match hex_decode_text(signature) {
            Some(b) => b,
            None => return Err(CryptoError::InvalidHex),
        };
        if !signature_parses(sig.as_slice()) {
            return Err(CryptoError::InvalidSignature);
        }
        Ok(ecdsa_verify(pk.as_slice(), sig.as_slice(), digest.as_slice()))
    }

    /// The hex of the SHA-256 of the text's UTF-8 bytes.
    pub fn calculate_hash(data: &str) -> (r: String)
        ensures
            r@ == hex_lower(sha256_digest(encode_utf8(data@))),
    {
        let digest = sha256(data.as_bytes());
        hex_encode(digest.as_slice())
    }

    /// The text with its hyphens removed.
    pub fn id_from_uuid_text(text: &str) -> (r: String)
        ensures
            r@ == without_char(text@, '-'),
    {
        let n = text.unicode_len();
        let mut out = String::new();
        let mut i: usize = 0;
        while i < n
            invariant
                n == text@.len(),
                i <= n,
                out@ == without_char(text@.subrange(0, i as int), '-'),
            decreases n - i,
        {
            let c = text.get_char(i);
            assert(text@.subrange(0, i + 1).drop_last() =~= text@.subrange(0, i as int));
            if c != '-' {
                out.push(c);
            }
            i = i + 1;
        }
        assert(text@.subrange(0, n as int) =~= text@);
        out
    }

    /// A fresh identifier: a random version-4 UUID without its hyphens, 32
    /// lowercase hex digits.
    pub fn generate_id() -> (r: String)
        ensures
            exists|u: Seq<char>| hyphenated_uuid(u) && r@ == #[trigger] without_char(u, '-'),
            r@.len() == 32,
            forall|i: int| 0 <= i < 32 ==> is_lower_hex_digit(#[trigger] r@[i]),
    {
        let text = random_uuid_text();
        proof {
            lemma_uuid_without_hyphens(text@);
        }
        Self::id_from_uuid_text(text.as_str())
    }
}

/// A wallet's private key decodes to the secret whose public key the wallet
/// holds; so, by `sign_transaction`'s contract, what is signed with a
/// wallet's private key verifies under the wallet's public key.
pub proof fn lemma_wallet_key_pair(phrase: Seq<char>)
    requires
        wallet_of_phrase(phrase) is Ok,
    ensures
        ({
            let (address, public_key, private_key) = wallet_of_phrase(phrase)->Ok_0;
            &&& hex_decode(private_key) is Some
            &&& hex_lower(secp256k1_public_key(hex_decode(private_key).unwrap())) == public_key
        }),
{
    let seed = bip39_seed(phrase).unwrap();
    lemma_hex_roundtrip(secret_from_seed(seed));
}

/// A wallet from a phrase: the phrase's BIP-39 seed must exist, else the
/// phrase is refused; the secret key is the SHA-256 of the seed's first 32
/// bytes and must be a valid secp256k1 secret key (32 bytes, big-endian value
/// above 0 and below the group order), else the key is refused; the wallet
/// holds the hex of the secret, the hex of its compressed public key, and
/// `0x` with the hex of the RIPEMD-160 of the SHA-256 of that public key.
pub proof fn lemma_wallet_rule(phrase: Seq<char>, secret: Seq<u8>)
    ensures
        bip39_seed(phrase) is None ==> wallet_of_phrase(phrase) == Err::<(Seq<char>, Seq<char>, Seq<char>), CryptoError>(
            CryptoError::InvalidMnemonic,
        ),
        bip39_seed(phrase) matches Some(seed) ==> ({
            let sk = sha256_digest(seed.subrange(0, 32));
            &&& !valid_secret_key(sk) ==> wallet_of_phrase(phrase) == Err::<
                (Seq<char>, Seq<char>, Seq<char>),
                CryptoError,
            >(CryptoError::InvalidSecretKey)
            &&& valid_secret_key(sk) ==> wallet_of_phrase(phrase) == Ok::<
                (Seq<char>, Seq<char>, Seq<char>),
                CryptoError,
            >(
                (
                    "0x"@ + hex_lower(ripemd160_digest(sha256_digest(secp256k1_public_key(sk)))),
                    hex_lower(secp256k1_public_key(sk)),
                    hex_lower(sk),
                ),
            )
        }),
        valid_secret_key(secret) <==> (secret.len() == 32 && 0 < big_endian(secret)
            < 0xFFFFFFFFFFFFFFFFFFFFFFFFFFFFFFFEBAAEDCE6AF48A03BBFD25E8CD0364141nat),
{
    reveal_strlit("0x");
    assert(seq!['0', 'x'] =~= "0x"@);
}

/// A byte string's big-endian value: none for no bytes, and each further
/// byte shifts the value up by a byte.
pub proof fn lemma_big_endian_steps(bytes: Seq<u8>, b: u8)
    ensures
        big_endian(Seq::<u8>::empty()) == 0,
        big_endian(bytes.push(b)) == big_endian(bytes) * 256 + b,
{
    assert(bytes.push(b).drop_last() =~= bytes);
}

/// A signature check that gives an answer decoded both texts, parsed the
/// public key and the signature, and answers whether the signature verifies
/// for the SHA-256 of the data's UTF-8 bytes.
pub proof fn lemma_signature_check_rule(public_key: Seq<char>, signature: Seq<char>, data: Seq<char>)
    ensures
        signature_check(public_key, signature, data) matches Ok(v) ==> ({
            &&& hex_decode(public_key) is Some
            &&& hex_decode(signature) is Some
            &&& public_key_encoding_valid(hex_decode(public_key).unwrap())
            &&& valid_compact_signature(hex_decode(signature).unwrap())
            &&& v == ecdsa_verifies(
                hex_decode(public_key).unwrap(),
                hex_decode(signature).unwrap(),
                sha256_digest(encode_utf8(data)),
            )
        }),
        hex_decode(public_key) is None ==> signature_check(public_key, signature, data) == Err::<bool, CryptoError>(
            CryptoError::InvalidHex,
        ),
{
}

} // verus!
