use redips::crypto::{CryptoError, CryptoUtils};
use ripemd::Ripemd160;
use secp256k1::{PublicKey, Secp256k1, SecretKey};
use sha2::{Digest, Sha256};

const ABANDON: &str = "abandon abandon abandon abandon abandon abandon abandon abandon abandon abandon abandon about";

fn reference_wallet(phrase: &str) -> (String, String, String) {
    let m = bip39::Mnemonic::parse_in(bip39::Language::English, phrase).unwrap();
    let seed = m.to_seed("");
    let hash = Sha256::digest(&seed[..32]);
    let sk = SecretKey::from_slice(&hash).unwrap();
    let pk = PublicKey::from_secret_key(&Secp256k1::new(), &sk);
    let addr = format!("0x{}", hex::encode(Ripemd160::digest(Sha256::digest(pk.serialize()))));
    (addr, hex::encode(pk.serialize()), hex::encode(sk.secret_bytes()))
}

#[test]
fn zero_entropy_gives_the_abandon_phrase() {
    assert_eq!(CryptoUtils::mnemonic_from_entropy(&[0u8; 16]), ABANDON);
}

#[test]
fn generated_mnemonic_has_twelve_words_and_imports() {
    let m = CryptoUtils::generate_mnemonic();
    assert_eq!(m.split(' ').count(), 12);
    let w = CryptoUtils::mnemonic_to_wallet(&m).unwrap();
    assert_eq!(w.address.len(), 42);
}

#[test]
fn wallet_from_known_mnemonic() {
    let w = CryptoUtils::mnemonic_to_wallet(ABANDON).unwrap();
    let (addr, pk, sk) = reference_wallet(ABANDON);
    assert_eq!(w.address, addr);
    assert_eq!(w.public_key, pk);
    assert_eq!(w.private_key, sk);
    assert!(w.address.starts_with("0x"));
    assert_eq!(w.public_key.len(), 66);
    assert_eq!(w.private_key.len(), 64);
}

#[test]
fn wallet_is_a_function_of_the_phrase() {
    let a = CryptoUtils::mnemonic_to_wallet(ABANDON).unwrap();
    let b = CryptoUtils::mnemonic_to_wallet(ABANDON).unwrap();
    assert_eq!(a.address, b.address);
    assert_eq!(a.private_key, b.private_key);
}

#[test]
fn invalid_mnemonic_is_refused() {
    assert_eq!(CryptoUtils::mnemonic_to_wallet("hello world").unwrap_err(), CryptoError::InvalidMnemonic);
    let bad_checksum = "abandon abandon abandon abandon abandon abandon abandon abandon abandon abandon abandon abandon";
    assert_eq!(CryptoUtils::mnemonic_to_wallet(bad_checksum).unwrap_err(), CryptoError::InvalidMnemonic);
}

#[test]
fn address_of_public_key() {
    let pk = [2u8; 33];
    let expected = format!("0x{}", hex::encode(Ripemd160::digest(Sha256::digest(pk))));
    assert_eq!(CryptoUtils::public_key_to_address(&pk), expected);
}

#[test]
fn calculate_hash_is_sha256_hex() {
    assert_eq!(
        CryptoUtils::calculate_hash("abc"),
        "ba7816bf8f01cfea414140de5dae2223b00361a396177a9cb410ff61f20015ad"
    );
    assert_eq!(
        CryptoUtils::calculate_hash(""),
        "e3b0c44298fc1c149afbf4c8996fb92427ae41e4649b934ca495991b7852b855"
    );
}

#[test]
fn sign_then_verify() {
    let w = CryptoUtils::mnemonic_to_wallet(ABANDON).unwrap();
    let sig = CryptoUtils::sign_transaction(&w.private_key, "payload").unwrap();
    assert_eq!(sig.len(), 128);
    assert_eq!(CryptoUtils::verify_signature(&w.public_key, &sig, "payload"), Ok(true));
    assert_eq!(CryptoUtils::verify_signature(&w.public_key, &sig, "other"), Ok(false));
    let again = CryptoUtils::sign_transaction(&w.private_key, "payload").unwrap();
    assert_eq!(sig, again);
}

#[test]
fn signing_errors() {
    assert_eq!(CryptoUtils::sign_transaction("xyz", "d"), Err(CryptoError::InvalidHex));
    assert_eq!(CryptoUtils::sign_transaction(&"00".repeat(32), "d"), Err(CryptoError::InvalidSecretKey));
    assert_eq!(CryptoUtils::sign_transaction(&"ff".repeat(32), "d"), Err(CryptoError::InvalidSecretKey));
    assert_eq!(CryptoUtils::sign_transaction("0102", "d"), Err(CryptoError::InvalidSecretKey));
}

#[test]
fn verification_errors() {
    let w = CryptoUtils::mnemonic_to_wallet(ABANDON).unwrap();
    let sig = CryptoUtils::sign_transaction(&w.private_key, "p").unwrap();
    assert_eq!(CryptoUtils::verify_signature("zz", &sig, "p"), Err(CryptoError::InvalidHex));
    assert_eq!(CryptoUtils::verify_signature("0102", &sig, "p"), Err(CryptoError::InvalidPublicKey));
    assert_eq!(CryptoUtils::verify_signature(&w.public_key, "q", "p"), Err(CryptoError::InvalidHex));
    assert_eq!(CryptoUtils::verify_signature(&w.public_key, "00", "p"), Err(CryptoError::InvalidSignature));
    assert_eq!(
        CryptoUtils::verify_signature(&w.public_key, &"ff".repeat(64), "p"),
        Err(CryptoError::InvalidSignature)
    );
}

#[test]
fn generated_ids_are_32_hex_chars() {
    let id = CryptoUtils::generate_id();
    assert_eq!(id.len(), 32);
    assert!(id.chars().all(|c| c.is_ascii_hexdigit() && !c.is_ascii_uppercase()));
    assert_ne!(id, CryptoUtils::generate_id());
}

#[test]
fn uuid_text_loses_its_hyphens() {
    assert_eq!(
        CryptoUtils::id_from_uuid_text("67e55044-10b1-426f-9247-bb680e5fe0c8"),
        "67e5504410b1426f9247bb680e5fe0c8"
    );
    assert_eq!(CryptoUtils::id_from_uuid_text("--"), "");
}

#[test]
fn wallet_text_lengths_and_key_tag() {
    for _ in 0..5 {
        let m = CryptoUtils::generate_mnemonic();
        assert_eq!(m.matches(' ').count(), 11);
        let w = CryptoUtils::mnemonic_to_wallet(&m).unwrap();
        assert_eq!(w.private_key.len(), 64);
        assert_eq!(w.public_key.len(), 66);
        assert!(w.public_key.starts_with("02") || w.public_key.starts_with("03"));
        assert_eq!(w.address.len(), 42);
        let sig = CryptoUtils::sign_transaction(&w.private_key, "data").unwrap();
        assert_eq!(sig.len(), 128);
        assert_eq!(CryptoUtils::verify_signature(&w.public_key, &sig, "data"), Ok(true));
    }
    assert_eq!(CryptoUtils::public_key_to_address(&[2u8; 33]).len(), 42);
}

#[test]
fn phrases_of_every_entropy_size_parse_back() {
    for len in [16usize, 20, 24, 28, 32] {
        let entropy: Vec<u8> = (0..len as u8).collect();
        let phrase = CryptoUtils::mnemonic_from_entropy(&entropy);
        assert_eq!(phrase.matches(' ').count(), len * 3 / 4 - 1);
        assert!(CryptoUtils::mnemonic_to_wallet(&phrase).is_ok());
    }
}
