use gm_save_core::crypto::{
    decrypt, derive_key, encrypt, encrypt_with_nonce, fits_keystream, KEY_LEN, SALT_LEN,
};
use gm_save_core::SaveError;

fn fixed_salt() -> [u8; SALT_LEN] {
    [0xDE; SALT_LEN]
}

#[test]
fn derive_key_is_deterministic() {
    let s = fixed_salt();
    assert_eq!(derive_key("pass", &s), derive_key("pass", &s));
}

#[test]
fn derive_key_differs_by_passphrase() {
    let s = fixed_salt();
    assert_ne!(derive_key("pass-a", &s), derive_key("pass-b", &s));
}

#[test]
fn derive_key_differs_by_salt() {
    let s1 = [0u8; SALT_LEN];
    let s2 = [1u8; SALT_LEN];
    assert_ne!(derive_key("pass", &s1), derive_key("pass", &s2));
}

#[test]
fn encrypt_decrypt_roundtrip() {
    let key = derive_key("roundtrip", &fixed_salt());
    let plaintext = b"Hello, GameMaker!";

    let (nonce, ct) = encrypt(&key, plaintext).unwrap();
    let recovered = decrypt(&key, &nonce, &ct).unwrap();

    assert_eq!(recovered, plaintext);
}

#[test]
fn decrypt_with_wrong_key_fails() {
    let key1 = derive_key("correct", &fixed_salt());
    let key2 = derive_key("wrong", &fixed_salt());

    let (nonce, ct) = encrypt(&key1, b"secret").unwrap();
    assert!(decrypt(&key2, &nonce, &ct).is_err());
}

#[test]
fn decrypt_with_tampered_ciphertext_fails() {
    let key = derive_key("tamper-test", &fixed_salt());
    let (nonce, mut ct) = encrypt(&key, b"integrity").unwrap();

    let last = ct.len() - 1;
    ct[last] ^= 0xFF;

    assert!(decrypt(&key, &nonce, &ct).is_err());
}

#[test]
fn nonces_are_unique_across_calls() {
    let key = derive_key("nonce-test", &fixed_salt());
    let (n1, _) = encrypt(&key, b"data").unwrap();
    let (n2, _) = encrypt(&key, b"data").unwrap();
    assert_ne!(n1, n2);
}

#[test]
fn encrypt_empty_plaintext() {
    let key = derive_key("empty", &fixed_salt());
    let (nonce, ct) = encrypt(&key, b"").unwrap();
    let recovered = decrypt(&key, &nonce, &ct).unwrap();
    assert!(recovered.is_empty());
}

#[test]
fn derived_key_is_not_the_passphrase_or_zero() {
    let key = derive_key("pass", &fixed_salt());
    assert_eq!(key.len(), KEY_LEN);
    assert_ne!(key, [0u8; KEY_LEN]);
    assert_ne!(&key[..4], b"pass");
}

#[test]
fn ciphertext_is_plaintext_plus_tag_and_differs_from_it() {
    let key = derive_key("sizes", &fixed_salt());
    let nonce = [7u8; 12];
    let plaintext = b"some save data";
    let ct = encrypt_with_nonce(&key, &nonce, plaintext).unwrap();
    assert_eq!(ct.len(), plaintext.len() + 16);
    assert_ne!(&ct[..plaintext.len()], &plaintext[..]);
    assert_eq!(decrypt(&key, &nonce, &ct).unwrap(), plaintext);
}

#[test]
fn encrypt_with_fixed_nonce_is_deterministic() {
    let key = derive_key("fixed", &fixed_salt());
    let nonce = [1u8; 12];
    let a = encrypt_with_nonce(&key, &nonce, b"same").unwrap();
    let b = encrypt_with_nonce(&key, &nonce, b"same").unwrap();
    assert_eq!(a, b);
}

#[test]
fn decrypt_error_is_crypto_with_aead_text() {
    let key = derive_key("err", &fixed_salt());
    let nonce = [0u8; 12];
    match decrypt(&key, &nonce, b"short") {
        Err(SaveError::Crypto(m)) => assert_eq!(m, "aead::Error"),
        other => panic!("unexpected result: {:?}", other),
    }
}

#[test]
fn decrypt_with_wrong_nonce_fails() {
    let key = derive_key("nonce", &fixed_salt());
    let ct = encrypt_with_nonce(&key, &[1u8; 12], b"payload").unwrap();
    assert!(decrypt(&key, &[2u8; 12], &ct).is_err());
}

#[test]
fn keystream_limit_leaves_out_only_the_panic_window() {
    assert!(fits_keystream(0));
    assert!(fits_keystream(274_877_906_816));
    assert!(!fits_keystream(274_877_906_817));
    assert!(!fits_keystream(274_877_906_879));
    assert!(fits_keystream(274_877_906_880));
}

#[test]
fn random_source_error_is_a_crypto_error() {
    match gm_save_core::crypto::random_source_error() {
        SaveError::Crypto(m) => assert_eq!(m, "random source unavailable"),
        other => panic!("unexpected error: {:?}", other),
    }
}

#[test]
fn random_bytes_are_fresh() {
    let a: [u8; 16] = gm_save_core::crypto::random_bytes().unwrap();
    let b: [u8; 16] = gm_save_core::crypto::random_bytes().unwrap();
    assert_ne!(a, b);
}
