//! Cryptographic primitives used by the save system.
//!
//! - Key derivation: PBKDF2-HMAC-SHA256, 100 000 rounds
//! - Encryption: ChaCha20-Poly1305 (authenticated)
//! - Nonce: 12 bytes, fresh from the OS random source on every encryption
//! - Salt: 16 bytes, fresh on every save
use crate::error::{Result, SaveError, SaveErrorView, result_view};
use vstd::string::*;
use chacha20poly1305::aead::{Aead, KeyInit};
use rand::rngs::OsRng;
use rand::RngCore;
use chacha20poly1305::{ChaCha20Poly1305, Key, Nonce};
use vstd::prelude::*;
use vstd::utf8::encode_utf8;
use zeroize::Zeroize;

verus! {

/// Length of the random salt used in key derivation (bytes).
pub const SALT_LEN: usize = 16;

/// Length of the ChaCha20-Poly1305 nonce (bytes).
pub const NONCE_LEN: usize = 12;

/// Length of the derived ChaCha20 key (bytes).
pub const KEY_LEN: usize = 32;

/// Length of the Poly1305 tag appended to every ciphertext (bytes).
pub const TAG_LEN: usize = 16;

/// Number of PBKDF2 rounds.
pub const PBKDF2_ROUNDS: u32 = 100_000;

/// ChaCha20-Poly1305 refuses a message of this many 64-byte blocks or more.
pub const MAX_BLOCKS: u64 = 0xffff_ffff;

/// `chacha20poly1305::Error`, the crate's opaque failure value.
#[verifier::external_type_specification]
#[verifier::external_body]
pub struct ExAeadError(chacha20poly1305::Error);

/// The bytes that `pbkdf2::pbkdf2_hmac::<sha2::Sha256>` writes into a buffer of
/// `len` bytes, from `password`, `salt` and `rounds`.
pub uninterp spec fn pbkdf2_hmac_sha256(password: Seq<u8>, salt: Seq<u8>, rounds: u32, len: nat) -> Seq<u8>;

/// The ciphertext and tag that ChaCha20-Poly1305 makes of `plaintext` under
/// `key` and `nonce`, with no associated data.
pub uninterp spec fn chacha20poly1305_seal(key: Seq<u8>, nonce: Seq<u8>, plaintext: Seq<u8>) -> Seq<u8>;

/// What ChaCha20-Poly1305 decryption of `ciphertext` under `key` and `nonce`
/// gives: the plaintext when the tag authenticates it, else nothing.
pub uninterp spec fn chacha20poly1305_open(key: Seq<u8>, nonce: Seq<u8>, ciphertext: Seq<u8>) -> Option<Seq<u8>>;

/// Calls `pbkdf2::pbkdf2_hmac::<sha2::Sha256>`, which fills `res` with key
/// material derived from `password` and `salt` in `rounds` rounds. Claimed:
/// the buffer keeps its length and holds the named result. HMAC accepts a key
/// of any length; the buffer is held to one SHA-256 block, well below the
/// 2^32 blocks at which the crate's block counter would overflow.
#[verifier::external_body]
fn pbkdf2_hmac_sha256_into(password: &[u8], salt: &[u8], rounds: u32, res: &mut [u8])
    requires
        old(res)@.len() <= KEY_LEN,
    ensures
        final(res)@ == pbkdf2_hmac_sha256(password@, salt@, rounds, old(res)@.len()),
        final(res)@.len() == old(res)@.len(),
{
    pbkdf2::pbkdf2_hmac::<sha2::Sha256>(password, salt, rounds, res)
}

/// Calls `Aead::encrypt` of `chacha20poly1305::ChaCha20Poly1305`, keyed with
/// `key`, on `plaintext` under `nonce`. Claimed, as the crate's source shows:
/// it fails exactly when the message has `MAX_BLOCKS` 64-byte blocks or more;
/// the ciphertext is the named result, 16 bytes (the tag) longer than the
/// plaintext; and, as for any AEAD, decrypting it with the same key and nonce
/// gives the plaintext back. The crate refuses a message of `MAX_BLOCKS`
/// blocks or more, but ChaCha20's keystream runs out one block earlier (block
/// 0 keys Poly1305), and a message in between panics: such lengths are left
/// out.
#[verifier::external_body]
fn chacha20poly1305_encrypt(key: &[u8; 32], nonce: &[u8; 12], plaintext: &[u8]) -> (r: core::result::Result<Vec<u8>, chacha20poly1305::Error>)
    requires
        within_keystream(plaintext@.len()),
    ensures
        r is Ok <==> plaintext@.len() / 64 < MAX_BLOCKS,
        r matches Ok(c) ==> c@ == chacha20poly1305_seal(key@, nonce@, plaintext@),
        r matches Ok(c) ==> c@.len() == plaintext@.len() + TAG_LEN,
        r matches Ok(c) ==> chacha20poly1305_open(key@, nonce@, c@) == Some(plaintext@),
{
    ChaCha20Poly1305::new(Key::from_slice(key)).encrypt(Nonce::from_slice(nonce), plaintext)
}

/// Calls `Aead::decrypt` of `chacha20poly1305::ChaCha20Poly1305`, keyed with
/// `key`, on `ciphertext` under `nonce`. Claimed: it succeeds exactly when the
/// named result is a plaintext, and then returns it; the plaintext is the
/// ciphertext without its 16-byte tag, so 16 bytes shorter. A message between
/// the keystream's end and the crate's own limit panics once its tag
/// authenticates: such lengths are left out.
#[verifier::external_body]
fn chacha20poly1305_decrypt(key: &[u8; 32], nonce: &[u8; 12], ciphertext: &[u8]) -> (r: core::result::Result<Vec<u8>, chacha20poly1305::Error>)
    requires
        ciphertext@.len() < TAG_LEN || within_keystream((ciphertext@.len() - TAG_LEN) as nat),
    ensures
        r is Ok <==> chacha20poly1305_open(key@, nonce@, ciphertext@) is Some,
        r matches Ok(p) ==> chacha20poly1305_open(key@, nonce@, ciphertext@) == Some(p@),
        r matches Ok(p) ==> p@.len() + TAG_LEN == ciphertext@.len(),
{
    ChaCha20Poly1305::new(Key::from_slice(key)).decrypt(Nonce::from_slice(nonce), ciphertext)
}

/// Calls `ToString::to_string` on a `chacha20poly1305::Error`, whose
/// `Display` writes the fixed text `aead::Error`.
#[verifier::external_body]
fn aead_error_text(e: &chacha20poly1305::Error) -> (m: String)
    ensures
        m@ == "aead::Error"@,
{
    e.to_string()
}

/// Calls `RngCore::try_fill_bytes` of `rand::rngs::OsRng`, the operating
/// system's random source, on `buf`. Claimed: the buffer keeps its length, and
/// the result tells whether the source supplied the bytes. Nothing is claimed
/// of the bytes: they are random.
#[verifier::external_body]
pub(crate) fn os_random_fill(buf: &mut [u8]) -> (ok: bool)
    ensures
        final(buf)@.len() == old(buf)@.len(),
{
    OsRng.try_fill_bytes(buf).is_ok()
}

/// Calls `zeroize::Zeroize::zeroize` on a key array, which overwrites every
/// byte with zero.
#[verifier::external_body]
pub(crate) fn wipe_key(key: &mut [u8; 32])
    ensures
        final(key)@ == Seq::new(32, |i: int| 0u8),
{
    key.zeroize();
}

/// Whether a message of `len` bytes is one ChaCha20-Poly1305 either handles
/// or refuses: every length except those that leave fewer keystream blocks
/// than the message needs while staying under the crate's own limit.
pub open spec fn within_keystream(len: nat) -> bool {
    len <= 64 * (MAX_BLOCKS - 1) || len >= 64 * MAX_BLOCKS
}

/// The error of a save for which the operating system supplied no randomness.
pub open spec fn random_source_failed() -> SaveErrorView {
    SaveErrorView::Crypto("random source unavailable"@)
}

/// Tells whether a message of `len` bytes is `within_keystream`.
pub fn fits_keystream(len: usize) -> (r: bool)
    ensures
        r == within_keystream(len as nat),
{
    len as u64 <= 64 * (MAX_BLOCKS - 1) || len as u64 >= 64 * MAX_BLOCKS
}

/// The error of a save for which the operating system supplied no randomness.
pub fn random_source_error() -> (e: SaveError)
    ensures
        e@ == random_source_failed(),
{
    SaveError::Crypto(String::from_str("random source unavailable"))
}

/// Fresh random bytes from the operating system, if it supplies them.
pub fn random_bytes<const N: usize>() -> (r: Option<[u8; N]>) {
    let mut bytes = [0u8; N];
    if os_random_fill(&mut bytes) {
        Some(bytes)
    } else {
        None
    }
}

/// The key derived from `passphrase` (its UTF-8 bytes) and `salt`.
pub open spec fn spec_derive_key(passphrase: Seq<char>, salt: Seq<u8>) -> Seq<u8> {
    pbkdf2_hmac_sha256(encode_utf8(passphrase), salt, PBKDF2_ROUNDS, KEY_LEN as nat)
}

/// What decrypting `ciphertext` under `key` and `nonce` gives.
pub open spec fn spec_decrypt(key: Seq<u8>, nonce: Seq<u8>, ciphertext: Seq<u8>) -> core::result::Result<Seq<u8>, SaveErrorView> {
    match chacha20poly1305_open(key, nonce, ciphertext) {
        Some(p) => Ok(p),
        None => Err(SaveErrorView::Crypto("aead::Error"@)),
    }
}

/// The key of a passphrase and a salt is PBKDF2-HMAC-SHA256 with the
/// passphrase's UTF-8 bytes as the password, the salt as the salt, 100 000
/// rounds and 32 bytes of output.
pub proof fn lemma_derived_key_is_pbkdf2(passphrase: Seq<char>, salt: Seq<u8>)
    ensures
        spec_derive_key(passphrase, salt) == pbkdf2_hmac_sha256(encode_utf8(passphrase), salt, 100_000u32, 32),
{
}

/// Derives a 32-byte ChaCha20 key from `passphrase` and `salt` using
/// PBKDF2-HMAC-SHA256 with `PBKDF2_ROUNDS` rounds.
pub fn derive_key(passphrase: &str, salt: &[u8; SALT_LEN]) -> (key: [u8; KEY_LEN])
    ensures
        key@ == spec_derive_key(passphrase@, salt@),
        key@ == pbkdf2_hmac_sha256(passphrase.spec_bytes(), salt@, 100_000u32, 32),
{
    let mut key = [0u8; KEY_LEN];
    pbkdf2_hmac_sha256_into(passphrase.as_bytes(), salt.as_slice(), PBKDF2_ROUNDS, &mut key);
    key
}

/// Encrypts `plaintext` under `key` and the given `nonce`.
pub fn encrypt_with_nonce(key: &[u8; KEY_LEN], nonce: &[u8; NONCE_LEN], plaintext: &[u8]) -> (r: Result<Vec<u8>>)
    requires
        within_keystream(plaintext@.len()),
    ensures
        r is Ok <==> plaintext@.len() / 64 < MAX_BLOCKS,
        r matches Ok(c) ==> c@ == chacha20poly1305_seal(key@, nonce@, plaintext@),
        r matches Ok(c) ==> c@.len() == plaintext@.len() + TAG_LEN,
        r matches Ok(c) ==> spec_decrypt(key@, nonce@, c@) == Ok::<Seq<u8>, SaveErrorView>(plaintext@),
        r matches Err(e) ==> e@ == SaveErrorView::Crypto("aead::Error"@),
{
    match chacha20poly1305_encrypt(key, nonce, plaintext) {
        Ok(c) => Ok(c),
        Err(e) => Err(SaveError::Crypto(aead_error_text(&e))),
    }
}

/// Encrypts `plaintext` with ChaCha20-Poly1305 under a fresh random nonce.
///
/// Returns the nonce and the ciphertext; the nonce must be stored alongside
/// the ciphertext to decrypt it. Fails when the message is too long, or when
/// the operating system supplies no random nonce.
pub fn encrypt(key: &[u8; KEY_LEN], plaintext: &[u8]) -> (r: Result<([u8; NONCE_LEN], Vec<u8>)>)
    requires
        within_keystream(plaintext@.len()),
    ensures
        plaintext@.len() / 64 >= MAX_BLOCKS ==> r is Err,
        r matches Err(e) ==> e@ == random_source_failed() || (e@ == SaveErrorView::Crypto("aead::Error"@)
            && plaintext@.len() / 64 >= MAX_BLOCKS),
        r matches Ok((n, c)) ==> c@ == chacha20poly1305_seal(key@, n@, plaintext@),
        r matches Ok((n, c)) ==> c@.len() == plaintext@.len() + TAG_LEN,
        r matches Ok((n, c)) ==> spec_decrypt(key@, n@, c@) == Ok::<Seq<u8>, SaveErrorView>(plaintext@),
{
    let nonce: [u8; NONCE_LEN] = match random_bytes() {
        Some(n) => n,
        None => return Err(random_source_error()),
    };
    match encrypt_with_nonce(key, &nonce, plaintext) {
        Ok(c) => Ok((nonce, c)),
        Err(e) => Err(e),
    }
}

/// Decrypts and authenticates `ciphertext` with ChaCha20-Poly1305.
///
/// Fails with `SaveError::Crypto` when the key or the nonce is wrong or the
/// ciphertext has been tampered with.
pub fn decrypt(key: &[u8; KEY_LEN], nonce_bytes: &[u8; NONCE_LEN], ciphertext: &[u8]) -> (r: Result<Vec<u8>>)
    requires
        ciphertext@.len() < TAG_LEN || within_keystream((ciphertext@.len() - TAG_LEN) as nat),
    ensures
        result_view(r, |p: Vec<u8>| p@) == spec_decrypt(key@, nonce_bytes@, ciphertext@),
        r matches Ok(p) ==> p@.len() + TAG_LEN == ciphertext@.len(),
{
    match chacha20poly1305_decrypt(key, nonce_bytes, ciphertext) {
        Ok(p) => Ok(p),
        Err(e) => Err(SaveError::Crypto(aead_error_text(&e))),
    }
}

} // verus!
