//! Password-based encryption of archive data with AES-256-GCM.
use vstd::prelude::*;
use vstd::slice::slice_to_vec;
use aes_gcm::aead::{Aead, KeyInit};
use rand::RngCore;
use crate::rzx_core::{EncryptionAlgorithm, RzxError, RzxResult};

verus! {

pub const SALT_SIZE: usize = 16;

pub const NONCE_SIZE: usize = 12;

pub const KEY_SIZE: usize = 32;

/// Number of PBKDF2 rounds used to derive a key from a password.
pub const KDF_ROUNDS: u32 = 100_000;

/// The 32-byte key that PBKDF2-HMAC-SHA256 derives from a password and a
/// salt in the given number of rounds.
pub uninterp spec fn pbkdf2_sha256(password: Seq<u8>, salt: Seq<u8>, rounds: u32) -> Seq<u8>;

/// What AES-256-GCM encryption (no associated data) gives for a key, a nonce
/// and a plaintext: the ciphertext followed by the 16-byte tag.
pub uninterp spec fn aes256gcm_sealed(key: Seq<u8>, nonce: Seq<u8>, plaintext: Seq<u8>) -> Seq<u8>;

/// What AES-256-GCM decryption (no associated data) gives for a key, a nonce
/// and a ciphertext: the plaintext if the tag checks out.
pub uninterp spec fn aes256gcm_opened(key: Seq<u8>, nonce: Seq<u8>, ciphertext: Seq<u8>) -> Option<
    Seq<u8>,
>;

/// Largest plaintext that `aes_gcm` encrypts (its `P_MAX`).
pub open spec fn aes_gcm_max_plaintext() -> nat {
    0x10_0000_0000
}

/// Generates a random salt for key derivation, from `rand::rngs::OsRng`
/// (`fill_bytes`, which panics only if the operating system's generator
/// fails). Nothing is stated of the bytes.
#[verifier::external_body]
pub fn generate_salt() -> [u8; 16] {
    let mut salt = [0u8; 16];
    rand::rngs::OsRng.fill_bytes(&mut salt);
    salt
}

/// Generates a random nonce for AES-GCM, from `rand::rngs::OsRng`
/// (`fill_bytes`, which panics only if the operating system's generator
/// fails). Nothing is stated of the bytes.
#[verifier::external_body]
pub fn generate_nonce() -> [u8; 12] {
    let mut nonce = [0u8; 12];
    rand::rngs::OsRng.fill_bytes(&mut nonce);
    nonce
}

/// Runs `pbkdf2::pbkdf2::<Hmac<Sha256>>` into a 32-byte buffer; the result
/// is named `pbkdf2_sha256`. (HMAC takes keys of any length, so the call
/// does not fail.)
#[verifier::external_body]
fn pbkdf2_hmac_sha256(password: &[u8], salt: &[u8], rounds: u32) -> (key: [u8; 32])
    ensures
        key@ == pbkdf2_sha256(password@, salt@, rounds),
{
    let mut key = [0u8; 32];
    let _ = pbkdf2::pbkdf2::<pbkdf2::hmac::Hmac<sha2::Sha256>>(password, salt, rounds, &mut key);
    key
}

/// Encrypts with `aes_gcm::Aes256Gcm::encrypt`. It succeeds exactly when the
/// plaintext is at most `P_MAX` bytes long; the result is named
/// `aes256gcm_sealed`, is 16 bytes longer than the plaintext, and decrypting
/// it with the same key and nonce gives the plaintext back.
#[verifier::external_body]
fn aes256gcm_encrypt(key: &[u8; 32], nonce: &[u8; 12], plaintext: &[u8]) -> (res: Option<
    Vec<u8>,
>)
    ensures
        res is Some <==> plaintext@.len() <= aes_gcm_max_plaintext(),
        res matches Some(c) ==> c@ == aes256gcm_sealed(key@, nonce@, plaintext@) && c@.len()
            == plaintext@.len() + 16 && aes256gcm_opened(key@, nonce@, c@) == Some(plaintext@),
{
    let cipher = aes_gcm::Aes256Gcm::new(aes_gcm::Key::<aes_gcm::Aes256Gcm>::from_slice(key));
    cipher.encrypt(aes_gcm::Nonce::from_slice(nonce), plaintext).ok()
}

/// Decrypts with `aes_gcm::Aes256Gcm::decrypt`; the result is named
/// `aes256gcm_opened`.
#[verifier::external_body]
fn aes256gcm_decrypt(key: &[u8; 32], nonce: &[u8; 12], ciphertext: &[u8]) -> (res: Option<
    Vec<u8>,
>)
    ensures
        res is Some <==> aes256gcm_opened(key@, nonce@, ciphertext@) is Some,
        res matches Some(p) ==> aes256gcm_opened(key@, nonce@, ciphertext@) == Some(p@),
{
    let cipher = aes_gcm::Aes256Gcm::new(aes_gcm::Key::<aes_gcm::Aes256Gcm>::from_slice(key));
    cipher.decrypt(aes_gcm::Nonce::from_slice(nonce), ciphertext).ok()
}

/// Derives an encryption key from a password and a salt with PBKDF2.
pub fn derive_key(password: &[u8], salt: &[u8; 16]) -> (key: [u8; 32])
    ensures
        key@ == pbkdf2_sha256(password@, salt@, KDF_ROUNDS),
{
    pbkdf2_hmac_sha256(password, salt.as_slice(), KDF_ROUNDS)
}

/// The encrypted form of `data`.
pub open spec fn encrypted_form(
    algorithm: EncryptionAlgorithm,
    key: Seq<u8>,
    nonce: Seq<u8>,
    data: Seq<u8>,
) -> Seq<u8> {
    match algorithm {
        EncryptionAlgorithm::NoEncryption => data,
        EncryptionAlgorithm::Aes256Gcm => aes256gcm_sealed(key, nonce, data),
    }
}

/// The data that an encrypted form decrypts to, if it does.
pub open spec fn decrypted_form(
    algorithm: EncryptionAlgorithm,
    key: Seq<u8>,
    nonce: Seq<u8>,
    data: Seq<u8>,
) -> Option<Seq<u8>> {
    match algorithm {
        EncryptionAlgorithm::NoEncryption => Some(data),
        EncryptionAlgorithm::Aes256Gcm => aes256gcm_opened(key, nonce, data),
    }
}

/// The length of the encrypted form of `n` bytes: AES-256-GCM appends a
/// 16-byte tag.
pub open spec fn stored_len(algorithm: EncryptionAlgorithm, n: nat) -> nat {
    match algorithm {
        EncryptionAlgorithm::NoEncryption => n,
        EncryptionAlgorithm::Aes256Gcm => n + 16,
    }
}

/// Without encryption data is stored and read as it is; with AES-256-GCM
/// it is sealed and opened under the key and nonce.
pub proof fn lemma_cipher_choice(key: Seq<u8>, nonce: Seq<u8>, data: Seq<u8>)
    ensures
        encrypted_form(EncryptionAlgorithm::NoEncryption, key, nonce, data) == data,
        decrypted_form(EncryptionAlgorithm::NoEncryption, key, nonce, data) == Some(data),
        encrypted_form(EncryptionAlgorithm::Aes256Gcm, key, nonce, data) == aes256gcm_sealed(key, nonce, data),
        decrypted_form(EncryptionAlgorithm::Aes256Gcm, key, nonce, data) == aes256gcm_opened(key, nonce, data),
{
}

/// Encryption lengthens data by AES-GCM's 16-byte tag, and storing without
/// encryption keeps the length.
pub proof fn lemma_stored_len(n: nat)
    ensures
        stored_len(EncryptionAlgorithm::NoEncryption, n) == n,
        stored_len(EncryptionAlgorithm::Aes256Gcm, n) == n + 16,
{
}

/// Encrypts `data` (or copies it without encryption). AES-256-GCM fails with
/// `EncryptionError` exactly on plaintexts over `P_MAX` bytes; on success,
/// decrypting the result with the same key and nonce gives `data` back.
pub fn encrypt(
    algorithm: EncryptionAlgorithm,
    key: &[u8; 32],
    nonce: &[u8; 12],
    data: &[u8],
) -> (res: RzxResult<Vec<u8>>)
    ensures
        res is Err <==> algorithm == EncryptionAlgorithm::Aes256Gcm && data@.len()
            > aes_gcm_max_plaintext(),
        res matches Err(e) ==> e == RzxError::EncryptionError,
        res matches Ok(v) ==> v@ == encrypted_form(algorithm, key@, nonce@, data@)
            && decrypted_form(algorithm, key@, nonce@, v@) == Some(data@),
        res matches Ok(v) ==> v@.len() == stored_len(algorithm, data@.len()),
{
    match algorithm {
        EncryptionAlgorithm::NoEncryption => Ok(slice_to_vec(data)),
        EncryptionAlgorithm::Aes256Gcm => match aes256gcm_encrypt(key, nonce, data) {
            Some(v) => Ok(v),
            None => Err(RzxError::EncryptionError),
        },
    }
}

/// Decrypts `data` (or copies it without encryption): fails with
/// `DecryptionError` exactly when AES-256-GCM rejects it.
pub fn decrypt(
    algorithm: EncryptionAlgorithm,
    key: &[u8; 32],
    nonce: &[u8; 12],
    data: &[u8],
) -> (res: RzxResult<Vec<u8>>)
    ensures
        res is Ok <==> decrypted_form(algorithm, key@, nonce@, data@) is Some,
        res matches Ok(v) ==> decrypted_form(algorithm, key@, nonce@, data@) == Some(v@),
        res matches Err(e) ==> e == RzxError::DecryptionError,
{
    match algorithm {
        EncryptionAlgorithm::NoEncryption => Ok(slice_to_vec(data)),
        EncryptionAlgorithm::Aes256Gcm => match aes256gcm_decrypt(key, nonce, data) {
            Some(v) => Ok(v),
            None => Err(RzxError::DecryptionError),
        },
    }
}

} // verus!
