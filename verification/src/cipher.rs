//! The authenticated-encryption envelope.
//!
//! `encrypt_data` seals a plaintext under a master password into
//! `salt (16) || nonce (12) || ciphertext+tag`, drawing a fresh salt and nonce
//! from the operating system's random source on every call.  `decrypt_data`
//! splits such an envelope, re-derives the key and authenticated-decrypts.
//! Tag verification is the only password check in the system: a wrong
//! password and a tampered envelope are indistinguishable and both yield
//! `VaultError::AuthenticationFailure`.

use vstd::prelude::*;
use vstd::utf8::encode_utf8;

use aes_gcm::aead::{Aead, KeyInit};
use aes_gcm::{Aes256Gcm, Key, Nonce};
use argon2::Argon2;
use rand::RngCore;

use crate::entry::VaultError;

verus! {

/// Byte length of the random salt that heads every envelope.
pub const SALT_LEN: usize = 16;

/// Byte length of the AES-GCM nonce that follows the salt.
pub const NONCE_LEN: usize = 12;

/// Byte length of the authentication tag appended to the ciphertext.
pub const TAG_LEN: usize = 16;

/// Byte length of an envelope that carries an empty plaintext: salt, nonce
/// and tag together.
pub const ENVELOPE_OVERHEAD: usize = 16 + 12 + 16;

/// Largest password or plaintext byte length the cipher layer accepts: the
/// bound under which neither the key-derivation function nor the cipher can
/// reject its input.
pub const INPUT_MAX: u64 = 0xFFFF_FFFF;

/// The 32-byte key that Argon2id (with this crate's fixed parameters)
/// derives from a master password and a salt.  Deterministic: the same
/// password and salt always yield the same key.
pub uninterp spec fn derived_key(password: Seq<u8>, salt: Seq<u8>) -> Seq<u8>;

/// The ciphertext-with-tag that AES-256-GCM produces from a key, a nonce and
/// a plaintext.  Deterministic in all three arguments.
pub uninterp spec fn gcm_cipher(key: Seq<u8>, nonce: Seq<u8>, plaintext: Seq<u8>) -> Seq<u8>;

/// `env` is a well-formed envelope that seals `plaintext` under `password`:
/// its tail is the AES-256-GCM ciphertext of `plaintext` under the key that
/// `password` derives with the salt carried in the envelope's own head.
pub open spec fn sealed_envelope(password: Seq<u8>, plaintext: Seq<u8>, env: Seq<u8>) -> bool {
    &&& env.len() == plaintext.len() + ENVELOPE_OVERHEAD
    &&& env.subrange(28, env.len() as int) == gcm_cipher(
        derived_key(password, env.subrange(0, 16)),
        env.subrange(16, 28),
        plaintext,
    )
}

/// Relies on `argon2::Argon2::hash_password_into` with the crate's default
/// parameters (Argon2id, version 19, 19 MiB memory, 2 passes, 1 lane):
/// deterministic in the password and salt, and fills the whole 32-byte
/// output buffer.  With a 16-byte salt and a password of at most 2^32 - 1
/// bytes it accepts every input.
#[verifier::external_body]
fn derive_key(master_password: &str, salt: &[u8]) -> (r: Vec<u8>)
    requires
        salt@.len() == SALT_LEN,
        encode_utf8(master_password@).len() <= INPUT_MAX,
    ensures
        r@ == derived_key(encode_utf8(master_password@), salt@),
        r@.len() == 32,
{
    let argon2 = Argon2::default();
    let mut key = vec![0u8; 32];
    argon2
        .hash_password_into(master_password.as_bytes(), salt, &mut key)
        .expect("argon2 rejects no input under the fixed parameters");
    key
}

/// Relies on `rand::rngs::OsRng::fill_bytes`: fills the buffer from the
/// operating system's cryptographically secure random source.  Nothing is
/// assumed of the values drawn.
#[verifier::external_body]
fn random_bytes(n: usize) -> (r: Vec<u8>)
    ensures
        r@.len() == n,
{
    let mut buf = vec![0u8; n];
    rand::rngs::OsRng.fill_bytes(&mut buf);
    buf
}

/// Relies on `aes_gcm::Aes256Gcm::encrypt` (AES-256-GCM, 96-bit nonce):
/// deterministic in key, nonce and plaintext; returns the ciphertext with a
/// 16-byte authentication tag appended; accepts every plaintext up to well
/// over `INPUT_MAX` bytes.
#[verifier::external_body]
fn gcm_seal(key: &[u8], nonce: &[u8], plaintext: &[u8]) -> (r: Vec<u8>)
    requires
        key@.len() == 32,
        nonce@.len() == NONCE_LEN,
        plaintext@.len() <= INPUT_MAX,
    ensures
        r@ == gcm_cipher(key@, nonce@, plaintext@),
        r@.len() == plaintext@.len() + TAG_LEN,
{
    let cipher = Aes256Gcm::new(Key::<Aes256Gcm>::from_slice(key));
    cipher
        .encrypt(Nonce::from_slice(nonce), plaintext)
        .expect("plaintext length is under the AES-GCM limit")
}

/// Relies on `aes_gcm::Aes256Gcm::decrypt`: succeeds exactly on the outputs
/// of `Aes256Gcm::encrypt` under the same key and nonce — the appended tag
/// is recomputed and compared — and then returns the plaintext that was
/// sealed; every other input fails tag verification.
#[verifier::external_body]
fn gcm_open(key: &[u8], nonce: &[u8], ciphertext: &[u8]) -> (r: Option<Vec<u8>>)
    requires
        key@.len() == 32,
        nonce@.len() == NONCE_LEN,
    ensures
        forall|m: Seq<u8>| ciphertext@ == gcm_cipher(key@, nonce@, m) ==> r is Some && (r->0)@ == m,
        r is Some ==> ciphertext@ == gcm_cipher(key@, nonce@, (r->0)@),
        r is Some ==> ciphertext@.len() == (r->0)@.len() + TAG_LEN,
{
    let cipher = Aes256Gcm::new(Key::<Aes256Gcm>::from_slice(key));
    cipher.decrypt(Nonce::from_slice(nonce), ciphertext).ok()
}

/// Seals `plaintext` under `master_password` into a fresh envelope.
///
/// The salt and nonce are drawn anew from the secure random source on every
/// call — never reused, never derived from content — so two envelopes for
/// the same inputs differ with overwhelming probability; nothing of the sort
/// can be stated here, since nothing is assumed of the values drawn.
pub fn encrypt_data(master_password: &str, plaintext: &[u8]) -> (r: Vec<u8>)
    requires
        encode_utf8(master_password@).len() <= INPUT_MAX,
        plaintext@.len() <= INPUT_MAX,
    ensures
        sealed_envelope(encode_utf8(master_password@), plaintext@, r@),
{
    let salt = random_bytes(SALT_LEN);
    let mut nonce = random_bytes(NONCE_LEN);
    let key = derive_key(master_password, salt.as_slice());
    let mut ciphertext = gcm_seal(key.as_slice(), nonce.as_slice(), plaintext);
    let ghost salt_part = salt@;
    let ghost nonce_part = nonce@;
    let ghost cipher_part = ciphertext@;
    let mut envelope = salt;
    envelope.append(&mut nonce);
    envelope.append(&mut ciphertext);
    proof {
        assert(envelope@.subrange(0, 16) =~= salt_part);
        assert(envelope@.subrange(16, 28) =~= nonce_part);
        assert(envelope@.subrange(28, envelope@.len() as int) =~= cipher_part);
    }
    envelope
}

/// Opens an envelope under `master_password`.
///
/// Returns the sealed plaintext when the envelope is exactly what
/// `encrypt_data` produced under the same password; any wrong password, any
/// tampering with salt, nonce, ciphertext or tag, and any truncation yield
/// `AuthenticationFailure`, never a partial or wrong plaintext.
pub fn decrypt_data(master_password: &str, envelope: &[u8]) -> (r: Result<Vec<u8>, VaultError>)
    requires
        encode_utf8(master_password@).len() <= INPUT_MAX,
    ensures
        forall|m: Seq<u8>| sealed_envelope(encode_utf8(master_password@), m, envelope@)
            ==> r is Ok && (r->Ok_0)@ == m,
        r is Ok ==> sealed_envelope(encode_utf8(master_password@), (r->Ok_0)@, envelope@),
        r is Err ==> r == Err::<Vec<u8>, VaultError>(VaultError::AuthenticationFailure),
{
    if envelope.len() < ENVELOPE_OVERHEAD {
        return Err(VaultError::AuthenticationFailure);
    }
    let salt = vstd::slice::slice_subrange(envelope, 0, SALT_LEN);
    let nonce = vstd::slice::slice_subrange(envelope, SALT_LEN, SALT_LEN + NONCE_LEN);
    let ciphertext = vstd::slice::slice_subrange(envelope, SALT_LEN + NONCE_LEN, envelope.len());
    let key = derive_key(master_password, salt);
    match gcm_open(key.as_slice(), nonce, ciphertext) {
        Some(plaintext) => Ok(plaintext),
        None => Err(VaultError::AuthenticationFailure),
    }
}

} // verus!
