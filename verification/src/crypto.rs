//! Key derivation and the cipher: a password is stretched into a 32-byte key
//! (PBKDF2, HMAC-SHA-256 core, the fixed salt, a fixed round count), and
//! messages are encrypted with AES-256 in CBC mode under PKCS#7 padding, the
//! same fixed salt serving as initialization vector. The cipher primitives
//! are outside calls; what this crate proves about them rests on the
//! contracts of the trusted wrappers below.

use vstd::prelude::*;
use block_modes::BlockMode;
use crate::params::KEY_ROUNDS;
use crate::params::salt_bytes;
use crate::params::salt_spec;

verus! {

/// The 32 bytes PBKDF2 with an HMAC-SHA-256 core derives from a password,
/// salt and round count; a function of those arguments alone.
pub uninterp spec fn pbkdf2_sha256_key(password: Seq<u8>, salt: Seq<u8>, rounds: u32) -> Seq<u8>;

/// The ciphertext AES-256 in CBC mode with PKCS#7 padding produces from a
/// key, initialization vector and plaintext; a function of those alone.
pub uninterp spec fn aes256_cbc_ciphertext(key: Seq<u8>, iv: Seq<u8>, plaintext: Seq<u8>) -> Seq<
    u8,
>;

/// What AES-256-CBC decryption with PKCS#7 padding makes of a byte sequence
/// under a key and initialization vector: the plaintext, or `None` when the
/// length is no multiple of the block size or the uncovered padding is
/// malformed.
pub uninterp spec fn aes256_cbc_decrypted(key: Seq<u8>, iv: Seq<u8>, ciphertext: Seq<u8>) -> Option<
    Seq<u8>,
>;

/// Relies on pbkdf2::pbkdf2 with hmac::Hmac<sha2::Sha256>: it fills the
/// 32-byte buffer with the derived key, a deterministic function of password,
/// salt and round count, and accepts any password and salt length.
#[verifier::external_body]
fn pbkdf2_sha256(password: &[u8], salt: &[u8], rounds: u32) -> (r: Vec<u8>)
    requires
        rounds >= 1,
    ensures
        r@ == pbkdf2_sha256_key(password@, salt@, rounds),
        r@.len() == 32,
{
    let mut key = [0u8; 32];
    pbkdf2::pbkdf2::<hmac::Hmac<sha2::Sha256>>(password, salt, rounds, &mut key);
    key.to_vec()
}

/// Relies on block_modes::BlockMode::encrypt_vec for Cbc<Aes256, Pkcs7>: with
/// a 32-byte key and a 16-byte initialization vector it pads the plaintext to
/// the next multiple of 16 bytes and encrypts it, deterministically, and its
/// decrypt_vec inverts it under the same key and initialization vector.
#[verifier::external_body]
fn aes256_cbc_encrypt(key: &[u8], iv: &[u8], plaintext: &[u8]) -> (r: Vec<u8>)
    requires
        key@.len() == 32,
        iv@.len() == 16,
    ensures
        r@ == aes256_cbc_ciphertext(key@, iv@, plaintext@),
        r@.len() == (plaintext@.len() / 16 + 1) * 16,
        aes256_cbc_decrypted(key@, iv@, r@) == Some(plaintext@),
{
    let cipher: block_modes::Cbc<aes_soft::Aes256, block_modes::block_padding::Pkcs7> =
        block_modes::Cbc::new_var(key, iv).unwrap();
    cipher.encrypt_vec(plaintext)
}

/// Relies on block_modes::BlockMode::decrypt_vec for Cbc<Aes256, Pkcs7>: a
/// deterministic function of key, initialization vector and input, `Err`
/// exactly when the input's length is no multiple of 16 or the padding that
/// decryption uncovers is malformed.
#[verifier::external_body]
fn aes256_cbc_decrypt(key: &[u8], iv: &[u8], ciphertext: &[u8]) -> (r: Option<Vec<u8>>)
    requires
        key@.len() == 32,
        iv@.len() == 16,
    ensures
        match r {
            Some(p) => aes256_cbc_decrypted(key@, iv@, ciphertext@) == Some(p@),
            None => aes256_cbc_decrypted(key@, iv@, ciphertext@) is None,
        },
{
    let cipher: block_modes::Cbc<aes_soft::Aes256, block_modes::block_padding::Pkcs7> =
        block_modes::Cbc::new_var(key, iv).unwrap();
    match cipher.decrypt_vec(ciphertext) {
        Ok(p) => Some(p),
        Err(_) => None,
    }
}

/// The key this crate derives from a password: PBKDF2 with an HMAC-SHA-256
/// core, the fixed salt, the fixed round count, 32 bytes out.
pub open spec fn key_of(password: Seq<u8>) -> Seq<u8> {
    pbkdf2_sha256_key(password, salt_spec(), KEY_ROUNDS)
}

/// The ciphertext this crate makes of a message under a key, the fixed salt
/// serving as initialization vector.
pub open spec fn ciphertext_of(key: Seq<u8>, plaintext: Seq<u8>) -> Seq<u8> {
    aes256_cbc_ciphertext(key, salt_spec(), plaintext)
}

/// What decryption makes of a byte sequence under a key, the fixed salt
/// serving as initialization vector.
pub open spec fn decrypted_of(key: Seq<u8>, ciphertext: Seq<u8>) -> Option<Seq<u8>> {
    aes256_cbc_decrypted(key, salt_spec(), ciphertext)
}

/// A byte sequence that will not decrypt: its length is no multiple of the
/// block size, or its padding fails to check out after decryption — the
/// strong signal of a wrong password.
#[derive(Clone, Copy, Debug, PartialEq, Eq, Structural)]
pub struct DecryptError;

/// Derives the 32-byte key from the password. Deterministic: the salt and
/// round count are fixed, so equal passwords always yield equal keys.
pub fn derive_key(password: &[u8]) -> (r: Vec<u8>)
    ensures
        r@ == key_of(password@),
        r@.len() == 32,
{
    let salt = salt_bytes();
    pbkdf2_sha256(password, salt.as_slice(), KEY_ROUNDS)
}

/// Encrypts the plaintext under the key. The ciphertext is the plaintext's
/// length rounded up to the next multiple of 16, and decrypts back to the
/// plaintext under the same key.
pub fn encrypt(key: &[u8], plaintext: &[u8]) -> (r: Vec<u8>)
    requires
        key@.len() == 32,
    ensures
        r@ == ciphertext_of(key@, plaintext@),
        r@.len() == (plaintext@.len() / 16 + 1) * 16,
        decrypted_of(key@, r@) == Some(plaintext@),
{
    let iv = salt_bytes();
    aes256_cbc_encrypt(key, iv.as_slice(), plaintext)
}

/// Decrypts under the key; fails exactly when the input's length is no
/// multiple of 16 or the uncovered padding is malformed.
pub fn decrypt(key: &[u8], ciphertext: &[u8]) -> (r: Result<Vec<u8>, DecryptError>)
    requires
        key@.len() == 32,
    ensures
        match r {
            Ok(p) => decrypted_of(key@, ciphertext@) == Some(p@),
            Err(_) => decrypted_of(key@, ciphertext@) is None,
        },
{
    let iv = salt_bytes();
    match aes256_cbc_decrypt(key, iv.as_slice(), ciphertext) {
        Some(p) => Ok(p),
        None => Err(DecryptError),
    }
}

/// Determinism law: the same password always derives the same key, and the
/// same key and message always encrypt to the same ciphertext — salt,
/// initialization vector and round count are fixed, so nothing varies
/// between runs.
pub proof fn lemma_determinism(p1: Seq<u8>, p2: Seq<u8>, m1: Seq<u8>, m2: Seq<u8>)
    requires
        p1 == p2,
        m1 == m2,
    ensures
        key_of(p1) == key_of(p2),
        ciphertext_of(key_of(p1), m1) == ciphertext_of(key_of(p2), m2),
{
}

} // verus!
