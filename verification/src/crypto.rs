//! Keys, tokens and the authenticated cipher.
//!
//! SHA-256, Argon2id and AES-256-GCM are computed by the crates `sha2`,
//! `argon2` and `aes-gcm`. Their results are named here by spec functions
//! without a body; what this module proves is how keys, tokens, ciphertexts
//! and tags are put together from them.

use crate::error::PipelineError;
use aes_gcm::aead::rand_core::RngCore;
use aes_gcm::aead::{Aead, KeyInit, OsRng};
use aes_gcm::{Aes256Gcm, Key, Nonce};
use argon2::password_hash::SaltString;
use argon2::{Argon2, PasswordHasher};
use sha2::{Digest, Sha256};
use vstd::prelude::*;
use vstd::slice::slice_to_vec;
use vstd::utf8::{encode_scalar, encode_utf8};

verus! {

/// The most plaintext bytes that AES-GCM takes under one nonce: 2^36.
pub const MAX_PLAINTEXT: u64 = 0x10_0000_0000;

/// The SHA-256 digest of `data`: 32 bytes.
pub uninterp spec fn sha256(data: Seq<u8>) -> Seq<u8>;

/// The most password bytes that Argon2 takes: 2^32 - 1.
pub const MAX_PASSWORD: u64 = 0xffff_ffff;

/// The Argon2id hash of `password` under `salt`, with the default parameters
/// of the `argon2` crate, or `None` where Argon2 refuses its input.
pub uninterp spec fn argon2id(password: Seq<char>, salt: Seq<u8>) -> Option<Seq<u8>>;

/// The AES-256-GCM ciphertext of `plaintext` under `key` and `nonce`, without
/// associated data, followed by its 16-byte authentication tag.
pub uninterp spec fn aes256_gcm_seal(key: Seq<u8>, nonce: Seq<u8>, plaintext: Seq<u8>) -> Seq<u8>;

/// The plaintext that AES-256-GCM recovers from a ciphertext followed by its
/// tag, or `None` where the tag does not verify.
pub uninterp spec fn aes256_gcm_open(key: Seq<u8>, nonce: Seq<u8>, sealed: Seq<u8>) -> Option<
    Seq<u8>,
>;

/// The error of `aes-gcm`: it says only that the cipher failed.
#[verifier::external_type_specification]
#[verifier::external_body]
pub struct ExCipherError(aes_gcm::Error);

/// The error of `argon2`'s password hashing. It is carried, never read.
#[verifier::external_type_specification]
#[verifier::external_body]
pub struct ExPasswordHashError(argon2::password_hash::Error);

/// `n` zero bytes.
pub open spec fn zeros(n: nat) -> Seq<u8> {
    Seq::new(n, |i: int| 0u8)
}

/// The 32-byte key made of a hash: its first 32 bytes, or all of it followed
/// by zero bytes where it is shorter.
pub open spec fn key_from_hash(hash: Seq<u8>) -> Seq<u8> {
    Seq::new(
        32,
        |i: int|
            if i < hash.len() {
                hash[i]
            } else {
                0u8
            },
    )
}

/// The key that a password gives under a salt, or `None` where the password
/// cannot be hashed.
pub open spec fn password_key(password: Seq<char>, salt: Seq<u8>) -> Option<Seq<u8>> {
    match argon2id(password, salt) {
        Some(hash) => Some(key_from_hash(hash)),
        None => None,
    }
}

/// Whether a password is short enough for Argon2: its UTF-8 form has at most
/// 2^32 - 1 bytes.
pub open spec fn hashable(password: Seq<char>) -> bool {
    encode_utf8(password).len() <= MAX_PASSWORD
}

/// The key that the bytes of a key file give.
pub open spec fn file_key(data: Seq<u8>) -> Seq<u8> {
    sha256(data)
}

/// The self-check token of a key.
pub open spec fn token(key: Seq<u8>) -> Seq<u8> {
    sha256(key)
}

/// `sha2::Sha256`, by `new`, `update` and `finalize`: the digest of `data`.
#[verifier::external_body]
fn sha256_digest(data: &[u8]) -> (digest: [u8; 32])
    ensures
        digest@ == sha256(data@),
{
    let mut hasher = Sha256::new();
    hasher.update(data);
    hasher.finalize().into()
}

/// `argon2::Argon2::default().hash_password` on the salt in the B64 form that
/// `SaltString::encode_b64` gives it: the bytes of the hash, or an error
/// where Argon2 refuses its input. With the default parameters and a salt of
/// 16 bytes it refuses only a password of more than 2^32 - 1 bytes.
#[verifier::external_body]
fn argon2id_hash(password: &str, salt: &[u8; 16]) -> (r: Result<
    Vec<u8>,
    argon2::password_hash::Error,
>)
    ensures
        match r {
            Ok(hash) => argon2id(password@, salt@) == Some(hash@),
            Err(_) => argon2id(password@, salt@) is None,
        },
        hashable(password@) ==> r is Ok,
{
    let salt_str = SaltString::encode_b64(salt)?;
    let hash = Argon2::default().hash_password(password.as_bytes(), &salt_str)?;
    let output = hash.hash.ok_or(argon2::password_hash::Error::Crypto)?;
    Ok(output.as_bytes().to_vec())
}

/// `aes_gcm::Aes256Gcm::encrypt`: it fails exactly on a plaintext of more
/// than 2^36 bytes; otherwise it gives the ciphertext, as long as the
/// plaintext, followed by the 16-byte tag, and decrypting that under the same
/// key and nonce gives the plaintext back.
#[verifier::external_body]
fn aes256_gcm_encrypt(key: &[u8; 32], nonce: &[u8; 12], plaintext: &[u8]) -> (r: Result<
    Vec<u8>,
    aes_gcm::Error,
>)
    ensures
        r is Ok <==> plaintext@.len() <= MAX_PLAINTEXT,
        r matches Ok(sealed) ==> {
            &&& sealed@ == aes256_gcm_seal(key@, nonce@, plaintext@)
            &&& sealed@.len() == plaintext@.len() + 16
            &&& aes256_gcm_open(key@, nonce@, sealed@) == Some(plaintext@)
        },
{
    let cipher = Aes256Gcm::new(Key::<Aes256Gcm>::from_slice(key));
    cipher.encrypt(Nonce::from_slice(nonce), plaintext)
}

/// `aes_gcm::Aes256Gcm::decrypt` on a ciphertext followed by its tag: the
/// plaintext, 16 bytes shorter, or an error where the tag does not verify.
#[verifier::external_body]
fn aes256_gcm_decrypt(key: &[u8; 32], nonce: &[u8; 12], sealed: &[u8]) -> (r: Result<
    Vec<u8>,
    aes_gcm::Error,
>)
    ensures
        match r {
            Ok(plaintext) => aes256_gcm_open(key@, nonce@, sealed@) == Some(plaintext@)
                && plaintext@.len() + 16 == sealed@.len(),
            Err(_) => aes256_gcm_open(key@, nonce@, sealed@) is None,
        },
{
    let cipher = Aes256Gcm::new(Key::<Aes256Gcm>::from_slice(key));
    cipher.decrypt(Nonce::from_slice(nonce), sealed)
}

/// `fill_bytes` of `rand::rng()`: `n` bytes of the thread's random generator.
#[verifier::external_body]
pub(crate) fn random_bytes(n: usize) -> (bytes: Vec<u8>)
    ensures
        bytes@.len() == n,
{
    let mut bytes = vec![0u8; n];
    rand::RngCore::fill_bytes(&mut rand::rng(), &mut bytes);
    bytes
}

/// A fresh random nonce for AES-GCM: `fill_bytes` of the operating system's
/// random generator, `OsRng`. Nothing is known of the bytes.
#[verifier::external_body]
pub fn generate_nonce() -> (nonce: [u8; 12]) {
    let mut nonce = [0u8; 12];
    OsRng.fill_bytes(&mut nonce);
    nonce
}

/// The 32-byte key made of a password hash: its first 32 bytes, or all of it
/// followed by zero bytes where it is shorter.
pub fn fit_key(hash: &[u8]) -> (key: [u8; 32])
    ensures
        key@ == key_from_hash(hash@),
{
    let mut key = [0u8; 32];
    let len = if hash.len() < 32 {
        hash.len()
    } else {
        32
    };
    let mut i: usize = 0;
    while i < len
        invariant
            len <= 32,
            len <= hash@.len(),
            len == 32 || len == hash@.len(),
            i <= len,
            key@.len() == 32,
            forall|j: int| 0 <= j < i ==> key@[j] == hash@[j],
            forall|j: int| i <= j < 32 ==> key@[j] == 0u8,
        decreases len - i,
    {
        key[i] = hash[i];
        i += 1;
    }
    assert(key@ =~= key_from_hash(hash@));
    key
}

/// Sixteen random bytes for a salt.
pub fn generate_salt() -> (salt: [u8; 16]) {
    let noise = random_bytes(16);
    let mut salt = [0u8; 16];
    let mut i: usize = 0;
    while i < 16
        invariant
            noise@.len() == 16,
            i <= 16,
        decreases 16 - i,
    {
        salt[i] = noise[i];
        i += 1;
    }
    salt
}

/// The key for a password under a salt. It fails exactly where Argon2
/// refuses the password, which it never does for a password of at most
/// 2^32 - 1 bytes.
pub fn password_to_key(password: &str, salt: &[u8; 16]) -> (r: Result<[u8; 32], PipelineError>)
    ensures
        match r {
            Ok(key) => password_key(password@, salt@) == Some(key@),
            Err(e) => e == PipelineError::KeyDerivationFailed && password_key(password@, salt@)
                is None,
        },
        hashable(password@) ==> r is Ok,
{
    match argon2id_hash(password, salt) {
        Ok(hash) => Ok(fit_key(hash.as_slice())),
        Err(_) => Err(PipelineError::KeyDerivationFailed),
    }
}

/// The key and salt for a password. Without a salt, 16 random bytes are
/// drawn; with one, that salt is used, so that the key of a container can be
/// derived again from the salt in its header. The salt that comes back is
/// the one the key was derived under. Deriving succeeds for every password of
/// at most 2^32 - 1 bytes, and under a given salt exactly where Argon2 takes
/// the password.
pub fn derive_key_from_password(password: &str, salt_opt: Option<[u8; 16]>) -> (r: Result<
    ([u8; 32], [u8; 16]),
    PipelineError,
>)
    ensures
        match r {
            Ok((key, salt)) => password_key(password@, salt@) == Some(key@) && (salt_opt matches Some(
                s,
            ) ==> salt == s),
            Err(e) => e == PipelineError::KeyDerivationFailed,
        },
        salt_opt matches Some(s) ==> (r is Ok <==> password_key(password@, s@) is Some),
        hashable(password@) ==> r is Ok,
{
    let salt = match salt_opt {
        Some(s) => s,
        None => generate_salt(),
    };
    match password_to_key(password, &salt) {
        Ok(key) => Ok((key, salt)),
        Err(e) => Err(e),
    }
}

/// The key for the contents of a key file, `data`: their SHA-256 digest. No
/// salt is needed, so the salt is all zero.
pub fn derive_key_from_file(data: &[u8]) -> (r: ([u8; 32], [u8; 16]))
    ensures
        r.0@ == file_key(data@),
        r.1@ == zeros(16),
{
    let key = sha256_digest(data);
    let salt = [0u8; 16];
    assert(salt@ =~= zeros(16));
    (key, salt)
}

/// The self-check token of `key`: its SHA-256 digest.
pub fn generate_token(key: &[u8; 32]) -> (t: [u8; 32])
    ensures
        t@ == token(key@),
{
    sha256_digest(key.as_slice())
}

/// Parts a ciphertext from the 16-byte tag that follows it.
pub fn split_tag(sealed: Vec<u8>) -> (r: (Vec<u8>, [u8; 16]))
    requires
        sealed@.len() >= 16,
    ensures
        r.0@ == sealed@.subrange(0, sealed@.len() - 16),
        r.1@ == sealed@.subrange(sealed@.len() - 16, sealed@.len() as int),
        r.0@ + r.1@ == sealed@,
{
    let mut ciphertext = sealed;
    let total = ciphertext.len();
    let n = total - 16;
    let mut tag = [0u8; 16];
    let mut i: usize = 0;
    while i < 16
        invariant
            n + 16 == total,
            total == ciphertext@.len(),
            ciphertext@ == sealed@,
            i <= 16,
            tag@.len() == 16,
            forall|j: int| 0 <= j < i ==> tag@[j] == sealed@[n + j],
        decreases 16 - i,
    {
        tag[i] = ciphertext[n + i];
        i += 1;
    }
    ciphertext.truncate(n);
    assert(tag@ =~= sealed@.subrange(sealed@.len() - 16, sealed@.len() as int));
    assert(ciphertext@ + tag@ =~= sealed@);
    (ciphertext, tag)
}

/// Encrypts `plaintext` with AES-256-GCM and gives the ciphertext and the
/// tag apart. The nonce must be fresh for the key: that is the caller's duty
/// and is not checked.
pub fn encrypt(key: &[u8; 32], nonce_bytes: &[u8; 12], plaintext: &[u8]) -> (r: Result<
    (Vec<u8>, [u8; 16]),
    PipelineError,
>)
    ensures
        r is Ok <==> plaintext@.len() <= MAX_PLAINTEXT,
        r is Err ==> r->Err_0 == PipelineError::EncryptionFailed,
        r matches Ok((ciphertext, tag)) ==> {
            &&& ciphertext@ + tag@ == aes256_gcm_seal(key@, nonce_bytes@, plaintext@)
            &&& ciphertext@.len() == plaintext@.len()
            &&& aes256_gcm_open(key@, nonce_bytes@, ciphertext@ + tag@) == Some(plaintext@)
        },
{
    match aes256_gcm_encrypt(key, nonce_bytes, plaintext) {
        Ok(sealed) => Ok(split_tag(sealed)),
        Err(_) => Err(PipelineError::EncryptionFailed),
    }
}

/// Decrypts `ciphertext` with AES-256-GCM against `auth_tag`. Whatever makes
/// the tag fail, a wrong key or a changed byte, the error is the same.
pub fn decrypt(key: &[u8; 32], nonce_bytes: &[u8; 12], ciphertext: &[u8], auth_tag: &[u8; 16]) -> (r:
    Result<Vec<u8>, PipelineError>)
    ensures
        match aes256_gcm_open(key@, nonce_bytes@, ciphertext@ + auth_tag@) {
            Some(plaintext) => r is Ok && r->Ok_0@ == plaintext && plaintext.len()
                == ciphertext@.len(),
            None => r == Err::<Vec<u8>, PipelineError>(PipelineError::AuthenticationFailed),
        },
{
    let mut sealed = slice_to_vec(ciphertext);
    sealed.extend_from_slice(auth_tag.as_slice());
    assert(sealed@ =~= ciphertext@ + auth_tag@);
    match aes256_gcm_decrypt(key, nonce_bytes, sealed.as_slice()) {
        Ok(plaintext) => Ok(plaintext),
        Err(_) => Err(PipelineError::AuthenticationFailed),
    }
}

/// The UTF-8 form of a text has at most four bytes for each character, so a
/// password of at most 2^30 - 1 characters can be hashed.
pub proof fn lemma_utf8_length(text: Seq<char>)
    ensures
        encode_utf8(text).len() <= 4 * text.len(),
        text.len() <= 0x3fff_ffff ==> hashable(text),
    decreases text.len(),
{
    if text.len() > 0 {
        lemma_utf8_length(text.drop_first());
        assert(encode_scalar(text[0] as u32).len() <= 4);
    }
}

/// Deriving a key from the same password under the same salt twice gives the
/// same key, and fails both times or neither.
pub proof fn lemma_password_key_deterministic(
    password: Seq<char>,
    salt: Seq<u8>,
    again: Seq<char>,
    same_salt: Seq<u8>,
)
    requires
        password == again,
        salt == same_salt,
    ensures
        password_key(password, salt) == password_key(again, same_salt),
{
}

/// Deriving a key from the same file bytes twice gives the same key.
pub proof fn lemma_file_key_deterministic(first: Seq<u8>, second: Seq<u8>)
    requires
        first == second,
    ensures
        file_key(first) == file_key(second),
{
}

} // verus!
