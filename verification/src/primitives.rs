//! The cryptographic primitives, each taken from its crate.
//!
//! What a primitive computes is given a name here; of the names the library
//! knows only the short facts stated beside them, such as that opening what was
//! sealed gives the plaintext back.

use aes_siv::siv::Aes256Siv;
use chacha20poly1305::aead::Aead;
use chacha20poly1305::ChaCha20Poly1305;
use hkdf::Hkdf;
use rand::Rng;
use sha2::Digest;
use sha2::Sha256;
use vstd::prelude::*;
use zeroize::Zeroize;

verus! {

/// The 32-byte Argon2id hash of a password under a salt, default parameters.
pub uninterp spec fn argon2id(password: Seq<u8>, salt: Seq<u8>) -> Seq<u8>;

/// The first `len` bytes that HKDF-SHA256 without salt expands from key
/// material and a context.
pub uninterp spec fn hkdf_sha256(material: Seq<u8>, context: Seq<u8>, len: nat) -> Seq<u8>;

/// The ChaCha20-Poly1305 ciphertext of `plain`, its tag at the end.
pub uninterp spec fn chacha_sealed(key: Seq<u8>, nonce: Seq<u8>, plain: Seq<u8>) -> Seq<u8>;

/// What ChaCha20-Poly1305 opens `sealed` to, or nothing where the tag is wrong.
pub uninterp spec fn chacha_opened(key: Seq<u8>, nonce: Seq<u8>, sealed: Seq<u8>) -> Option<
    Seq<u8>,
>;

/// The AES-256-SIV ciphertext of `plain` under one header.
pub uninterp spec fn siv_sealed(key: Seq<u8>, header: Seq<u8>, plain: Seq<u8>) -> Seq<u8>;

/// What AES-256-SIV opens `sealed` to under one header, or nothing where it is
/// not authentic.
pub uninterp spec fn siv_opened(key: Seq<u8>, header: Seq<u8>, sealed: Seq<u8>) -> Option<Seq<u8>>;

/// The SHA-256 digest of `data`.
pub uninterp spec fn sha256(data: Seq<u8>) -> Seq<u8>;

/// Whether Argon2id takes a password and a salt of these lengths.
pub open spec fn argon2id_takes(password: Seq<u8>, salt: Seq<u8>) -> bool {
    password.len() <= 0xffff_ffff && 8 <= salt.len() <= 0xffff_ffff
}

/// `Argon2::default().hash_password_into` with 32 bytes of output: it fails
/// exactly where the password or the salt has a length it does not take, and is
/// a function of the two otherwise.
#[verifier::external_body]
pub(crate) fn hash_password(password: &[u8], salt: &[u8]) -> (r: Option<[u8; 32]>)
    ensures
        r is Some <==> argon2id_takes(password@, salt@),
        r matches Some(key) ==> key@ == argon2id(password@, salt@),
{
    let mut key = [0u8; 32];
    match argon2::Argon2::default().hash_password_into(password, salt, &mut key) {
        Ok(()) => Some(key),
        Err(_) => None,
    }
}

/// `Hkdf::<Sha256>::new(None, ..).expand`: it fails exactly where more than 255
/// digests are asked for, and is a function of material, context and length
/// otherwise.
#[verifier::external_body]
pub(crate) fn expand_key(material: &[u8], context: &[u8], len: usize) -> (r: Option<Vec<u8>>)
    ensures
        r is Some <==> len <= 255 * 32,
        r matches Some(key) ==> key@ == hkdf_sha256(material@, context@, len as nat) && key@.len()
            == len,
{
    let mut key = vec![0u8; len];
    match Hkdf::<Sha256>::new(None, material).expand(context, &mut key) {
        Ok(()) => Some(key),
        Err(_) => None,
    }
}

/// Whether a message of this length runs out of ChaCha20 key stream while the
/// cipher still takes it, which the crate answers with a panic.
pub open spec fn exhausts_stream(len: int) -> bool {
    0x3f_ffff_ff80 < len < 0x3f_ffff_ffc0
}

/// `ChaCha20Poly1305::encrypt`: it fails exactly on messages longer than the
/// key stream. The ciphertext is sixteen bytes longer than the plaintext and
/// opens to it under the same key and nonce.
#[verifier::external_body]
pub(crate) fn chacha_seal(key: &[u8; 32], nonce: &[u8; 12], plain: &[u8]) -> (r: Option<Vec<u8>>)
    requires
        plain@.len() + 16 <= isize::MAX,
        !exhausts_stream(plain@.len() as int),
    ensures
        r is Some <==> plain@.len() <= 0x3f_ffff_ff80,
        r matches Some(sealed) ==> {
            &&& sealed@ == chacha_sealed(key@, nonce@, plain@)
            &&& sealed@.len() == plain@.len() + 16
            &&& chacha_opened(key@, nonce@, sealed@) == Some(plain@)
        },
{
    let cipher = <ChaCha20Poly1305 as chacha20poly1305::KeyInit>::new(key.into());
    cipher.encrypt(nonce.into(), plain).ok()
}

/// `ChaCha20Poly1305::decrypt`: a function of key, nonce and ciphertext. What
/// it opens is sixteen bytes shorter than the ciphertext and seals to it again.
#[verifier::external_body]
pub(crate) fn chacha_open(key: &[u8; 32], nonce: &[u8; 12], sealed: &[u8]) -> (r: Option<Vec<u8>>)
    requires
        !exhausts_stream(sealed@.len() - 16),
    ensures
        r is Some <==> chacha_opened(key@, nonce@, sealed@) is Some,
        r matches Some(plain) ==> {
            &&& chacha_opened(key@, nonce@, sealed@) == Some(plain@)
            &&& sealed@.len() == plain@.len() + 16
            &&& chacha_sealed(key@, nonce@, plain@) == sealed@
        },
{
    let cipher = <ChaCha20Poly1305 as chacha20poly1305::KeyInit>::new(key.into());
    cipher.decrypt(nonce.into(), sealed).ok()
}

/// `Aes256Siv::encrypt` with one header: it succeeds on every plaintext, and is
/// a function of key, header and plaintext. The ciphertext is sixteen bytes
/// longer than the plaintext and opens to it under the same key and header.
#[verifier::external_body]
pub(crate) fn siv_seal(key: &[u8; 64], header: &[u8], plain: &[u8]) -> (r: Option<Vec<u8>>)
    requires
        plain@.len() + 16 <= isize::MAX,
    ensures
        r is Some,
        r matches Some(sealed) ==> {
            &&& sealed@ == siv_sealed(key@, header@, plain@)
            &&& sealed@.len() == plain@.len() + 16
            &&& siv_opened(key@, header@, sealed@) == Some(plain@)
        },
{
    let mut siv = <Aes256Siv as aes_siv::KeyInit>::new(key.into());
    siv.encrypt([header], plain).ok()
}

/// `Aes256Siv::decrypt` with one header: a function of key, header and
/// ciphertext. What it opens is sixteen bytes shorter than the ciphertext and
/// seals to it again.
#[verifier::external_body]
pub(crate) fn siv_open(key: &[u8; 64], header: &[u8], sealed: &[u8]) -> (r: Option<Vec<u8>>)
    ensures
        r is Some <==> siv_opened(key@, header@, sealed@) is Some,
        r matches Some(plain) ==> {
            &&& siv_opened(key@, header@, sealed@) == Some(plain@)
            &&& sealed@.len() == plain@.len() + 16
            &&& siv_sealed(key@, header@, plain@) == sealed@
        },
{
    let mut siv = <Aes256Siv as aes_siv::KeyInit>::new(key.into());
    siv.decrypt([header], sealed).ok()
}

/// `Sha256::digest`: a function of the data, 32 bytes long.
#[verifier::external_body]
pub(crate) fn sha256_of(data: &[u8]) -> (r: [u8; 32])
    ensures
        r@ == sha256(data@),
{
    Sha256::digest(data).into()
}

/// `rand::rng().fill_bytes`: as many bytes as were asked for. Nothing is said of
/// their values, which chance decides; the call does not return where the
/// operating system has no randomness to seed from.
#[verifier::external_body]
pub(crate) fn random_bytes(len: usize) -> (r: Vec<u8>)
    ensures
        r@.len() == len,
{
    let mut bytes = vec![0u8; len];
    rand::rng().fill_bytes(&mut bytes);
    bytes
}

/// `Zeroize::zeroize` on a byte slice overwrites every byte with zero.
#[verifier::external_body]
pub(crate) fn wipe(bytes: &mut [u8])
    ensures
        final(bytes)@.len() == old(bytes)@.len(),
        forall|i: int| 0 <= i < final(bytes)@.len() ==> final(bytes)@[i] == 0,
{
    bytes.zeroize();
}

} // verus!
