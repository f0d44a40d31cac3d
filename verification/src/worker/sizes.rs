//! The sizes of a file before and after sealing, as transfers count them.

use crate::crypto;
use crate::crypto::CryptoError;
use crate::crypto::{HEADER_LEN, TAG};
use vstd::prelude::*;

verus! {

/// On-wire length of a file of `plain` bytes: a header and one tag per chunk on
/// top of it.
pub fn wire_len(plain: u64) -> (r: u64)
    requires
        crypto::sealed_len(plain as nat) <= u64::MAX,
    ensures
        r == crypto::sealed_len(plain as nat),
{
    let chunks: u64 = (plain + 0xf_ffff) / 0x10_0000;
    let n_chunks: u64 = if chunks == 0 {
        1
    } else {
        chunks
    };
    assert(n_chunks == crypto::chunks_of(plain as nat));
    HEADER_LEN as u64 + plain + n_chunks * 16
}

/// What is left of a file's length when header and tags are taken off; nothing
/// where it is too short to hold both.
pub open spec fn unsealed_len(cipher_len: nat) -> nat {
    let body = cipher_len - HEADER_LEN;
    if body < TAG {
        0
    } else {
        let tags = (body + 0x10_000f) / 0x10_0010 * 16;
        if body < tags {
            0
        } else {
            (body - tags) as nat
        }
    }
}

/// The plaintext length of a file from its length on the backend. Zero where the
/// file is too small to be a sealed one.
pub fn plaintext_of_ciphertext(cipher_len: u64) -> (r: u64)
    ensures
        r == unsealed_len(cipher_len as nat),
{
    if cipher_len < HEADER_LEN as u64 {
        return 0;
    }
    let body: u64 = cipher_len - HEADER_LEN as u64;
    if body < TAG as u64 {
        return 0;
    }
    let full_chunks: u64 = body / 0x10_0010;
    let remainder: u64 = body % 0x10_0010;
    let chunks: u64 = if remainder > 0 {
        full_chunks + 1
    } else {
        full_chunks
    };
    assert(chunks == (body + 0x10_000f) / 0x10_0010);
    let tags: u64 = chunks * 16;
    if body < tags {
        0
    } else {
        body - tags
    }
}

/// Taking header and tags off a sealed file's length gives the length of its
/// plaintext.
pub proof fn law_unsealed_len_inverts(plain: nat)
    ensures
        unsealed_len(crypto::sealed_len(plain)) == plain,
{
    let n = crypto::chunks_of(plain);
    let body = plain + n * 16;
    if plain > 0 {
        assert((n - 1) * 0x10_0000 < plain <= n * 0x10_0000);
    }
    assert((n - 1) * 0x10_0010 < body <= n * 0x10_0010);
    assert((body + 0x10_000f) / 0x10_0010 == n);
}

/// Whatever a file opens to, its length follows from the file's length alone.
pub proof fn law_unsealed_len_of_file(key: Seq<u8>, blob: Seq<u8>, data: Seq<u8>)
    requires
        crypto::decrypted(key, blob) == Ok::<Seq<u8>, CryptoError>(data),
    ensures
        unsealed_len(blob.len()) == data.len(),
{
    crypto::law_opened_len(key, blob, data);
}

} // verus!
