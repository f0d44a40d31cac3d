//! End-to-end encryption.
//!
//! * Password -> Argon2id (random 16-byte salt, stored in the bucket) -> 32-byte
//!   master key.
//! * HKDF-SHA256 splits the master key into a content key (ChaCha20-Poly1305)
//!   and a name key (AES-256-SIV, deterministic, so that look-ups and listings
//!   work).
//! * File format: a header of `"RSE1"` and an 8-byte file nonce, then the
//!   plaintext in chunks of 1 MiB, each sealed under the file nonce and the
//!   chunk's number. The final chunk sets the number's high bit, so that a file
//!   that was cut off at a chunk boundary does not open.
//! * Names: each path segment is sealed with AES-SIV and written in base32hex.

use crate::codec;
use crate::primitives;
use crate::text;
use vstd::prelude::*;
use vstd::slice::*;
use vstd::string::*;
use vstd::utf8::*;

verus! {

/// Bytes before the first chunk: the magic number and the file nonce.
pub const HEADER_LEN: usize = 12;

/// Plaintext bytes in every chunk but the last.
pub const CHUNK: usize = 0x10_0000;

/// Bytes that sealing adds to a chunk.
pub const TAG: usize = 16;

/// Ciphertext bytes of every chunk but the last.
pub const CIPHER_CHUNK: usize = CHUNK + TAG;

/// The bit that marks the number of the final chunk.
pub const LAST_FLAG: u32 = 0x8000_0000;

/// The first four bytes of every encrypted file.
pub const MAGIC: &'static str = "RSE1";

/// The key of the object that holds the vault file.
pub const VAULT_KEY: &'static str = ".rse-vault";

/// The plaintext whose ciphertext the vault file keeps, to tell a right
/// password from a wrong one.
pub const CANARY: &'static str = "rse canary v1";

/// The header under which names are sealed.
pub const NAME_HEADER: &'static str = "rse-name-v1";

/// What the content key is expanded for.
pub const CONTENT_CONTEXT: &'static str = "rse/content/v1";

/// What the name key is expanded for.
pub const NAMES_CONTEXT: &'static str = "rse/names/v1";

/// Why an operation of this module failed.
#[derive(Clone, Copy, Debug, PartialEq, Eq, Structural)]
pub enum CryptoError {
    PasswordTooLong,
    SaltTooShort,
    SaltTooLong,
    FileTooLarge,
    EncryptionFailed,
    BadHeader,
    DecryptionFailed,
    TooShort,
    BadFraming,
    NotAnEncryptedName,
    NameDecryptionFailed,
    NameNotUtf8,
    SaltCorrupted,
    CanaryCorrupted,
    WrongPassword,
}

impl CryptoError {
    /// What the user is told.
    pub open spec fn text(self) -> Seq<char> {
        match self {
            CryptoError::PasswordTooLong => "key derivation failed: password is too long"@,
            CryptoError::SaltTooShort => "key derivation failed: salt is too short"@,
            CryptoError::SaltTooLong => "key derivation failed: salt is too long"@,
            CryptoError::FileTooLarge => "file too large (chunk counter overflow)"@,
            CryptoError::EncryptionFailed => "encryption failed"@,
            CryptoError::BadHeader =>
                "not a Rabbit Storage Explorer encrypted file (bad header)"@,
            CryptoError::DecryptionFailed =>
                "decryption failed - wrong password or corrupted data"@,
            CryptoError::TooShort => "encrypted file too short"@,
            CryptoError::BadFraming => "encrypted file has invalid chunk framing"@,
            CryptoError::NotAnEncryptedName => "not an encrypted name"@,
            CryptoError::NameDecryptionFailed => "name decryption failed"@,
            CryptoError::NameNotUtf8 => "decrypted name is not UTF-8"@,
            CryptoError::SaltCorrupted => "vault salt corrupted"@,
            CryptoError::CanaryCorrupted => "vault canary corrupted"@,
            CryptoError::WrongPassword => "wrong encryption password for this bucket"@,
        }
    }

    /// What the user is told.
    pub fn message(&self) -> (r: String)
        ensures
            r@ == self.text(),
    {
        let text = match self {
            CryptoError::PasswordTooLong => "key derivation failed: password is too long",
            CryptoError::SaltTooShort => "key derivation failed: salt is too short",
            CryptoError::SaltTooLong => "key derivation failed: salt is too long",
            CryptoError::FileTooLarge => "file too large (chunk counter overflow)",
            CryptoError::EncryptionFailed => "encryption failed",
            CryptoError::BadHeader => "not a Rabbit Storage Explorer encrypted file (bad header)",
            CryptoError::DecryptionFailed => "decryption failed - wrong password or corrupted data",
            CryptoError::TooShort => "encrypted file too short",
            CryptoError::BadFraming => "encrypted file has invalid chunk framing",
            CryptoError::NotAnEncryptedName => "not an encrypted name",
            CryptoError::NameDecryptionFailed => "name decryption failed",
            CryptoError::NameNotUtf8 => "decrypted name is not UTF-8",
            CryptoError::SaltCorrupted => "vault salt corrupted",
            CryptoError::CanaryCorrupted => "vault canary corrupted",
            CryptoError::WrongPassword => "wrong encryption password for this bucket",
        };
        text.to_owned()
    }
}

/// A key of this length that was overwritten.
pub open spec fn zeroes(len: nat) -> Seq<u8> {
    Seq::new(len, |i: int| 0u8)
}

/// Key material derived from the user's password.
pub struct VaultKeys {
    content: [u8; 32],
    name: [u8; 64],
}

impl VaultKeys {
    /// The key that file contents are sealed under.
    pub closed spec fn content_key(&self) -> Seq<u8> {
        self.content@
    }

    /// The key that names are sealed under.
    pub closed spec fn name_key(&self) -> Seq<u8> {
        self.name@
    }

    /// Overwrites the key material with zeroes.
    pub fn wipe(&mut self)
        ensures
            final(self).content_key() == zeroes(32),
            final(self).name_key() == zeroes(64),
    {
        primitives::wipe(&mut self.content);
        primitives::wipe(&mut self.name);
        assert(self.content@ =~= zeroes(32));
        assert(self.name@ =~= zeroes(64));
    }
}

/// Why no key can be derived from the password and the salt, if none can.
pub open spec fn derivation_error(password: Seq<char>, salt: Seq<u8>) -> Option<CryptoError> {
    if encode_utf8(password).len() > 0xffff_ffff {
        Some(CryptoError::PasswordTooLong)
    } else if salt.len() < 8 {
        Some(CryptoError::SaltTooShort)
    } else if salt.len() > 0xffff_ffff {
        Some(CryptoError::SaltTooLong)
    } else {
        None
    }
}

/// The content key that belongs to a password and a salt.
pub open spec fn derived_content_key(password: Seq<char>, salt: Seq<u8>) -> Seq<u8> {
    primitives::hkdf_sha256(primitives::argon2id(encode_utf8(password), salt), encode_utf8(CONTENT_CONTEXT@), 32)
}

/// The name key that belongs to a password and a salt.
pub open spec fn derived_name_key(password: Seq<char>, salt: Seq<u8>) -> Seq<u8> {
    primitives::hkdf_sha256(primitives::argon2id(encode_utf8(password), salt), encode_utf8(NAMES_CONTEXT@), 64)
}

fn to_array_32(v: &Vec<u8>) -> (r: [u8; 32])
    requires
        v@.len() == 32,
    ensures
        r@ == v@,
{
    let mut out = [0u8; 32];
    let mut i: usize = 0;
    while i < 32
        invariant
            v@.len() == 32,
            i <= 32,
            forall|j: int| 0 <= j < i ==> out@[j] == v@[j],
        decreases 32 - i,
    {
        out[i] = v[i];
        i += 1;
    }
    assert(out@ =~= v@);
    out
}

fn to_array_64(v: &Vec<u8>) -> (r: [u8; 64])
    requires
        v@.len() == 64,
    ensures
        r@ == v@,
{
    let mut out = [0u8; 64];
    let mut i: usize = 0;
    while i < 64
        invariant
            v@.len() == 64,
            i <= 64,
            forall|j: int| 0 <= j < i ==> out@[j] == v@[j],
        decreases 64 - i,
    {
        out[i] = v[i];
        i += 1;
    }
    assert(out@ =~= v@);
    out
}

/// Derives the two keys from a password and a salt.
pub fn derive_keys(password: &str, salt: &[u8]) -> (r: Result<VaultKeys, CryptoError>)
    ensures
        match derivation_error(password@, salt@) {
            Some(e) => r == Err::<VaultKeys, CryptoError>(e),
            None => {
                &&& r is Ok
                &&& r->Ok_0.content_key() == derived_content_key(password@, salt@)
                &&& r->Ok_0.name_key() == derived_name_key(password@, salt@)
            },
        },
{
    let bytes = password.as_bytes();
    match primitives::hash_password(bytes, salt) {
        None => {
            if bytes.len() > 0xffff_ffff {
                Err(CryptoError::PasswordTooLong)
            } else if salt.len() < 8 {
                Err(CryptoError::SaltTooShort)
            } else {
                Err(CryptoError::SaltTooLong)
            }
        },
        Some(mut master) => {
            let mut content = primitives::expand_key(
                &master,
                CONTENT_CONTEXT.as_bytes(),
                32,
            ).unwrap();
            let mut name = primitives::expand_key(&master, NAMES_CONTEXT.as_bytes(), 64).unwrap();
            let keys = VaultKeys { content: to_array_32(&content), name: to_array_64(&name) };
            primitives::wipe(content.as_mut_slice());
            primitives::wipe(name.as_mut_slice());
            primitives::wipe(&mut master);
            Ok(keys)
        },
    }
}

/// The number under which chunk `counter` is sealed.
pub open spec fn chunk_number(counter: u32, last: bool) -> u32 {
    if last {
        counter | LAST_FLAG
    } else {
        counter
    }
}

/// The four bytes of a number, the highest first.
pub open spec fn big_endian(c: u32) -> Seq<u8> {
    seq![
        (c / 0x100_0000) as u8,
        (c / 0x1_0000 % 0x100) as u8,
        (c / 0x100 % 0x100) as u8,
        (c % 0x100) as u8,
    ]
}

/// The nonce of chunk `counter` of a file: the file nonce, then the number.
pub open spec fn nonce_of(prefix: Seq<u8>, counter: u32, last: bool) -> Seq<u8> {
    prefix + big_endian(chunk_number(counter, last))
}

/// The header of a file with this file nonce.
pub open spec fn header_of(prefix: Seq<u8>) -> Seq<u8> {
    encode_utf8(MAGIC@) + prefix
}

proof fn lemma_magic()
    ensures
        encode_utf8(MAGIC@) == seq![0x52u8, 0x53, 0x45, 0x31],
{
    reveal_strlit("RSE1");
    let m = MAGIC@;
    assert(is_ascii_chars(m));
    is_ascii_chars_encode_utf8(m);
    assert(m[0] as u8 == 0x52 && m[1] as u8 == 0x53 && m[2] as u8 == 0x45 && m[3] as u8 == 0x31);
    assert(encode_utf8(m) =~= seq![0x52u8, 0x53, 0x45, 0x31]);
}

proof fn lemma_big_endian_injective(c: u32, d: u32)
    requires
        big_endian(c) == big_endian(d),
    ensures
        c == d,
{
    assert(big_endian(c)[0] == big_endian(d)[0]);
    assert(big_endian(c)[1] == big_endian(d)[1]);
    assert(big_endian(c)[2] == big_endian(d)[2]);
    assert(big_endian(c)[3] == big_endian(d)[3]);
}

/// Within one file no two chunks are sealed under the same nonce: different
/// chunk numbers, or the same number as the final chunk and as an inner one,
/// give different nonces.
pub proof fn law_nonces_differ(prefix: Seq<u8>, i: u32, i_last: bool, j: u32, j_last: bool)
    requires
        i < LAST_FLAG,
        j < LAST_FLAG,
        i != j || i_last != j_last,
    ensures
        nonce_of(prefix, i, i_last) != nonce_of(prefix, j, j_last),
{
    let c = chunk_number(i, i_last);
    let d = chunk_number(j, j_last);
    assert(i < 0x8000_0000 && j < 0x8000_0000 ==> (i | 0x8000_0000) == i + 0x8000_0000 && (j
        | 0x8000_0000) == j + 0x8000_0000) by (bit_vector);
    assert(c != d);
    if nonce_of(prefix, i, i_last) == nonce_of(prefix, j, j_last) {
        let n = prefix.len() as int;
        assert(big_endian(c) =~= nonce_of(prefix, i, i_last).subrange(n, n + 4));
        assert(big_endian(d) =~= nonce_of(prefix, j, j_last).subrange(n, n + 4));
        lemma_big_endian_injective(c, d);
    }
}

/// The nonce of a chunk.
pub fn chunk_nonce(prefix: &[u8; 8], counter: u32, last: bool) -> (r: [u8; 12])
    ensures
        r@ == nonce_of(prefix@, counter, last),
{
    let c: u32 = if last {
        counter | LAST_FLAG
    } else {
        counter
    };
    let nonce = [
        prefix[0],
        prefix[1],
        prefix[2],
        prefix[3],
        prefix[4],
        prefix[5],
        prefix[6],
        prefix[7],
        (c / 0x100_0000) as u8,
        (c / 0x1_0000 % 0x100) as u8,
        (c / 0x100 % 0x100) as u8,
        (c % 0x100) as u8,
    ];
    assert(nonce@ =~= nonce_of(prefix@, counter, last));
    nonce
}

/// What a sealed chunk opens to: sixteen bytes less than it has, or nothing.
pub open spec fn opens_to(key: Seq<u8>, nonce: Seq<u8>, sealed: Seq<u8>) -> Option<Seq<u8>> {
    match primitives::chacha_opened(key, nonce, sealed) {
        Some(plain) => if plain.len() + 16 == sealed.len() {
            Some(plain)
        } else {
            None
        },
        None => None,
    }
}

/// Seals the chunks of one file, in order.
pub struct Encryptor {
    key: [u8; 32],
    prefix: [u8; 8],
    counter: u32,
}

impl Encryptor {
    /// The key that chunks are sealed under.
    pub closed spec fn key(&self) -> Seq<u8> {
        self.key@
    }

    /// The file nonce.
    pub closed spec fn prefix(&self) -> Seq<u8> {
        self.prefix@
    }

    /// The number of the next chunk.
    pub closed spec fn counter(&self) -> u32 {
        self.counter
    }

    /// Starts a file with the given file nonce.
    pub fn with_prefix(keys: &VaultKeys, prefix: [u8; 8]) -> (r: Self)
        ensures
            r.key() == keys.content_key(),
            r.prefix() == prefix@,
            r.counter() == 0,
    {
        Encryptor { key: keys.content, prefix, counter: 0 }
    }

    /// Starts a file with a random file nonce.
    pub fn new(keys: &VaultKeys) -> (r: Self)
        ensures
            r.key() == keys.content_key(),
            r.prefix().len() == 8,
            r.counter() == 0,
    {
        let b = primitives::random_bytes(8);
        Self::with_prefix(keys, [b[0], b[1], b[2], b[3], b[4], b[5], b[6], b[7]])
    }

    /// The header that must precede all ciphertext chunks.
    pub fn header(&self) -> (r: [u8; HEADER_LEN])
        ensures
            r@ == header_of(self.prefix()),
    {
        let p = &self.prefix;
        let h = [0x52, 0x53, 0x45, 0x31, p[0], p[1], p[2], p[3], p[4], p[5], p[6], p[7]];
        proof {
            lemma_magic();
        }
        assert(h@ =~= header_of(self.prefix()));
        h
    }

    /// Seals one chunk. Chunks are sealed in order, the final one with `last`.
    pub fn seal_chunk(&mut self, plaintext: &[u8], last: bool) -> (r: Result<Vec<u8>, CryptoError>)
        requires
            plaintext@.len() + TAG <= isize::MAX,
            !primitives::exhausts_stream(plaintext@.len() as int),
        ensures
            final(self).key() == old(self).key(),
            final(self).prefix() == old(self).prefix(),
            old(self).counter() == u32::MAX ==> {
                &&& r == Err::<Vec<u8>, CryptoError>(CryptoError::FileTooLarge)
                &&& final(self).counter() == old(self).counter()
            },
            old(self).counter() < u32::MAX ==> {
                &&& final(self).counter() == old(self).counter() + 1
                &&& plaintext@.len() > 0x3f_ffff_ff80 ==> r == Err::<Vec<u8>, CryptoError>(
                    CryptoError::EncryptionFailed,
                )
                &&& plaintext@.len() <= 0x3f_ffff_ff80 ==> {
                    let nonce = nonce_of(old(self).prefix(), old(self).counter(), last);
                    &&& r is Ok
                    &&& r->Ok_0@ == primitives::chacha_sealed(old(self).key(), nonce, plaintext@)
                    &&& r->Ok_0@.len() == plaintext@.len() + TAG
                    &&& opens_to(old(self).key(), nonce, r->Ok_0@) == Some(
                        plaintext@,
                    )
                }
            },
    {
        let nonce = chunk_nonce(&self.prefix, self.counter, last);
        match self.counter.checked_add(1) {
            None => Err(CryptoError::FileTooLarge),
            Some(next) => {
                self.counter = next;
                match primitives::chacha_seal(&self.key, &nonce, plaintext) {
                    Some(sealed) => Ok(sealed),
                    None => Err(CryptoError::EncryptionFailed),
                }
            },
        }
    }

    /// Overwrites the key with zeroes.
    pub fn wipe(&mut self)
        ensures
            final(self).key() == zeroes(32),
            final(self).prefix() == old(self).prefix(),
            final(self).counter() == old(self).counter(),
    {
        primitives::wipe(&mut self.key);
        assert(self.key@ =~= zeroes(32));
    }
}

/// Opens the chunks of one file, in order.
pub struct Decryptor {
    key: [u8; 32],
    prefix: [u8; 8],
    counter: u32,
}

/// Whether `data` starts with a header.
pub open spec fn has_header(data: Seq<u8>) -> bool {
    data.len() >= HEADER_LEN && data.take(4) == encode_utf8(MAGIC@)
}

impl Decryptor {
    /// The key that chunks are opened under.
    pub closed spec fn key(&self) -> Seq<u8> {
        self.key@
    }

    /// The file nonce.
    pub closed spec fn prefix(&self) -> Seq<u8> {
        self.prefix@
    }

    /// The number of the next chunk.
    pub closed spec fn counter(&self) -> u32 {
        self.counter
    }

    /// Reads the file nonce from a header.
    pub fn new(keys: &VaultKeys, header: &[u8]) -> (r: Result<Self, CryptoError>)
        ensures
            !has_header(header@) ==> r == Err::<Self, CryptoError>(CryptoError::BadHeader),
            has_header(header@) ==> {
                &&& r is Ok
                &&& r->Ok_0.key() == keys.content_key()
                &&& r->Ok_0.prefix() == header@.subrange(4, HEADER_LEN as int)
                &&& r->Ok_0.counter() == 0
            },
    {
        proof {
            lemma_magic();
        }
        if header.len() < HEADER_LEN {
            return Err(CryptoError::BadHeader);
        }
        if header[0] != 0x52 || header[1] != 0x53 || header[2] != 0x45 || header[3] != 0x31 {
            assert(header@.take(4)[0] == header@[0] && header@.take(4)[1] == header@[1]
                && header@.take(4)[2] == header@[2] && header@.take(4)[3] == header@[3]);
            return Err(CryptoError::BadHeader);
        }
        assert(header@.take(4) =~= encode_utf8(MAGIC@));
        let prefix = [
            header[4],
            header[5],
            header[6],
            header[7],
            header[8],
            header[9],
            header[10],
            header[11],
        ];
        assert(prefix@ =~= header@.subrange(4, HEADER_LEN as int));
        Ok(Decryptor { key: keys.content, prefix, counter: 0 })
    }

    /// Goes on at the given chunk.
    pub fn seek_to(&mut self, chunk: u32)
        ensures
            final(self).key() == old(self).key(),
            final(self).prefix() == old(self).prefix(),
            final(self).counter() == chunk,
    {
        self.counter = chunk;
    }

    /// Opens the next chunk, the final one with `last`.
    pub fn open_chunk(&mut self, ciphertext: &[u8], last: bool) -> (r: Result<Vec<u8>, CryptoError>)
        requires
            old(self).counter() < u32::MAX,
            !primitives::exhausts_stream(ciphertext@.len() - TAG),
        ensures
            final(self).key() == old(self).key(),
            final(self).prefix() == old(self).prefix(),
            final(self).counter() == old(self).counter() + 1,
            match opens_to(
                old(self).key(),
                nonce_of(old(self).prefix(), old(self).counter(), last),
                ciphertext@,
            ) {
                Some(plain) => r is Ok && r->Ok_0@ == plain && plain.len() + TAG
                    == ciphertext@.len(),
                None => r == Err::<Vec<u8>, CryptoError>(CryptoError::DecryptionFailed),
            },
    {
        let nonce = chunk_nonce(&self.prefix, self.counter, last);
        self.counter = self.counter + 1;
        match primitives::chacha_open(&self.key, &nonce, ciphertext) {
            Some(plain) => Ok(plain),
            None => Err(CryptoError::DecryptionFailed),
        }
    }

    /// Overwrites the key with zeroes.
    pub fn wipe(&mut self)
        ensures
            final(self).key() == zeroes(32),
            final(self).prefix() == old(self).prefix(),
            final(self).counter() == old(self).counter(),
    {
        primitives::wipe(&mut self.key);
        assert(self.key@ =~= zeroes(32));
    }
}

/// How many chunks a plaintext of this length is cut into; an empty one has one
/// empty chunk.
pub open spec fn chunks_of(plain: nat) -> nat {
    if plain == 0 {
        1
    } else {
        ((plain + 0xf_ffff) / 0x10_0000) as nat
    }
}

/// The length of the file that a plaintext of this length is sealed to.
pub open spec fn sealed_len(plain: nat) -> nat {
    12 + plain + chunks_of(plain) * 16
}

/// The number of chunks in a file of this length and the length of the last.
pub open spec fn layout_of(cipher_len: nat) -> Result<(nat, nat), CryptoError> {
    if cipher_len < HEADER_LEN + TAG {
        Err(CryptoError::TooShort)
    } else {
        let body = cipher_len - HEADER_LEN;
        let n = (body + 0x10_000f) / 0x10_0010;
        let last = body - (n - 1) * 0x10_0010;
        if last < TAG {
            Err(CryptoError::BadFraming)
        } else {
            Ok((n as nat, last as nat))
        }
    }
}

/// Size of the ciphertext for a plaintext of `plain` bytes.
pub fn encrypted_size(plain: u64) -> (r: u64)
    requires
        sealed_len(plain as nat) <= u64::MAX,
    ensures
        r == sealed_len(plain as nat),
{
    let chunks: u64 = if plain == 0 {
        1
    } else {
        (plain - 1) / 0x10_0000 + 1
    };
    assert(chunks == chunks_of(plain as nat));
    HEADER_LEN as u64 + plain + chunks * 16
}

/// Given a total ciphertext length, the number of chunks and the length of the
/// last.
pub fn chunk_layout(cipher_len: u64) -> (r: Result<(u64, usize), CryptoError>)
    ensures
        match layout_of(cipher_len as nat) {
            Ok((n, last)) => r == Ok::<(u64, usize), CryptoError>((n as u64, last as usize)) && n
                <= u64::MAX && last <= CIPHER_CHUNK,
            Err(e) => r == Err::<(u64, usize), CryptoError>(e),
        },
{
    if cipher_len < HEADER_LEN as u64 {
        return Err(CryptoError::TooShort);
    }
    let body: u64 = cipher_len - HEADER_LEN as u64;
    if body < TAG as u64 {
        return Err(CryptoError::TooShort);
    }
    let n: u64 = (body - 1) / 0x10_0010 + 1;
    assert(n == (body + 0x10_000f) / 0x10_0010);
    let last: u64 = body - (n - 1) * 0x10_0010;
    if last < TAG as u64 {
        return Err(CryptoError::BadFraming);
    }
    Ok((n, last as usize))
}

/// The layout of a sealed file is that of its plaintext: as many chunks, and a
/// last chunk that holds what the others leave over.
pub proof fn law_layout_of_sealed(plain: nat)
    ensures
        layout_of(sealed_len(plain)) == Ok::<(nat, nat), CryptoError>(
            (chunks_of(plain), (plain - (chunks_of(plain) - 1) * 0x10_0000 + TAG) as nat),
        ),
{
    let n = chunks_of(plain);
    let body = plain + n * 16;
    if plain > 0 {
        assert((n - 1) * 0x10_0000 < plain <= n * 0x10_0000);
    }
    assert((n - 1) * 0x10_0010 < body <= n * 0x10_0010);
    assert((body + 0x10_000f) / 0x10_0010 == n);
}

/// The first `k` chunks of a list, one after the other.
pub open spec fn joined(chunks: Seq<Seq<u8>>, k: nat) -> Seq<u8>
    decreases k,
{
    if k == 0 {
        Seq::empty()
    } else {
        joined(chunks, (k - 1) as nat) + chunks[k - 1]
    }
}

/// Whether a list of chunks is cut as a file's are: all full but the last, which
/// may be shorter.
pub open spec fn well_cut(chunks: Seq<Seq<u8>>) -> bool {
    &&& chunks.len() > 0
    &&& forall|i: int| 0 <= i < chunks.len() - 1 ==> (#[trigger] chunks[i]).len() == CHUNK
    &&& chunks.last().len() <= CHUNK
}

/// Chunk `i` of a plaintext.
pub open spec fn plain_chunk(data: Seq<u8>, i: int) -> Seq<u8> {
    data.subrange(
        i * 0x10_0000,
        if (i + 1) * 0x10_0000 <= data.len() {
            (i + 1) * 0x10_0000
        } else {
            data.len() as int
        },
    )
}

/// The chunks of a plaintext.
pub open spec fn cut(data: Seq<u8>) -> Seq<Seq<u8>> {
    Seq::new(chunks_of(data.len()), |i: int| plain_chunk(data, i))
}

/// Chunk `i` of a list, sealed.
pub open spec fn sealed_chunk(
    key: Seq<u8>,
    prefix: Seq<u8>,
    chunks: Seq<Seq<u8>>,
    i: int,
) -> Seq<u8> {
    primitives::chacha_sealed(key, nonce_of(prefix, i as u32, i + 1 == chunks.len()), chunks[i])
}

/// The first `k` chunks of a list, sealed one after the other.
pub open spec fn sealed_chunks(
    key: Seq<u8>,
    prefix: Seq<u8>,
    chunks: Seq<Seq<u8>>,
    k: nat,
) -> Seq<u8>
    decreases k,
{
    if k == 0 {
        Seq::empty()
    } else {
        sealed_chunks(key, prefix, chunks, (k - 1) as nat) + sealed_chunk(
            key,
            prefix,
            chunks,
            k - 1,
        )
    }
}

/// The file that a list of chunks is sealed to under a key and a file nonce.
pub open spec fn sealed_file(key: Seq<u8>, prefix: Seq<u8>, chunks: Seq<Seq<u8>>) -> Seq<u8> {
    header_of(prefix) + sealed_chunks(key, prefix, chunks, chunks.len())
}

/// The file that a plaintext is sealed to under a key and a file nonce.
pub open spec fn encrypted(key: Seq<u8>, prefix: Seq<u8>, data: Seq<u8>) -> Seq<u8> {
    sealed_file(key, prefix, cut(data))
}

/// Chunk `i` of a file with `n` chunks.
pub open spec fn cipher_chunk(blob: Seq<u8>, n: nat, i: int) -> Seq<u8> {
    blob.subrange(
        HEADER_LEN + i * 0x10_0010,
        if i + 1 == n {
            blob.len() as int
        } else {
            HEADER_LEN + (i + 1) * 0x10_0010
        },
    )
}

/// The plaintext of the first `k` of the `n` chunks of a file, or nothing where
/// one of them does not open.
pub open spec fn opened_chunks(key: Seq<u8>, blob: Seq<u8>, n: nat, k: nat) -> Option<Seq<u8>>
    decreases k,
{
    if k == 0 {
        Some(Seq::empty())
    } else {
        match opened_chunks(key, blob, n, (k - 1) as nat) {
            None => None,
            Some(front) => match opens_to(
                key,
                nonce_of(blob.subrange(4, HEADER_LEN as int), (k - 1) as u32, k == n),
                cipher_chunk(blob, n, k - 1),
            ) {
                None => None,
                Some(plain) => Some(front + plain),
            },
        }
    }
}

/// What a file opens to.
pub open spec fn decrypted(key: Seq<u8>, blob: Seq<u8>) -> Result<Seq<u8>, CryptoError> {
    match layout_of(blob.len()) {
        Err(e) => Err(e),
        Ok((n, last)) => if !has_header(blob) {
            Err(CryptoError::BadHeader)
        } else {
            match opened_chunks(key, blob, n, n) {
                Some(plain) => Ok(plain),
                None => Err(CryptoError::DecryptionFailed),
            }
        },
    }
}

/// Whether chunk `i` was sealed to something that opens to it again.
pub open spec fn chunk_opens(
    key: Seq<u8>,
    prefix: Seq<u8>,
    chunks: Seq<Seq<u8>>,
    i: int,
) -> bool {
    &&& sealed_chunk(key, prefix, chunks, i).len() == chunks[i].len() + 16
    &&& opens_to(
        key,
        nonce_of(prefix, i as u32, i + 1 == chunks.len()),
        sealed_chunk(key, prefix, chunks, i),
    ) == Some(chunks[i])
}

/// All chunks before the last of a well cut list are full.
proof fn lemma_joined_len(chunks: Seq<Seq<u8>>, k: nat)
    requires
        well_cut(chunks),
        k <= chunks.len(),
    ensures
        k < chunks.len() ==> joined(chunks, k).len() == k * 0x10_0000,
        k == chunks.len() ==> joined(chunks, k).len() == (k - 1) * 0x10_0000 + chunks.last().len(),
    decreases k,
{
    if k > 0 {
        lemma_joined_len(chunks, (k - 1) as nat);
    }
}

/// The chunks of a plaintext are well cut, and joined they are the plaintext.
pub proof fn lemma_cut(data: Seq<u8>)
    ensures
        well_cut(cut(data)),
        joined(cut(data), chunks_of(data.len())) == data,
{
    let n = chunks_of(data.len());
    lemma_cut_joined(data, (n - 1) as nat);
    assert(joined(cut(data), n) =~= data);
}

proof fn lemma_cut_joined(data: Seq<u8>, k: nat)
    requires
        k < chunks_of(data.len()),
    ensures
        joined(cut(data), k) == data.take(k as int * 0x10_0000),
    decreases k,
{
    if k > 0 {
        lemma_cut_joined(data, (k - 1) as nat);
        assert(data.take((k - 1) * 0x10_0000) + plain_chunk(data, k - 1) =~= data.take(
            k as int * 0x10_0000,
        ));
    } else {
        assert(data.take(0) =~= Seq::empty());
    }
}

/// The first `k` sealed chunks together are as long as their plaintext and `k`
/// tags, and chunk `j` stands at its place among them.
proof fn lemma_sealed_chunks(key: Seq<u8>, prefix: Seq<u8>, chunks: Seq<Seq<u8>>, k: nat)
    requires
        well_cut(chunks),
        k <= chunks.len(),
        forall|j: int| 0 <= j < k ==> #[trigger] chunk_opens(key, prefix, chunks, j),
    ensures
        sealed_chunks(key, prefix, chunks, k).len() == k * 16 + joined(chunks, k).len(),
        forall|j: int|
            0 <= j < k ==> sealed_chunks(key, prefix, chunks, k).subrange(
                j * 0x10_0010,
                j * 0x10_0010 + chunks[j].len() + 16,
            ) == #[trigger] sealed_chunk(key, prefix, chunks, j),
    decreases k,
{
    if k > 0 {
        let front = sealed_chunks(key, prefix, chunks, (k - 1) as nat);
        let whole = sealed_chunks(key, prefix, chunks, k);
        lemma_sealed_chunks(key, prefix, chunks, (k - 1) as nat);
        lemma_joined_len(chunks, (k - 1) as nat);
        assert(chunk_opens(key, prefix, chunks, k - 1));
        assert(front.len() == (k - 1) * 0x10_0010);
        assert forall|j: int| 0 <= j < k implies whole.subrange(
            j * 0x10_0010,
            j * 0x10_0010 + chunks[j].len() + 16,
        ) == #[trigger] sealed_chunk(key, prefix, chunks, j) by {
            assert(chunk_opens(key, prefix, chunks, j));
            if j < k - 1 {
                assert(chunks[j].len() == CHUNK);
                assert(whole.subrange(j * 0x10_0010, j * 0x10_0010 + chunks[j].len() + 16)
                    =~= front.subrange(j * 0x10_0010, j * 0x10_0010 + chunks[j].len() + 16));
            } else {
                assert(whole.subrange(j * 0x10_0010, j * 0x10_0010 + chunks[j].len() + 16)
                    =~= sealed_chunk(key, prefix, chunks, j));
            }
        }
    }
}

/// The first `k` chunks of a sealed file open to the first `k` chunks.
proof fn lemma_opened_chunks(key: Seq<u8>, prefix: Seq<u8>, chunks: Seq<Seq<u8>>, k: nat)
    requires
        prefix.len() == 8,
        well_cut(chunks),
        k <= chunks.len(),
        forall|j: int| 0 <= j < chunks.len() ==> #[trigger] chunk_opens(key, prefix, chunks, j),
    ensures
        opened_chunks(key, sealed_file(key, prefix, chunks), chunks.len(), k) == Some(
            joined(chunks, k),
        ),
    decreases k,
{
    let n = chunks.len();
    let blob = sealed_file(key, prefix, chunks);
    if k > 0 {
        lemma_magic();
        lemma_sealed_chunks(key, prefix, chunks, n);
        lemma_joined_len(chunks, n);
        lemma_opened_chunks(key, prefix, chunks, (k - 1) as nat);
        let j = k - 1;
        let body = sealed_chunks(key, prefix, chunks, n);
        assert(chunk_opens(key, prefix, chunks, j));
        assert(blob.subrange(4, HEADER_LEN as int) =~= prefix);
        assert(body.subrange(j * 0x10_0010, j * 0x10_0010 + chunks[j].len() + 16) == sealed_chunk(
            key,
            prefix,
            chunks,
            j,
        ));
        assert(cipher_chunk(blob, n, j) =~= body.subrange(
            j * 0x10_0010,
            j * 0x10_0010 + chunks[j].len() + 16,
        ));
    }
}

/// A file all of whose chunks open again opens to the chunks, joined.
pub proof fn lemma_file_opens(key: Seq<u8>, prefix: Seq<u8>, chunks: Seq<Seq<u8>>)
    requires
        prefix.len() == 8,
        well_cut(chunks),
        forall|j: int| 0 <= j < chunks.len() ==> #[trigger] chunk_opens(key, prefix, chunks, j),
    ensures
        sealed_file(key, prefix, chunks).len() == HEADER_LEN + chunks.len() * 16 + joined(
            chunks,
            chunks.len(),
        ).len(),
        has_header(sealed_file(key, prefix, chunks)),
        decrypted(key, sealed_file(key, prefix, chunks)) == Ok::<Seq<u8>, CryptoError>(
            joined(chunks, chunks.len()),
        ),
{
    let n = chunks.len();
    let blob = sealed_file(key, prefix, chunks);
    lemma_magic();
    lemma_joined_len(chunks, n);
    lemma_sealed_chunks(key, prefix, chunks, n);
    lemma_opened_chunks(key, prefix, chunks, n);
    assert(blob.take(4) =~= encode_utf8(MAGIC@));
    let body = blob.len() - HEADER_LEN;
    assert(body == (n - 1) * 0x10_0010 + chunks.last().len() + 16);
    assert((body + 0x10_000f) / 0x10_0010 == n);
}

/// Opening chunk by chunk gives the plaintext piece by piece: the first `k`
/// chunks of a file that opens hold the first `k` chunks' worth of what it opens
/// to, so a reader that has those bytes goes on at chunk `k`.
pub proof fn law_chunks_open_in_place(key: Seq<u8>, blob: Seq<u8>, data: Seq<u8>, n: nat, k: nat)
    requires
        decrypted(key, blob) == Ok::<Seq<u8>, CryptoError>(data),
        layout_of(blob.len()) matches Ok(layout) && layout.0 == n,
        k < n,
    ensures
        opened_chunks(key, blob, n, k) == Some(data.take(k as int * 0x10_0000)),
        k * 0x10_0000 <= data.len(),
{
    lemma_open_prefix(key, blob, n, k, n);
    lemma_opened_len(key, blob, n, k);
    let front = opened_chunks(key, blob, n, k)->0;
    assert(front =~= data.take(k as int * 0x10_0000));
}

/// If `m` chunks open, the first `k` of them open to a prefix.
proof fn lemma_open_prefix(key: Seq<u8>, blob: Seq<u8>, n: nat, k: nat, m: nat)
    requires
        k <= m,
        opened_chunks(key, blob, n, m) is Some,
    ensures
        opened_chunks(key, blob, n, k) is Some,
        opened_chunks(key, blob, n, k)->0.is_prefix_of(opened_chunks(key, blob, n, m)->0),
    decreases m,
{
    if k < m {
        lemma_open_prefix(key, blob, n, k, (m - 1) as nat);
    }
}

/// How much the first `k` chunks of a file open to.
proof fn lemma_opened_len(key: Seq<u8>, blob: Seq<u8>, n: nat, k: nat)
    requires
        opened_chunks(key, blob, n, k) is Some,
        layout_of(blob.len()) matches Ok(layout) && layout.0 == n,
        k <= n,
    ensures
        k < n ==> opened_chunks(key, blob, n, k)->0.len() == k * 0x10_0000,
        k == n ==> opened_chunks(key, blob, n, k)->0.len() == blob.len() - HEADER_LEN - n * 16,
    decreases k,
{
    if k > 0 {
        lemma_opened_len(key, blob, n, (k - 1) as nat);
        let c = cipher_chunk(blob, n, k - 1);
        if k < n {
            assert(c.len() == 0x10_0010);
        } else {
            assert(c.len() == blob.len() - HEADER_LEN - (n - 1) * 0x10_0010);
        }
    }
}

/// What a file opens to is shorter than the file by the header and one tag for
/// each chunk.
pub proof fn law_opened_len(key: Seq<u8>, blob: Seq<u8>, data: Seq<u8>)
    requires
        decrypted(key, blob) == Ok::<Seq<u8>, CryptoError>(data),
    ensures
        layout_of(blob.len()) matches Ok(layout) && data.len() == blob.len() - HEADER_LEN - layout.0
            * 16,
{
    let n = layout_of(blob.len())->Ok_0.0;
    lemma_opened_len(key, blob, n, n);
}

/// Seals a whole buffer under the given file nonce.
pub fn encrypt_bytes_with(keys: &VaultKeys, prefix: [u8; 8], data: &[u8]) -> (r: Result<
    Vec<u8>,
    CryptoError,
>)
    ensures
        chunks_of(data@.len()) > u32::MAX ==> r == Err::<Vec<u8>, CryptoError>(
            CryptoError::FileTooLarge,
        ),
        chunks_of(data@.len()) <= u32::MAX ==> {
            &&& r is Ok
            &&& r->Ok_0@ == encrypted(keys.content_key(), prefix@, data@)
            &&& r->Ok_0@.len() == sealed_len(data@.len())
            &&& decrypted(keys.content_key(), r->Ok_0@) == Ok::<Seq<u8>, CryptoError>(data@)
        },
{
    let ghost key = keys.content_key();
    let mut enc = Encryptor::with_prefix(keys, prefix);
    let mut out: Vec<u8> = Vec::new();
    let header = enc.header();
    out.extend_from_slice(&header);
    assert(out@ =~= header_of(prefix@));
    let len = data.len();
    let n: usize = if len == 0 {
        1
    } else {
        (len - 1) / 0x10_0000 + 1
    };
    assert(n == chunks_of(data@.len()));
    let ghost chunks = cut(data@);
    let mut i: usize = 0;
    assert(out@ =~= header_of(prefix@) + sealed_chunks(key, prefix@, chunks, 0));
    while i < n
        invariant
            n == chunks_of(data@.len()),
            chunks == cut(data@),
            len == data.len(),
            i <= n,
            i <= u32::MAX,
            enc.key() == key,
            enc.prefix() == prefix@,
            enc.counter() == i,
            out@ == header_of(prefix@) + sealed_chunks(key, prefix@, chunks, i as nat),
            forall|j: int| 0 <= j < i ==> #[trigger] chunk_opens(key, prefix@, chunks, j),
        decreases n - i,
    {
        assert(i * 0x10_0000 <= len);
        let start: usize = i * 0x10_0000;
        let end: usize = if len - start > CHUNK {
            start + CHUNK
        } else {
            len
        };
        let last = i + 1 == n;
        let chunk = slice_subrange(data, start, end);
        assert(chunk@ == chunks[i as int]);
        match enc.seal_chunk(chunk, last) {
            Err(e) => {
                enc.wipe();
                return Err(e);
            },
            Ok(sealed) => {
                let ghost before = out@;
                out.extend_from_slice(sealed.as_slice());
                assert(out@ =~= before + sealed@);
                assert(sealed@ == sealed_chunk(key, prefix@, chunks, i as int));
                assert(chunk_opens(key, prefix@, chunks, i as int));
                assert(out@ =~= header_of(prefix@) + sealed_chunks(
                    key,
                    prefix@,
                    chunks,
                    (i + 1) as nat,
                ));
            },
        }
        i += 1;
    }
    enc.wipe();
    proof {
        lemma_cut(data@);
        lemma_file_opens(key, prefix@, chunks);
    }
    Ok(out)
}

/// Seals a whole buffer under a random file nonce. What is sealed opens to the
/// buffer again.
pub fn encrypt_bytes(keys: &VaultKeys, data: &[u8]) -> (r: Result<Vec<u8>, CryptoError>)
    ensures
        chunks_of(data@.len()) > u32::MAX ==> r == Err::<Vec<u8>, CryptoError>(
            CryptoError::FileTooLarge,
        ),
        chunks_of(data@.len()) <= u32::MAX ==> {
            &&& r is Ok
            &&& exists|prefix: Seq<u8>|
                prefix.len() == 8 && r->Ok_0@ == #[trigger] encrypted(
                    keys.content_key(),
                    prefix,
                    data@,
                )
            &&& r->Ok_0@.len() == sealed_len(data@.len())
            &&& decrypted(keys.content_key(), r->Ok_0@) == Ok::<Seq<u8>, CryptoError>(data@)
        },
{
    let b = primitives::random_bytes(8);
    let prefix = [b[0], b[1], b[2], b[3], b[4], b[5], b[6], b[7]];
    assert(prefix@.len() == 8);
    encrypt_bytes_with(keys, prefix, data)
}

/// Opens a whole file.
pub fn decrypt_bytes(keys: &VaultKeys, blob: &[u8]) -> (r: Result<Vec<u8>, CryptoError>)
    requires
        blob@.len() <= HEADER_LEN + u32::MAX * 0x10_0010,
    ensures
        match decrypted(keys.content_key(), blob@) {
            Ok(plain) => r is Ok && r->Ok_0@ == plain,
            Err(e) => r == Err::<Vec<u8>, CryptoError>(e),
        },
{
    let ghost key = keys.content_key();
    let (n, last_len) = match chunk_layout(blob.len() as u64) {
        Ok(layout) => layout,
        Err(e) => return Err(e),
    };
    let mut dec = match Decryptor::new(keys, blob) {
        Ok(dec) => dec,
        Err(e) => return Err(e),
    };
    let mut out: Vec<u8> = Vec::new();
    let mut off: usize = HEADER_LEN;
    let mut i: u64 = 0;
    assert(n <= u32::MAX);
    assert(blob@.len() == HEADER_LEN + (n - 1) * 0x10_0010 + last_len);
    while i < n
        invariant
            blob@.len() == blob.len(),
            blob@.len() == HEADER_LEN + (n - 1) * 0x10_0010 + last_len,
            layout_of(blob@.len()) == Ok::<(nat, nat), CryptoError>((n as nat, last_len as nat)),
            has_header(blob@),
            key == keys.content_key(),
            i <= n <= u32::MAX,
            i < n ==> off == HEADER_LEN + i * 0x10_0010,
            dec.key() == key,
            dec.prefix() == blob@.subrange(4, HEADER_LEN as int),
            dec.counter() == i,
            opened_chunks(key, blob@, n as nat, i as nat) == Some(out@),
        decreases n - i,
    {
        let last = i == n - 1;
        let len: usize = if last {
            last_len
        } else {
            CIPHER_CHUNK
        };
        assert(off + len <= blob.len());
        let chunk = slice_subrange(blob, off, off + len);
        assert(chunk@ =~= cipher_chunk(blob@, n as nat, i as int));
        match dec.open_chunk(chunk, last) {
            Err(e) => {
                proof {
                    lemma_closed_chunk(key, blob@, n as nat, (i + 1) as nat, n as nat);
                }
                dec.wipe();
                return Err(e);
            },
            Ok(plain) => {
                let ghost before = out@;
                out.extend_from_slice(plain.as_slice());
                assert(out@ =~= before + plain@);
            },
        }
        off = off + len;
        i += 1;
    }
    dec.wipe();
    Ok(out)
}

/// Where the first `j` chunks do not open, more do not either.
proof fn lemma_closed_chunk(key: Seq<u8>, blob: Seq<u8>, n: nat, j: nat, k: nat)
    requires
        j <= k,
        opened_chunks(key, blob, n, j) is None,
    ensures
        opened_chunks(key, blob, n, k) is None,
    decreases k,
{
    if j < k {
        lemma_closed_chunk(key, blob, n, j, (k - 1) as nat);
    }
}

/// Whether a name is short enough for its sealed form to be written out.
pub open spec fn name_fits(name: Seq<char>) -> bool {
    encode_utf8(name).len() + TAG <= usize::MAX / 512
}

/// The encrypted form of a name.
pub open spec fn name_cipher(key: Seq<u8>, name: Seq<char>) -> Seq<char> {
    codec::base32hex(primitives::siv_sealed(key, encode_utf8(NAME_HEADER@), encode_utf8(name)))
}

/// The name that an encrypted form stands for.
pub open spec fn name_plain(key: Seq<u8>, encoded: Seq<char>) -> Result<Seq<char>, CryptoError> {
    if exists|sealed: Seq<u8>| codec::base32hex(sealed) == encoded {
        let sealed = choose|sealed: Seq<u8>| codec::base32hex(sealed) == encoded;
        match primitives::siv_opened(key, encode_utf8(NAME_HEADER@), sealed) {
            None => Err(CryptoError::NameDecryptionFailed),
            Some(plain) => if valid_utf8(plain) {
                Ok(decode_utf8(plain))
            } else {
                Err(CryptoError::NameNotUtf8)
            },
        }
    } else {
        Err(CryptoError::NotAnEncryptedName)
    }
}

/// What a text in base32hex form is the form of.
proof fn lemma_name_plain(key: Seq<u8>, sealed: Seq<u8>)
    ensures
        name_plain(key, codec::base32hex(sealed)) == match primitives::siv_opened(
            key,
            encode_utf8(NAME_HEADER@),
            sealed,
        ) {
            None => Err::<Seq<char>, CryptoError>(CryptoError::NameDecryptionFailed),
            Some(plain) => if valid_utf8(plain) {
                Ok(decode_utf8(plain))
            } else {
                Err(CryptoError::NameNotUtf8)
            },
        },
{
    let encoded = codec::base32hex(sealed);
    let d = choose|d: Seq<u8>| codec::base32hex(d) == encoded;
    assert(codec::base32hex(d) == encoded);
    codec::lemma_base32hex_injective(d, sealed);
}

/// A text in base32hex takes one byte for each character.
proof fn lemma_base32hex_bytes(text: Seq<char>)
    requires
        forall|i: int| 0 <= i < text.len() ==> codec::is_base32hex_char(#[trigger] text[i]),
    ensures
        encode_utf8(text).len() == text.len(),
{
    assert(is_ascii_chars(text));
    is_ascii_chars_encode_utf8(text);
}

/// Encrypts one path segment. Equal names have equal encrypted forms, which are
/// written in base32hex, so that they hold no `/`, and decrypt to the name again.
pub fn encrypt_name(keys: &VaultKeys, name: &str) -> (r: Result<String, CryptoError>)
    requires
        name_fits(name@),
    ensures
        r is Ok,
        r->Ok_0@ == name_cipher(keys.name_key(), name@),
        name_plain(keys.name_key(), r->Ok_0@) == Ok::<Seq<char>, CryptoError>(name@),
        r->Ok_0@.len() == (8 * (encode_utf8(name@).len() + TAG) + 4) / 5,
        forall|i: int|
            0 <= i < r->Ok_0@.len() ==> codec::is_base32hex_char(#[trigger] r->Ok_0@[i]),
        !r->Ok_0@.contains('/'),
        encode_utf8(r->Ok_0@).len() <= usize::MAX / 8,
{
    let sealed = primitives::siv_seal(
        &keys.name,
        NAME_HEADER.as_bytes(),
        name.as_bytes(),
    ).unwrap();
    let text = codec::base32hex_encode(sealed.as_slice());
    proof {
        lemma_name_plain(keys.name_key(), sealed@);
        encode_utf8_valid_utf8(name@);
        encode_utf8_decode_utf8(name@);
        codec::lemma_base32hex_alphabet(sealed@);
        assert(text@.len() == (8 * sealed@.len() + 4) / 5);
        lemma_base32hex_bytes(text@);
    }
    Ok(text)
}

/// Decrypts one path segment.
pub fn decrypt_name(keys: &VaultKeys, encoded: &str) -> (r: Result<String, CryptoError>)
    requires
        encoded.spec_bytes().len() <= usize::MAX / 8,
    ensures
        match name_plain(keys.name_key(), encoded@) {
            Ok(name) => r is Ok && r->Ok_0@ == name,
            Err(e) => r == Err::<String, CryptoError>(e),
        },
{
    let sealed = match codec::base32hex_decode(encoded) {
        Some(sealed) => sealed,
        None => return Err(CryptoError::NotAnEncryptedName),
    };
    proof {
        lemma_name_plain(keys.name_key(), sealed@);
    }
    let plain = match primitives::siv_open(
        &keys.name,
        NAME_HEADER.as_bytes(),
        sealed.as_slice(),
    ) {
        Some(plain) => plain,
        None => return Err(CryptoError::NameDecryptionFailed),
    };
    match text::string_from_utf8(plain) {
        Some(name) => {
            proof {
                encode_utf8_decode_utf8(name@);
            }
            Ok(name)
        },
        None => Err(CryptoError::NameNotUtf8),
    }
}

/// The encrypted form of a path segment; an empty one stays empty.
pub open spec fn segment_cipher(key: Seq<u8>, segment: Seq<char>) -> Seq<char> {
    if segment.len() == 0 {
        Seq::empty()
    } else {
        name_cipher(key, segment)
    }
}

/// The encrypted form of a path: every segment on its own.
pub open spec fn path_cipher(key: Seq<u8>, path: Seq<char>) -> Seq<char> {
    text::join_with(
        text::split_on(path, '/').map_values(|s: Seq<char>| segment_cipher(key, s)),
        '/',
    )
}

/// The segments that encrypted segments stand for, or the error of the first
/// that stands for none.
pub open spec fn segments_plain(key: Seq<u8>, segments: Seq<Seq<char>>) -> Result<
    Seq<Seq<char>>,
    CryptoError,
>
    decreases segments.len(),
{
    if segments.len() == 0 {
        Ok(Seq::empty())
    } else {
        match segments_plain(key, segments.drop_last()) {
            Err(e) => Err(e),
            Ok(front) => if segments.last().len() == 0 {
                Ok(front.push(Seq::empty()))
            } else {
                match name_plain(key, segments.last()) {
                    Err(e) => Err(e),
                    Ok(name) => Ok(front.push(name)),
                }
            },
        }
    }
}

/// The path that an encrypted path stands for.
pub open spec fn path_plain(key: Seq<u8>, path: Seq<char>) -> Result<Seq<char>, CryptoError> {
    match segments_plain(key, text::split_on(path, '/')) {
        Err(e) => Err(e),
        Ok(segments) => Ok(text::join_with(segments, '/')),
    }
}

/// Encrypts every segment of a `/`-separated path. Separators stay where they
/// are, a trailing one too, and the result decrypts to the path again.
pub fn encrypt_path(keys: &VaultKeys, path: &str) -> (r: Result<String, CryptoError>)
    requires
        name_fits(path@),
    ensures
        r is Ok,
        r->Ok_0@ == path_cipher(keys.name_key(), path@),
        path_plain(keys.name_key(), r->Ok_0@) == Ok::<Seq<char>, CryptoError>(path@),
        forall|i: int|
            0 <= i < r->Ok_0@.len() ==> codec::is_base32hex_char(#[trigger] r->Ok_0@[i])
                || r->Ok_0@[i] == '/',
        encode_utf8(r->Ok_0@).len() <= usize::MAX / 8,
{
    let ghost key = keys.name_key();
    let ghost f = |s: Seq<char>| segment_cipher(key, s);
    let segments = text::split(path, '/');
    let ghost plain = text::split_on(path@, '/');
    let mut out: Vec<String> = Vec::new();
    let mut i: usize = 0;
    proof {
        text::lemma_utf8_pieces(path@, '/');
    }
    assert(plain.take(0) =~= Seq::empty());
    assert(text::views(out@) =~= Seq::empty());
    while i < segments.len()
        invariant
            key == keys.name_key(),
            f == (|s: Seq<char>| segment_cipher(key, s)),
            plain == text::split_on(path@, '/'),
            text::views(segments@) == plain,
            name_fits(path@),
            forall|j: int|
                0 <= j < plain.len() ==> encode_utf8(#[trigger] plain[j]).len() <= encode_utf8(
                    path@,
                ).len(),
            i <= segments@.len(),
            out@.len() == i,
            text::views(out@) == plain.map_values(f).take(i as int),
            segments_plain(key, text::views(out@)) == Ok::<Seq<Seq<char>>, CryptoError>(
                plain.take(i as int),
            ),
            forall|j: int| 0 <= j < i ==> !(#[trigger] text::views(out@)[j]).contains('/'),
            forall|j: int|
                0 <= j < i ==> (#[trigger] text::views(out@)[j]).len() <= 33 * plain[j].len(),
            forall|j: int, c: int|
                0 <= j < i && 0 <= c < text::views(out@)[j].len() ==> codec::is_base32hex_char(
                    #[trigger] text::views(out@)[j][c],
                ),
        decreases segments@.len() - i,
    {
        let ghost before = text::views(out@);
        let segment = segments[i].as_str();
        assert(segment@ == plain[i as int]);
        proof {
            text::lemma_utf8_len(segment@);
        }
        let cipher = if segment.is_empty() {
            assert(segment@ =~= Seq::empty());
            String::new()
        } else {
            encrypt_name(keys, segment).unwrap()
        };
        let ghost c = cipher@;
        out.push(cipher);
        assert(text::views(out@) =~= before.push(c));
        assert(before.push(c).drop_last() =~= before);
        assert(plain.take(i as int + 1) =~= plain.take(i as int).push(plain[i as int]));
        assert(text::views(out@) =~= plain.map_values(f).take(i as int + 1));
        assert forall|j: int| 0 <= j < i + 1 implies !(#[trigger] text::views(out@)[j]).contains(
            '/',
        ) by {
            if j < i {
                assert(text::views(out@)[j] == before[j]);
            }
        }
        assert forall|j: int| 0 <= j < i + 1 implies (#[trigger] text::views(out@)[j]).len() <= 33
            * plain[j].len() by {
            if j < i {
                assert(text::views(out@)[j] == before[j]);
            }
        }
        assert forall|j: int, c: int|
            0 <= j < i + 1 && 0 <= c < text::views(out@)[j].len() implies codec::is_base32hex_char(
            #[trigger] text::views(out@)[j][c],
        ) by {
            if j < i {
                assert(text::views(out@)[j] == before[j]);
            }
        }
        i += 1;
    }
    let r = text::join(&out, '/');
    proof {
        let parts = text::views(out@);
        assert(plain.map_values(f).take(i as int) =~= plain.map_values(f));
        assert(plain.take(i as int) =~= plain);
        text::lemma_split_of_join(parts, '/');
        text::lemma_join_of_split(path@, '/');
        text::lemma_join_len(parts, plain, '/', 33);
        text::lemma_utf8_len(path@);
        assert forall|i: int| 0 <= i < r@.len() implies codec::is_base32hex_char(#[trigger] r@[i])
            || r@[i] == '/' by {
            text::lemma_join_chars(parts, '/', i);
        }
        assert(is_ascii_chars(r@));
        is_ascii_chars_encode_utf8(r@);
    }
    Ok(r)
}

/// Decrypts every segment of a `/`-separated path.
pub fn decrypt_path(keys: &VaultKeys, path: &str) -> (r: Result<String, CryptoError>)
    requires
        path.spec_bytes().len() <= usize::MAX / 8,
    ensures
        match path_plain(keys.name_key(), path@) {
            Ok(plain) => r is Ok && r->Ok_0@ == plain,
            Err(e) => r == Err::<String, CryptoError>(e),
        },
{
    let ghost key = keys.name_key();
    let segments = text::split(path, '/');
    let ghost cipher = text::split_on(path@, '/');
    let mut out: Vec<String> = Vec::new();
    let mut i: usize = 0;
    proof {
        text::lemma_utf8_pieces(path@, '/');
    }
    assert(text::views(out@) =~= Seq::empty());
    while i < segments.len()
        invariant
            key == keys.name_key(),
            cipher == text::split_on(path@, '/'),
            text::views(segments@) == cipher,
            encode_utf8(path@).len() <= usize::MAX / 8,
            forall|j: int|
                0 <= j < cipher.len() ==> encode_utf8(#[trigger] cipher[j]).len() <= encode_utf8(
                    path@,
                ).len(),
            i <= segments@.len(),
            segments_plain(key, cipher.take(i as int)) == Ok::<Seq<Seq<char>>, CryptoError>(
                text::views(out@),
            ),
        decreases segments@.len() - i,
    {
        let ghost before = text::views(out@);
        let segment = segments[i].as_str();
        assert(segment@ == cipher[i as int]);
        assert(cipher.take(i as int + 1).drop_last() =~= cipher.take(i as int));
        if segment.is_empty() {
            out.push(String::new());
            assert(text::views(out@) =~= before.push(Seq::empty()));
        } else {
            match decrypt_name(keys, segment) {
                Ok(name) => {
                    let ghost n = name@;
                    out.push(name);
                    assert(text::views(out@) =~= before.push(n));
                },
                Err(e) => {
                    proof {
                        lemma_segments_error(key, cipher, (i + 1) as nat, e);
                    }
                    return Err(e);
                },
            }
        }
        i += 1;
    }
    assert(cipher.take(i as int) =~= cipher);
    Ok(text::join(&out, '/'))
}

/// The error of a segment is that of the whole path.
proof fn lemma_segments_error(key: Seq<u8>, segments: Seq<Seq<char>>, k: nat, e: CryptoError)
    requires
        k <= segments.len(),
        segments_plain(key, segments.take(k as int)) == Err::<Seq<Seq<char>>, CryptoError>(e),
    ensures
        segments_plain(key, segments) == Err::<Seq<Seq<char>>, CryptoError>(e),
    decreases segments.len() - k,
{
    if k == segments.len() {
        assert(segments.take(k as int) =~= segments);
    } else {
        assert(segments.take(k as int + 1).drop_last() =~= segments.take(k as int));
        lemma_segments_error(key, segments, k + 1, e);
    }
}

/// The vault file of a bucket: what it takes, besides the password, to derive
/// the keys and to tell whether the password is right.
pub struct VaultFile {
    pub version: u32,
    /// The salt, in base64.
    pub salt: String,
    /// The sealed canary, in base64.
    pub canary: String,
}

/// The content key and the name key that a vault opens to under a password.
pub open spec fn vault_opens(salt: Seq<char>, canary: Seq<char>, password: Seq<char>) -> Result<
    (Seq<u8>, Seq<u8>),
    CryptoError,
> {
    match (codec::base64_bytes(salt), codec::base64_bytes(canary)) {
        (None, _) => Err(CryptoError::SaltCorrupted),
        (Some(_), None) => Err(CryptoError::CanaryCorrupted),
        (Some(salt), Some(canary)) => match derivation_error(password, salt) {
            Some(e) => Err(e),
            None => {
                let key = derived_content_key(password, salt);
                if decrypted(key, canary) == Ok::<Seq<u8>, CryptoError>(encode_utf8(CANARY@)) {
                    Ok((key, derived_name_key(password, salt)))
                } else {
                    Err(CryptoError::WrongPassword)
                }
            },
        },
    }
}

/// Makes a vault with the given salt and the given file nonce for its canary.
/// Under the same password it opens to the same keys.
pub fn create_vault_with(password: &str, salt: &[u8], prefix: [u8; 8]) -> (r: Result<
    (VaultFile, VaultKeys),
    CryptoError,
>)
    requires
        (salt@.len() + 2) / 3 * 4 <= isize::MAX,
    ensures
        match derivation_error(password@, salt@) {
            Some(e) => r == Err::<(VaultFile, VaultKeys), CryptoError>(e),
            None => {
                &&& r is Ok
                &&& r->Ok_0.0.version == 1
                &&& r->Ok_0.0.salt@ == codec::base64(salt@)
                &&& r->Ok_0.0.canary@ == codec::base64(
                    encrypted(
                        derived_content_key(password@, salt@),
                        prefix@,
                        encode_utf8(CANARY@),
                    ),
                )
                &&& r->Ok_0.1.content_key() == derived_content_key(password@, salt@)
                &&& r->Ok_0.1.name_key() == derived_name_key(password@, salt@)
                &&& vault_opens(r->Ok_0.0.salt@, r->Ok_0.0.canary@, password@) == Ok::<
                    (Seq<u8>, Seq<u8>),
                    CryptoError,
                >((r->Ok_0.1.content_key(), r->Ok_0.1.name_key()))
            },
        },
{
    let keys = match derive_keys(password, salt) {
        Ok(keys) => keys,
        Err(e) => return Err(e),
    };
    proof {
        lemma_canary_len();
    }
    let canary = encrypt_bytes_with(&keys, prefix, CANARY.as_bytes()).unwrap();
    let file = VaultFile {
        version: 1,
        salt: codec::base64_encode(salt),
        canary: codec::base64_encode(canary.as_slice()),
    };
    proof {
        codec::lemma_base64_bytes(salt@);
        codec::lemma_base64_bytes(canary@);
    }
    Ok((file, keys))
}

proof fn lemma_canary_len()
    ensures
        encode_utf8(CANARY@).len() == 13,
{
    reveal_strlit("rse canary v1");
    assert(is_ascii_chars(CANARY@));
    is_ascii_chars_encode_utf8(CANARY@);
}

/// Makes a vault with a random salt of sixteen bytes. Under the same password it
/// opens to the same keys.
pub fn create_vault(password: &str) -> (r: Result<(VaultFile, VaultKeys), CryptoError>)
    ensures
        password.spec_bytes().len() > 0xffff_ffff ==> r == Err::<
            (VaultFile, VaultKeys),
            CryptoError,
        >(CryptoError::PasswordTooLong),
        password.spec_bytes().len() <= 0xffff_ffff ==> {
            &&& r is Ok
            &&& r->Ok_0.0.version == 1
            &&& exists|salt: Seq<u8>|
                salt.len() == 16 && r->Ok_0.0.salt@ == #[trigger] codec::base64(salt)
                    && r->Ok_0.1.content_key() == derived_content_key(password@, salt)
                    && r->Ok_0.1.name_key() == derived_name_key(password@, salt)
            &&& vault_opens(r->Ok_0.0.salt@, r->Ok_0.0.canary@, password@) == Ok::<
                (Seq<u8>, Seq<u8>),
                CryptoError,
            >((r->Ok_0.1.content_key(), r->Ok_0.1.name_key()))
        },
{
    let salt = primitives::random_bytes(16);
    let b = primitives::random_bytes(8);
    create_vault_with(
        password,
        salt.as_slice(),
        [b[0], b[1], b[2], b[3], b[4], b[5], b[6], b[7]],
    )
}

/// Derives the keys of a vault, and checks the password against its canary.
pub fn open_vault(vault: &VaultFile, password: &str) -> (r: Result<VaultKeys, CryptoError>)
    requires
        vault.canary@.len() <= HEADER_LEN + u32::MAX * 0x10_0010,
    ensures
        match vault_opens(vault.salt@, vault.canary@, password@) {
            Ok((content, name)) => r is Ok && r->Ok_0.content_key() == content
                && r->Ok_0.name_key() == name,
            Err(e) => r == Err::<VaultKeys, CryptoError>(e),
        },
{
    let salt = match codec::base64_decode(vault.salt.as_str()) {
        Some(salt) => salt,
        None => return Err(CryptoError::SaltCorrupted),
    };
    let canary = match codec::base64_decode(vault.canary.as_str()) {
        Some(canary) => canary,
        None => {
            proof {
                codec::lemma_base64_bytes(salt@);
            }
            return Err(CryptoError::CanaryCorrupted)
        },
    };
    proof {
        codec::lemma_base64_bytes(salt@);
        codec::lemma_base64_bytes(canary@);
        assert(vault.canary@.len() == (canary@.len() + 2) / 3 * 4);
    }
    let mut keys = match derive_keys(password, salt.as_slice()) {
        Ok(keys) => keys,
        Err(e) => return Err(e),
    };
    match decrypt_bytes(&keys, canary.as_slice()) {
        Ok(plain) => {
            if codec::same_bytes(plain.as_slice(), CANARY.as_bytes()) {
                return Ok(keys);
            }
        },
        Err(_) => {},
    }
    keys.wipe();
    Err(CryptoError::WrongPassword)
}

/// The number that four bytes stand for, the highest first.
pub open spec fn read_big_endian(b: Seq<u8>) -> int {
    b[0] * 0x100_0000 + b[1] * 0x1_0000 + b[2] * 0x100 + b[3]
}

/// A nonce is the file nonce and four bytes: the number of the chunk from the highest
/// byte on, with the highest bit set for the last chunk of the file.
pub proof fn law_nonce_numbers_the_chunk(prefix: Seq<u8>, i: u32, last: bool)
    requires
        prefix.len() == 8,
        i < 0x8000_0000,
    ensures
        nonce_of(prefix, i, last).len() == 12,
        nonce_of(prefix, i, last).take(8) == prefix,
        read_big_endian(nonce_of(prefix, i, last).skip(8)) == i + if last {
            0x8000_0000int
        } else {
            0
        },
{
    let c = chunk_number(i, last);
    assert(i < 0x8000_0000 ==> (i | 0x8000_0000) == i + 0x8000_0000) by (bit_vector);
    assert(nonce_of(prefix, i, last).take(8) =~= prefix);
    assert(nonce_of(prefix, i, last).skip(8) =~= big_endian(c));
    assert(read_big_endian(big_endian(c)) == c);
}

/// A file is the four letters of its format, the file nonce, and its chunks one after
/// the other, each sealed under its own nonce: a mebibyte of the plaintext each, and
/// the last what is left over. An empty plaintext is one empty chunk.
pub proof fn law_file_format(key: Seq<u8>, prefix: Seq<u8>, data: Seq<u8>, i: int)
    requires
        0 <= i < chunks_of(data.len()),
    ensures
        ({
            let n = chunks_of(data.len());
            let start = i * 0x10_0000;
            let end = if i + 1 == n {
                data.len() as int
            } else {
                start + 0x10_0000
            };
            &&& encrypted(key, prefix, data) == seq!['R' as u8, 'S' as u8, 'E' as u8, '1' as u8]
                + prefix + sealed_chunks(key, prefix, cut(data), n)
            &&& sealed_chunks(key, prefix, cut(data), 0).len() == 0
            &&& sealed_chunks(key, prefix, cut(data), (i + 1) as nat) == sealed_chunks(
                key,
                prefix,
                cut(data),
                i as nat,
            ) + primitives::chacha_sealed(
                key,
                nonce_of(prefix, i as u32, i + 1 == n),
                data.subrange(start, end),
            )
            &&& 0 <= start <= end <= data.len()
            &&& end - start <= 0x10_0000
            &&& data.len() > 0 ==> start < end
            &&& data.len() == 0 ==> n == 1
        }),
{
    lemma_magic();
    let n = chunks_of(data.len());
    if data.len() > 0 {
        assert((n - 1) * 0x10_0000 < data.len() <= n * 0x10_0000);
    }
    assert(i * 0x10_0000 <= (n - 1) * 0x10_0000);
    if i + 1 < n {
        assert((i + 1) * 0x10_0000 <= (n - 1) * 0x10_0000);
    }
    assert(cut(data)[i] == plain_chunk(data, i));
}

/// A file opens only where it starts with the letters of its format.
pub proof fn law_foreign_file_is_refused(key: Seq<u8>, blob: Seq<u8>)
    requires
        blob.len() < 28 || blob.take(4) != seq!['R' as u8, 'S' as u8, 'E' as u8, '1' as u8],
    ensures
        decrypted(key, blob) is Err,
{
    lemma_magic();
}

/// A file opens to its plaintext only where each of its chunks opens in its place: the
/// last one as the last, and the others as others. So a file that was cut off or put
/// together anew does not open where its chunks do not open in their new places.
pub proof fn law_chunks_open_in_their_places(key: Seq<u8>, blob: Seq<u8>, n: nat, k: nat, i: nat)
    requires
        i < k <= n,
        opened_chunks(key, blob, n, k) is Some,
    ensures
        opens_to(
            key,
            nonce_of(blob.subrange(4, 12), i as u32, i + 1 == n),
            blob.subrange(
                12 + i as int * 0x10_0010,
                if i + 1 == n {
                    blob.len() as int
                } else {
                    12 + (i + 1) as int * 0x10_0010
                },
            ),
        ) is Some,
    decreases k,
{
    if i + 1 < k {
        law_chunks_open_in_their_places(key, blob, n, (k - 1) as nat, i);
    }
}

/// The two keys come from the same password and salt, each for its own purpose.
pub proof fn law_keys_have_their_purposes(password: Seq<char>, salt: Seq<u8>)
    ensures
        derived_content_key(password, salt) == primitives::hkdf_sha256(
            primitives::argon2id(encode_utf8(password), salt),
            encode_utf8("rse/content/v1"@),
            32,
        ),
        derived_name_key(password, salt) == primitives::hkdf_sha256(
            primitives::argon2id(encode_utf8(password), salt),
            encode_utf8("rse/names/v1"@),
            64,
        ),
{
}

/// A name is sealed under the name key, for names and nothing else, and written out;
/// so equal names have equal forms, and a form stands for what its bytes open to.
pub proof fn law_name_is_sealed_for_names(key: Seq<u8>, name: Seq<char>, sealed: Seq<u8>)
    ensures
        name_cipher(key, name) == codec::base32hex(
            primitives::siv_sealed(key, encode_utf8("rse-name-v1"@), encode_utf8(name)),
        ),
        primitives::siv_opened(key, encode_utf8("rse-name-v1"@), sealed) == Some(encode_utf8(name))
            ==> name_plain(key, codec::base32hex(sealed)) == Ok::<Seq<char>, CryptoError>(name),
        primitives::siv_opened(key, encode_utf8("rse-name-v1"@), sealed) is None ==> name_plain(
            key,
            codec::base32hex(sealed),
        ) is Err,
{
    lemma_name_plain(key, sealed);
    encode_utf8_valid_utf8(name);
    encode_utf8_decode_utf8(name);
}

/// A path is encrypted segment by segment: what stands between two slashes is the
/// encrypted form of what stood there, and nothing where there was nothing.
pub proof fn law_path_is_encrypted_by_segment(key: Seq<u8>, parts: Seq<Seq<char>>)
    requires
        parts.len() > 0,
        forall|i: int| 0 <= i < parts.len() ==> !(#[trigger] parts[i]).contains('/'),
    ensures
        path_cipher(key, text::join_with(parts, '/')) == text::join_with(
            Seq::new(
                parts.len(),
                |i: int|
                    if parts[i].len() == 0 {
                        parts[i]
                    } else {
                        name_cipher(key, parts[i])
                    },
            ),
            '/',
        ),
{
    text::lemma_split_of_join(parts, '/');
    let sealed = Seq::new(
        parts.len(),
        |i: int|
            if parts[i].len() == 0 {
                parts[i]
            } else {
                name_cipher(key, parts[i])
            },
    );
    assert forall|i: int| 0 <= i < parts.len() implies #[trigger] sealed[i] == segment_cipher(
        key,
        parts[i],
    ) by {
        if parts[i].len() == 0 {
            assert(parts[i] =~= Seq::empty());
        }
    }
    assert(text::split_on(text::join_with(parts, '/'), '/').map_values(
        |s: Seq<char>| segment_cipher(key, s),
    ) =~= sealed);
}

/// A path of encrypted segments is told where each of them is the form of a name, and
/// is then made of those names.
pub proof fn law_segments_are_told_one_by_one(
    key: Seq<u8>,
    sealed: Seq<Seq<char>>,
    names: Seq<Seq<char>>,
)
    requires
        sealed.len() == names.len(),
        forall|i: int|
            0 <= i < sealed.len() ==> if (#[trigger] sealed[i]).len() == 0 {
                names[i].len() == 0
            } else {
                name_plain(key, sealed[i]) == Ok::<Seq<char>, CryptoError>(names[i])
            },
    ensures
        segments_plain(key, sealed) == Ok::<Seq<Seq<char>>, CryptoError>(names),
    decreases sealed.len(),
{
    if sealed.len() > 0 {
        let n = sealed.len() - 1;
        let (s, m) = (sealed.drop_last(), names.drop_last());
        assert forall|i: int| 0 <= i < s.len() implies if (#[trigger] s[i]).len() == 0 {
            m[i].len() == 0
        } else {
            name_plain(key, s[i]) == Ok::<Seq<char>, CryptoError>(m[i])
        } by {
            assert(sealed[i] == s[i]);
        }
        law_segments_are_told_one_by_one(key, s, m);
        assert(sealed[n] == sealed.last());
        if sealed[n].len() == 0 {
            assert(names[n] =~= Seq::empty());
        }
        assert(m.push(names[n]) =~= names);
    } else {
        assert(names =~= Seq::empty());
    }
}

/// A path of which one segment is the form of no name is not told.
pub proof fn law_foreign_segment_is_not_told(key: Seq<u8>, sealed: Seq<Seq<char>>, i: int)
    requires
        0 <= i < sealed.len(),
        sealed[i].len() > 0,
        name_plain(key, sealed[i]) is Err,
    ensures
        segments_plain(key, sealed) is Err,
    decreases sealed.len(),
{
    if i < sealed.len() - 1 {
        assert(sealed.drop_last()[i] == sealed[i]);
        law_foreign_segment_is_not_told(key, sealed.drop_last(), i);
    }
}

/// A vault opens under a password exactly where its canary does, by the content key of
/// that password and the vault's salt, and gives the keys of both.
pub proof fn law_canary_tells_the_password(
    salt: Seq<u8>,
    canary: Seq<u8>,
    password: Seq<char>,
)
    requires
        derivation_error(password, salt) is None,
    ensures
        ({
            let opened = vault_opens(codec::base64(salt), codec::base64(canary), password);
            let key = derived_content_key(password, salt);
            if decrypted(key, canary) == Ok::<Seq<u8>, CryptoError>(encode_utf8("rse canary v1"@)) {
                opened == Ok::<(Seq<u8>, Seq<u8>), CryptoError>(
                    (key, derived_name_key(password, salt)),
                )
            } else {
                opened == Err::<(Seq<u8>, Seq<u8>), CryptoError>(CryptoError::WrongPassword)
            }
        }),
{
    codec::lemma_base64_bytes(salt);
    codec::lemma_base64_bytes(canary);
}

} // verus!
