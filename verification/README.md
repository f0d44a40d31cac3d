# Rabbit Storage Explorer

A storage explorer for S3-compatible object stores, SFTP, NFSv3 and SMB 2/3
servers, with optional end-to-end encryption of contents and names. The logic is a
library that Verus verifies; the program around it does the network, the disk, the
keychain and the windows.

## Layout

- `src/` is the verified library.
  - `primitives`, `codec`, `crypto`: key derivation, the encrypted file format,
    encrypted names, the vault.
  - `manifest`, `json`, `manifest_store`, `dir_view`, `key_map`, `sorting`,
    `text`: the encrypted directory manifests, their text, when they are written,
    and what a listing shows.
  - `storage`: the rules of each backend (paths, pages, batches, ranges, trusted
    host keys).
  - `worker`: the transfer engine: batches, uploads and downloads from the first
    try to the last, operations as lists of steps, the session and its repair.
  - `ratelimit`, `settings`: the shared rate limit, settings and saved
    connections.
  - `ui`: what the windows say and what a gesture asks for.
- `tests/` runs the library with the real crates.
- `app/` is the program. It performs what the library decides and tells it what
  came of it.

## What is proved

Every function of `src/` has a contract over mathematical models, and the
properties that span functions are proof functions named `law_...`. Among them:
what is encrypted decrypts to itself, also in parts and resumed at a chunk; a
download restores what was stored and never writes outside its directory; an
upload in parts is completed from all of its parts in order or given up at the
backend; every object of a directory shows up in its listing; the bytes of a
manifest determine it, unknown fields included; changed manifests are written and
unchanged ones are not; one task connects again while the others
wait; the rate is a ceiling over all transfers.

What the cryptographic crates, base32, base64, JSON strings, UTF-8 and lower case
compute is taken from them, behind wrappers whose contracts say what is relied on.
That a forged or truncated file is refused rests on the strength of the ciphers
and is not proved.

## E2EE format (v1)

- Argon2id over the password and a random 16-byte salt gives a master key;
  HKDF-SHA256 gives a content key and a name key.
- A file is `RSE1`, eight random bytes, and 1 MiB chunks sealed with
  ChaCha20-Poly1305 under the nonce of those bytes and a counter, whose high bit
  is set for the last chunk.
- A name is sealed with AES-256-SIV; it is stored under the SHA-256 of that, in
  upper-case hex.
- Each directory has a `.rse` object: the encrypted manifest with the real names
  and sizes.
- `.rse-vault` holds the salt and a canary that checks the password.
