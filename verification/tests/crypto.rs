use rabbit_storage_explorer::crypto::{
    chunk_layout, chunk_nonce, create_vault, create_vault_with, decrypt_bytes, decrypt_name,
    decrypt_path, derive_keys, encrypt_bytes, encrypt_bytes_with, encrypt_name, encrypt_path,
    encrypted_size, open_vault, CryptoError, Decryptor, Encryptor, VaultFile, VaultKeys, CHUNK,
    CIPHER_CHUNK, HEADER_LEN, TAG, VAULT_KEY,
};

fn keys() -> VaultKeys {
    derive_keys("hunter2", b"0123456789abcdef").unwrap()
}

#[test]
fn roundtrip_bytes() {
    let k = keys();
    for len in [0usize, 1, CHUNK - 1, CHUNK, CHUNK + 1, 3 * CHUNK + 7] {
        let data = vec![0xAB; len];
        let ct = encrypt_bytes(&k, &data).unwrap();
        assert_eq!(ct.len() as u64, encrypted_size(len as u64));
        assert_eq!(decrypt_bytes(&k, &ct).unwrap(), data);
    }
}

#[test]
fn truncation_detected() {
    let k = keys();
    let ct = encrypt_bytes(&k, &vec![7u8; 2 * CHUNK]).unwrap();
    // Drop the last chunk entirely: remaining data decrypts but last-flag check fails.
    let truncated = &ct[..HEADER_LEN + CIPHER_CHUNK];
    assert!(decrypt_bytes(&k, truncated).is_err());
}

#[test]
fn roundtrip_names() {
    let k = keys();
    let n = encrypt_name(&k, "häppy file (1).svg").unwrap();
    assert!(!n.contains('/'));
    assert_eq!(decrypt_name(&k, &n).unwrap(), "häppy file (1).svg");
    // deterministic
    assert_eq!(n, encrypt_name(&k, "häppy file (1).svg").unwrap());
}

#[test]
fn vault_roundtrip() {
    let (vf, _) = create_vault("pw").unwrap();
    assert!(open_vault(&vf, "pw").is_ok());
    assert!(open_vault(&vf, "wrong").is_err());
}

#[test]
fn sizes_are_exact() {
    assert_eq!(encrypted_size(0), 28);
    assert_eq!(encrypted_size(1), 29);
    assert_eq!(encrypted_size(CHUNK as u64), 12 + CHUNK as u64 + 16);
    assert_eq!(encrypted_size(CHUNK as u64 + 1), 12 + CHUNK as u64 + 1 + 32);
    assert_eq!(CIPHER_CHUNK, CHUNK + TAG);
}

#[test]
fn layout_follows_the_length() {
    assert_eq!(chunk_layout(0), Err(CryptoError::TooShort));
    assert_eq!(chunk_layout(11), Err(CryptoError::TooShort));
    assert_eq!(chunk_layout(27), Err(CryptoError::TooShort));
    assert_eq!(chunk_layout(28), Ok((1, 16)));
    assert_eq!(chunk_layout(12 + CIPHER_CHUNK as u64), Ok((1, CIPHER_CHUNK)));
    assert_eq!(
        chunk_layout(12 + CIPHER_CHUNK as u64 + 15),
        Err(CryptoError::BadFraming)
    );
    assert_eq!(chunk_layout(12 + CIPHER_CHUNK as u64 + 16), Ok((2, 16)));
    for plain in [0u64, 1, CHUNK as u64, CHUNK as u64 + 1, 5 * CHUNK as u64 + 3] {
        let (n, last) = chunk_layout(encrypted_size(plain)).unwrap();
        assert_eq!((n - 1) * CHUNK as u64 + last as u64 - 16, plain);
    }
}

#[test]
fn nonce_holds_prefix_number_and_last_flag() {
    let prefix = [1, 2, 3, 4, 5, 6, 7, 8];
    assert_eq!(
        chunk_nonce(&prefix, 0x01020304, false),
        [1, 2, 3, 4, 5, 6, 7, 8, 1, 2, 3, 4]
    );
    assert_eq!(
        chunk_nonce(&prefix, 0x01020304, true),
        [1, 2, 3, 4, 5, 6, 7, 8, 0x81, 2, 3, 4]
    );
    assert_ne!(chunk_nonce(&prefix, 7, true), chunk_nonce(&prefix, 7, false));
}

#[test]
fn stream_and_buffer_agree() {
    let k = keys();
    let prefix = [9u8; 8];
    let data: Vec<u8> = (0..CHUNK + 10).map(|i| (i % 251) as u8).collect();
    let whole = encrypt_bytes_with(&k, prefix, &data).unwrap();
    let mut enc = Encryptor::with_prefix(&k, prefix);
    let mut out = enc.header().to_vec();
    out.extend(enc.seal_chunk(&data[..CHUNK], false).unwrap());
    out.extend(enc.seal_chunk(&data[CHUNK..], true).unwrap());
    assert_eq!(out, whole);
    assert_eq!(&whole[..4], b"RSE1");
    assert_eq!(&whole[4..12], &prefix);
    assert_ne!(&whole[12..22], &data[..10]);

    // A resumed reader starts at the second chunk.
    let mut dec = Decryptor::new(&k, &whole).unwrap();
    dec.seek_to(1);
    assert_eq!(
        dec.open_chunk(&whole[12 + CIPHER_CHUNK..], true).unwrap(),
        &data[CHUNK..]
    );
}

#[test]
fn damaged_files_are_refused() {
    let k = keys();
    let good = encrypt_bytes_with(&k, [3; 8], b"hello").unwrap();
    assert_eq!(decrypt_bytes(&k, b"short"), Err(CryptoError::TooShort));
    let mut bad = good.clone();
    bad[0] = b'X';
    assert_eq!(decrypt_bytes(&k, &bad), Err(CryptoError::BadHeader));
    let mut bad = good.clone();
    bad[13] ^= 1;
    assert_eq!(decrypt_bytes(&k, &bad), Err(CryptoError::DecryptionFailed));
    assert!(matches!(
        Decryptor::new(&k, b"RSE1"),
        Err(CryptoError::BadHeader)
    ));
    let other = derive_keys("different", b"0123456789abcdef").unwrap();
    assert_eq!(
        decrypt_bytes(&other, &good),
        Err(CryptoError::DecryptionFailed)
    );
}

#[test]
fn random_nonces_differ_between_files() {
    let k = keys();
    let a = encrypt_bytes(&k, b"same").unwrap();
    let b = encrypt_bytes(&k, b"same").unwrap();
    assert_ne!(a[4..12], b[4..12]);
    assert_ne!(Encryptor::new(&k).header(), Encryptor::new(&k).header());
}

#[test]
fn salt_and_password_fix_the_keys() {
    let a = encrypt_bytes_with(&keys(), [1; 8], b"x").unwrap();
    let b = encrypt_bytes_with(&keys(), [1; 8], b"x").unwrap();
    assert_eq!(a, b);
    assert!(matches!(
        derive_keys("pw", b"short"),
        Err(CryptoError::SaltTooShort)
    ));
    assert_eq!(
        CryptoError::SaltTooShort.message(),
        "key derivation failed: salt is too short"
    );
}

#[test]
fn wiped_keys_are_not_the_keys() {
    let mut k = keys();
    let before = encrypt_name(&k, "a").unwrap();
    k.wipe();
    assert_ne!(encrypt_name(&k, "a").unwrap(), before);
}

#[test]
fn wiped_streams_have_lost_the_key() {
    let k = keys();
    let mut enc = Encryptor::with_prefix(&k, [9; 8]);
    enc.wipe();
    let mut file = enc.header().to_vec();
    file.extend(enc.seal_chunk(b"x", true).unwrap());
    assert_eq!(decrypt_bytes(&k, &file), Err(CryptoError::DecryptionFailed));

    let file = encrypt_bytes_with(&k, [9; 8], b"x").unwrap();
    let mut dec = Decryptor::new(&k, &file).unwrap();
    dec.wipe();
    assert_eq!(
        dec.open_chunk(&file[HEADER_LEN..], true),
        Err(CryptoError::DecryptionFailed)
    );
}

#[test]
fn encrypted_names_are_base32hex() {
    let k = keys();
    for name in ["", "a", "report.pdf", "\u{e9}t\u{e9}", "0123456789012345"] {
        let enc = encrypt_name(&k, name).unwrap();
        assert_eq!(enc.len(), (8 * (name.len() + 16) + 4) / 5);
        assert!(enc.bytes().all(|b| b.is_ascii_digit() || (b'A'..=b'V').contains(&b)));
    }
    let path = encrypt_path(&k, "a/b c//d/").unwrap();
    assert_eq!(path.len(), 28 + 1 + 31 + 2 + 28 + 1);
    assert!(path
        .bytes()
        .all(|b| b == b'/' || b.is_ascii_digit() || (b'A'..=b'V').contains(&b)));
}

#[test]
fn names_that_are_none_are_refused() {
    let k = keys();
    assert_eq!(
        decrypt_name(&k, "lower"),
        Err(CryptoError::NotAnEncryptedName)
    );
    assert_eq!(decrypt_name(&k, "1"), Err(CryptoError::NotAnEncryptedName));
    assert_eq!(
        decrypt_name(&k, "00"),
        Err(CryptoError::NameDecryptionFailed)
    );
    assert_eq!(
        CryptoError::NotAnEncryptedName.message(),
        "not an encrypted name"
    );
    let n = encrypt_name(&k, "abc").unwrap();
    assert_eq!(n.len(), (19 * 8 + 4) / 5);
    assert!(n
        .chars()
        .all(|c| c.is_ascii_digit() || ('A'..='V').contains(&c)));
}

#[test]
fn paths_keep_their_separators() {
    let k = keys();
    let p = encrypt_path(&k, "photos/2024//summer/").unwrap();
    let segs: Vec<&str> = p.split('/').collect();
    assert_eq!(segs.len(), 5);
    assert_eq!(segs[0], encrypt_name(&k, "photos").unwrap());
    assert_eq!(segs[2], "");
    assert_eq!(segs[4], "");
    assert_eq!(decrypt_path(&k, &p).unwrap(), "photos/2024//summer/");
    assert_eq!(encrypt_path(&k, "").unwrap(), "");
    assert_eq!(
        decrypt_path(&k, "a/b"),
        Err(CryptoError::NotAnEncryptedName)
    );
}

#[test]
fn vault_is_written_in_base64() {
    let (vf, k) = create_vault_with("pw", b"0123456789abcdef", [5; 8]).unwrap();
    assert_eq!(vf.version, 1);
    assert_eq!(vf.salt, "MDEyMzQ1Njc4OWFiY2RlZg==");
    assert!(vf.canary.starts_with("UlNFM"));
    assert_eq!(VAULT_KEY, ".rse-vault");
    let again = open_vault(&vf, "pw").unwrap();
    assert_eq!(
        encrypt_name(&k, "n").unwrap(),
        encrypt_name(&again, "n").unwrap()
    );
}

#[test]
fn broken_vaults_are_refused() {
    let (vf, _) = create_vault_with("pw", b"0123456789abcdef", [5; 8]).unwrap();
    let bad_salt = VaultFile {
        version: 1,
        salt: "???".to_string(),
        canary: vf.canary.clone(),
    };
    assert!(matches!(
        open_vault(&bad_salt, "pw"),
        Err(CryptoError::SaltCorrupted)
    ));
    let bad_canary = VaultFile {
        version: 1,
        salt: vf.salt.clone(),
        canary: "AA=".to_string(),
    };
    assert!(matches!(
        open_vault(&bad_canary, "pw"),
        Err(CryptoError::CanaryCorrupted)
    ));
    assert!(matches!(
        open_vault(&vf, "wrong"),
        Err(CryptoError::WrongPassword)
    ));
    assert_eq!(
        CryptoError::WrongPassword.message(),
        "wrong encryption password for this bucket"
    );
    let short_salt = VaultFile {
        version: 1,
        salt: "AAAA".to_string(),
        canary: vf.canary.clone(),
    };
    assert!(matches!(
        open_vault(&short_salt, "pw"),
        Err(CryptoError::SaltTooShort)
    ));
}
