use rabbit_storage_explorer::crypto::{
    chunk_layout, decrypt_bytes, derive_keys, encrypt_bytes, encrypt_name, encrypt_path, encrypted_size,
    CryptoError, Encryptor, VaultKeys, CHUNK, CIPHER_CHUNK, HEADER_LEN,
};
use rabbit_storage_explorer::dir_view::on_disk_segment;
use rabbit_storage_explorer::manifest::hash_entry;
use rabbit_storage_explorer::manifest_store::Edit;
use rabbit_storage_explorer::storage::entries::{RawObject, RemoteEntry};
use rabbit_storage_explorer::worker::download::{
    backoff_ms, directory_targets, display_rel, part_name, plan_resume, sanitize_rel,
    selection_targets, ChunkStream, DownloadError, Resume, Tries,
};
use rabbit_storage_explorer::worker::parts::{PartStream, MIN_PART};
use rabbit_storage_explorer::worker::sizes::{plaintext_of_ciphertext, wire_len};
use rabbit_storage_explorer::worker::upload::{
    goes_in_parts, meter, path_to_key, record_upload, upload_key,
};

fn keys() -> VaultKeys {
    derive_keys("hunter2", b"0123456789abcdef").unwrap()
}

fn sample(len: usize) -> Vec<u8> {
    (0..len).map(|i| (i * 31 + i / 251) as u8).collect()
}

fn object(key: &str, size: u64) -> RawObject {
    RawObject {
        key: key.to_string(),
        size,
        modified: None,
        is_prefix: false,
    }
}

#[test]
fn wire_sizes() {
    assert_eq!(wire_len(0), 28);
    assert_eq!(wire_len(1), 29);
    assert_eq!(wire_len(CHUNK as u64), 12 + 1_048_576 + 16);
    assert_eq!(wire_len(CHUNK as u64 + 1), 12 + 1_048_577 + 32);
    for n in [0u64, 1, 1_048_575, 1_048_576, 1_048_577, 10_000_000, 1 << 40] {
        assert_eq!(wire_len(n), encrypted_size(n));
        assert_eq!(plaintext_of_ciphertext(wire_len(n)), n);
    }
    assert_eq!(plaintext_of_ciphertext(0), 0);
    assert_eq!(plaintext_of_ciphertext(11), 0);
    assert_eq!(plaintext_of_ciphertext(27), 0);
    assert_eq!(plaintext_of_ciphertext(28), 0);
    let blob = encrypt_bytes(&keys(), &sample(3000)).unwrap();
    assert_eq!(plaintext_of_ciphertext(blob.len() as u64), 3000);
}

#[test]
fn uploads_are_metered() {
    assert!(!goes_in_parts(64, 64));
    assert!(goes_in_parts(65, 64));
    assert_eq!(meter(true, 64, 64), 64);
    assert_eq!(meter(true, 65, 64), 65 + 28);
    assert_eq!(meter(false, 65, 64), 65);
}

#[test]
fn upload_keys() {
    let k = keys();
    assert_eq!(upload_key(None, "p/", "a/b.txt").unwrap(), "p/a/b.txt");
    let a = on_disk_segment(&k, "a").unwrap();
    let b = on_disk_segment(&k, "b.txt").unwrap();
    assert_eq!(
        upload_key(Some(&k), "p/", "a/b.txt").unwrap(),
        format!("p/{a}/{b}")
    );
    let parts: Vec<String> = ["x", "y", "z.txt"].iter().map(|s| s.to_string()).collect();
    assert_eq!(path_to_key(&parts), "x/y/z.txt");
    assert_eq!(path_to_key(&Vec::new()), "");
}

#[test]
fn uploads_are_recorded_where_they_lie() {
    let k = keys();
    let steps = record_upload(&k, "p/", "a//b/c.txt", 9);
    assert_eq!(steps.len(), 3);
    let (ea, eb, ec) = (
        encrypt_name(&k, "a").unwrap(),
        encrypt_name(&k, "b").unwrap(),
        encrypt_name(&k, "c.txt").unwrap(),
    );
    let a_dir = format!("p/{}/", hash_entry(&ea));
    let b_dir = format!("{a_dir}{}/", hash_entry(&eb));
    let dirs: Vec<&str> = steps.iter().map(|s| s.dir.as_str()).collect();
    assert_eq!(dirs, vec!["p/", a_dir.as_str(), b_dir.as_str()]);
    assert!(matches!(
        &steps[0].edit,
        Edit::UpsertFolder { encrypted, name } if *encrypted == ea && name == "a"
    ));
    assert!(matches!(
        &steps[1].edit,
        Edit::UpsertFolder { encrypted, name } if *encrypted == eb && name == "b"
    ));
    assert!(matches!(
        &steps[2].edit,
        Edit::UpsertFile { encrypted, name, size: 9 } if *encrypted == ec && name == "c.txt"
    ));
    let steps = record_upload(&k, "p/", "a/b/c.txt", 9);
    assert_eq!(
        format!("{}{}", steps[2].dir, hash_entry(&ec)),
        upload_key(Some(&k), "p/", "a/b/c.txt").unwrap()
    );
    assert!(record_upload(&k, "p/", "/", 1).is_empty());
}

fn send(stream: &mut PartStream, data: &[u8]) -> Vec<(i32, Vec<u8>, bool)> {
    let mut parts = Vec::new();
    let mut at = 0;
    loop {
        let end = (at + CHUNK).min(data.len());
        let part = stream.feed(&data[at..end]).unwrap();
        at = end;
        if let Some(p) = part {
            let last = p.last;
            parts.push((p.number, p.data, p.last));
            if last {
                return parts;
            }
        }
    }
}

#[test]
fn parts_make_up_the_encrypted_object() {
    let k = keys();
    let data = sample(12 * CHUNK + 77);
    let mut stream = PartStream::new(Some(&k), MIN_PART, data.len() as u64);
    let parts = send(&mut stream, &data);
    let numbers: Vec<i32> = parts.iter().map(|p| p.0).collect();
    assert_eq!(numbers, vec![1, 2, 3]);
    assert!(parts[..2].iter().all(|p| p.1.len() >= MIN_PART && !p.2));
    let object: Vec<u8> = parts.into_iter().flat_map(|p| p.1).collect();
    assert_eq!(object.len() as u64, wire_len(data.len() as u64));
    assert_eq!(decrypt_bytes(&k, &object).unwrap(), data);
}

#[test]
fn parts_make_up_the_plain_object() {
    let data = sample(10 * CHUNK);
    let mut stream = PartStream::new(None, MIN_PART, data.len() as u64);
    let parts = send(&mut stream, &data);
    assert_eq!(parts.len(), 2);
    assert_eq!(parts[0].1.len(), MIN_PART);
    let object: Vec<u8> = parts.into_iter().flat_map(|p| p.1).collect();
    assert_eq!(object, data);
}

#[test]
fn stream_ends_with_a_short_read_or_the_file() {
    let k = keys();
    let mut grown = PartStream::start(Some(Encryptor::with_prefix(&k, [7; 8])), MIN_PART, 10);
    let part = grown.feed(&sample(CHUNK)).unwrap().unwrap();
    assert!(part.last);
    assert_eq!(decrypt_bytes(&k, &part.data).unwrap(), sample(CHUNK));
    let mut shrunk = PartStream::start(None, MIN_PART, 10_000_000);
    let part = shrunk.feed(&sample(5)).unwrap().unwrap();
    assert!(part.last);
    assert_eq!(part.data, sample(5));
    let mut empty = PartStream::start(Some(Encryptor::with_prefix(&k, [7; 8])), MIN_PART, 0);
    let part = empty.feed(&[]).unwrap().unwrap();
    assert!(part.last);
    assert_eq!(part.data.len(), 28);
    assert!(decrypt_bytes(&k, &part.data).unwrap().is_empty());
}

#[test]
fn directory_downloads_skip_what_is_not_the_users() {
    let objects = vec![
        object("p/d/a.txt", 10),
        object("p/d/.rse", 50),
        object("p/d/sub/", 0),
        object("p/d/sub/b.txt", 20),
        object("elsewhere", 1),
    ];
    let t = directory_targets(None, "p/d/", &objects);
    let seen: Vec<(&str, &str, u64)> = t
        .iter()
        .map(|t| (t.key.as_str(), t.rel.as_str(), t.size))
        .collect();
    assert_eq!(
        seen,
        vec![
            ("p/d/a.txt", "d/a.txt", 10),
            ("p/d/sub/b.txt", "d/sub/b.txt", 20),
            ("elsewhere", "elsewhere", 1)
        ]
    );
}

#[test]
fn selections_are_fetched_in_order() {
    let entry = |key: &str, name: &str, is_dir: bool, size: u64| RemoteEntry {
        key: key.to_string(),
        name: name.to_string(),
        is_dir,
        size,
        modified: None,
        encrypted: None,
    };
    let items = vec![
        entry("p/z", "z", false, 1),
        entry("p/d/", "d", true, 0),
        entry("p/failed/", "failed", true, 0),
        entry("p/a", "a", false, 2),
    ];
    let listings = vec![
        None,
        Some(vec![object("p/d/x", 10), object("p/d/.rse", 5), object("p/d/y", 20)]),
        None,
        None,
    ];
    let seen: Vec<(String, String, u64)> = selection_targets(None, &items, &listings)
        .into_iter()
        .map(|t| (t.key, t.rel, t.size))
        .collect();
    let want = [
        ("p/z", "z", 1),
        ("p/d/x", "d/x", 10),
        ("p/d/y", "d/y", 20),
        ("p/a", "a", 2),
    ];
    let want: Vec<(String, String, u64)> = want
        .iter()
        .map(|(k, r, s)| (k.to_string(), r.to_string(), *s))
        .collect();
    assert_eq!(seen, want);
    assert!(selection_targets(None, &Vec::new(), &Vec::new()).is_empty());
}

#[test]
fn encrypted_directory_downloads_count_plaintext() {
    let k = keys();
    let path = encrypt_path(&k, "d/a.txt").unwrap();
    let objects = vec![object(&path, wire_len(1234)), object("not/encrypted", 3)];
    let t = directory_targets(Some(&k), &format!("{}/", path.split('/').next().unwrap()), &objects);
    assert_eq!((t[0].rel.as_str(), t[0].size), ("d/a.txt", 1234));
    assert_eq!((t[1].rel.as_str(), t[1].size), ("not/encrypted", 0));
    assert_eq!(display_rel(None, "x/y"), "x/y");
    assert_eq!(display_rel(Some(&k), &path), "d/a.txt");
    assert_eq!(display_rel(Some(&k), "x/y"), "x/y");
}

#[test]
fn no_path_leads_out() {
    let seg = |rel: &str| sanitize_rel(rel).join("|");
    assert_eq!(seg("../../etc/passwd"), "etc|passwd");
    assert_eq!(seg("/a/./b//c/.."), "a|b|c");
    assert_eq!(seg("a/b.txt"), "a|b.txt");
    assert_eq!(seg("..."), "...");
    assert!(sanitize_rel("../..").is_empty());
    assert_eq!(part_name(Some("a.txt")), "a.txt.rse-part");
    assert_eq!(part_name(None), "download.rse-part");
}

#[test]
fn resume_plans() {
    let chunk = CHUNK as u64;
    assert_eq!(
        plan_resume(true, 0, 10),
        Resume::Fetch {
            keep: 0,
            cut: false,
            offset: 0,
            completed: 0
        }
    );
    assert_eq!(
        plan_resume(true, 2 * chunk + 5, 9 * chunk),
        Resume::Fetch {
            keep: 2 * chunk,
            cut: true,
            offset: 12 + 2 * (chunk + 16),
            completed: 2
        }
    );
    assert_eq!(
        plan_resume(true, 100, 9 * chunk),
        Resume::Fetch {
            keep: 0,
            cut: true,
            offset: 0,
            completed: 0
        }
    );
    assert_eq!(
        plan_resume(false, 100, 500),
        Resume::Fetch {
            keep: 100,
            cut: false,
            offset: 100,
            completed: 0
        }
    );
    assert_eq!(plan_resume(false, 500, 500), Resume::Finalize { cut_to: None });
    assert_eq!(
        plan_resume(false, 501, 500),
        Resume::Finalize { cut_to: Some(500) }
    );
    assert_eq!(
        plan_resume(true, 2 * chunk, chunk + 1),
        Resume::Finalize {
            cut_to: Some(chunk + 1)
        }
    );
    assert_eq!(
        plan_resume(true, 2 * chunk + 5, 2 * chunk),
        Resume::Finalize {
            cut_to: Some(2 * chunk)
        }
    );
    assert_eq!(
        plan_resume(true, 2 * chunk, 2 * chunk),
        Resume::Finalize { cut_to: None }
    );
    assert_eq!(
        plan_resume(false, 0, 0),
        Resume::Fetch {
            keep: 0,
            cut: false,
            offset: 0,
            completed: 0
        }
    );
}

#[test]
fn broken_download_is_completed() {
    let k = keys();
    let data = sample(3 * CHUNK + 99);
    let blob = encrypt_bytes(&k, &data).unwrap();
    let on_disk = 2 * CHUNK as u64 + 1234;
    let Resume::Fetch {
        keep,
        cut,
        offset,
        completed,
    } = plan_resume(true, on_disk, data.len() as u64)
    else {
        panic!("not complete");
    };
    assert!(cut);
    let mut out = data[..keep as usize].to_vec();
    let mut rest = &blob[offset as usize..];
    let mut stream = ChunkStream::open(
        &k,
        &blob[..HEADER_LEN],
        encrypted_size(data.len() as u64),
        completed as u32,
    )
    .unwrap();
    while let Some(want) = stream.want() {
        out.extend(stream.take(&rest[..want]).unwrap());
        rest = &rest[want..];
    }
    assert!(rest.is_empty());
    assert_eq!(out, data);
}

#[test]
fn chunk_stream_wants_full_chunks_then_the_last() {
    let k = keys();
    let data = sample(CHUNK + 3);
    let blob = encrypt_bytes(&k, &data).unwrap();
    assert_eq!(chunk_layout(blob.len() as u64).unwrap(), (2, 19));
    let mut s = ChunkStream::open(&k, &blob, blob.len() as u64, 0).unwrap();
    assert_eq!(s.want(), Some(CIPHER_CHUNK));
    assert_eq!(
        s.take(&blob[HEADER_LEN..HEADER_LEN + CIPHER_CHUNK]).unwrap(),
        &data[..CHUNK]
    );
    assert_eq!(s.want(), Some(19));
    assert_eq!(
        s.take(&blob[HEADER_LEN..HEADER_LEN + 19]).unwrap_err(),
        CryptoError::DecryptionFailed
    );
    assert_eq!(s.want(), None);
}

#[test]
fn a_wiped_chunk_stream_opens_nothing() {
    let k = keys();
    let blob = encrypt_bytes(&k, b"abc").unwrap();
    let mut s = ChunkStream::open(&k, &blob, blob.len() as u64, 0).unwrap();
    s.wipe();
    assert_eq!(s.want(), Some(19));
    assert_eq!(
        s.take(&blob[HEADER_LEN..]).unwrap_err(),
        CryptoError::DecryptionFailed
    );
}

#[test]
fn files_that_cannot_be_opened() {
    let k = keys();
    let blob = encrypt_bytes(&k, b"x").unwrap();
    let e = |r: Result<ChunkStream, DownloadError>| match r {
        Err(e) => e,
        Ok(_) => panic!("opened"),
    };
    let short = e(ChunkStream::open(&k, &blob[..11], 100, 0));
    assert_eq!(short, DownloadError::NoHeader);
    assert_eq!(short.message(), "encrypted file too short to contain a header");
    let tiny = e(ChunkStream::open(&k, &blob[..11], 20, 0));
    assert_eq!(tiny, DownloadError::Crypto(CryptoError::TooShort));
    assert_eq!(tiny.message(), "encrypted file too short");
    assert_eq!(
        e(ChunkStream::open(&k, &[0; 12], 100, 0)),
        DownloadError::Crypto(CryptoError::BadHeader)
    );
    assert_eq!(
        e(ChunkStream::open(&k, &blob, 12 + CIPHER_CHUNK as u64 + 3, 0)),
        DownloadError::Crypto(CryptoError::BadFraming)
    );
}

#[test]
fn tries_end() {
    let mut t = Tries::new(2);
    assert!(!t.again(true));
    assert!(t.again(false));
    assert_eq!(t.attempt, 1);
    assert!(t.again(false));
    assert!(!t.again(false));
    let waits: Vec<u64> = (0..7).map(backoff_ms).collect();
    assert_eq!(waits, vec![400, 800, 1600, 3200, 6400, 6400, 6400]);
}
