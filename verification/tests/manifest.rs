use rabbit_storage_explorer::crypto::{derive_keys, VaultKeys};
use rabbit_storage_explorer::key_map::KeyMap;
use rabbit_storage_explorer::manifest::{
    hash_entry, is_manifest_key, Entry, FileEntry, FolderEntry, Manifest, ManifestError,
    MANIFEST_KEY,
};
use serde_json::Value;

fn keys() -> VaultKeys {
    derive_keys("hunter2", b"0123456789abcdef").unwrap()
}

/// The fields of a JSON object but the known ones, each as JSON text.
fn others(fields: &serde_json::Map<String, Value>, known: &[&str]) -> KeyMap<String> {
    let mut extra = KeyMap::new();
    for (key, value) in fields {
        if !known.contains(&key.as_str()) {
            extra.insert(key.clone(), value.to_string());
        }
    }
    extra
}

/// Reads a manifest from JSON.
fn read(json: &[u8]) -> Manifest {
    let value: Value = serde_json::from_slice(json).unwrap();
    let top = value.as_object().unwrap();
    let mut m = Manifest {
        version: u32::try_from(top["version"].as_u64().unwrap()).unwrap(),
        files: KeyMap::new(),
        folders: KeyMap::new(),
        extra: others(top, &["version", "files", "folders"]),
    };
    for (stored, f) in top["files"].as_object().unwrap() {
        m.files.insert(
            stored.clone(),
            FileEntry {
                name: f["name"].as_str().unwrap().to_string(),
                size: f["size"].as_u64().unwrap(),
                extra: others(f.as_object().unwrap(), &["name", "size"]),
            },
        );
    }
    for (stored, d) in top["folders"].as_object().unwrap() {
        m.folders.insert(
            stored.clone(),
            FolderEntry {
                name: d["name"].as_str().unwrap().to_string(),
                size: d["size"].as_u64(),
                esize: d["esize"].as_u64(),
                computed: d["computed"].as_i64(),
                extra: others(d.as_object().unwrap(), &["name", "size", "esize", "computed"]),
            },
        );
    }
    m
}

#[test]
fn hash_entry_is_64_upper_hex() {
    let h = hash_entry("SOMEBASE32HEXCIPHERTEXT");
    assert_eq!(h.len(), 64);
    assert!(h
        .chars()
        .all(|c| c.is_ascii_digit() || ('A'..='F').contains(&c)));
    // Deterministic: same input -> same on-disk name (this is what preserves
    // O(1) lookup without reading the manifest).
    assert_eq!(h, hash_entry("SOMEBASE32HEXCIPHERTEXT"));
    assert_ne!(h, hash_entry("DIFFERENT"));
}

#[test]
fn hash_entry_is_the_sha256() {
    assert_eq!(
        hash_entry("abc"),
        "BA7816BF8F01CFEA414140DE5DAE2223B00361A396177A9CB410FF61F20015AD"
    );
}

#[test]
fn manifest_key_never_collides_with_a_hash() {
    // A hashed name is [0-9A-F] only, so it can never equal ".rse" and can
    // never contain '.'; the two namespaces are cleanly partitioned.
    let h = hash_entry("anything");
    assert!(!is_manifest_key(&h));
    assert!(!h.contains('.'));
    assert!(is_manifest_key(MANIFEST_KEY));
    assert!(is_manifest_key(".rse/")); // folder-style trailing slash
}

#[test]
fn encrypt_decrypt_roundtrip() {
    let k = keys();
    let mut m = Manifest::default();
    m.upsert_file("ENCNAME1", "movie.mkv", 2_346_645_648);
    m.upsert_folder("ENCFOLDER1", "Holiday Photos");

    let blob = m.encrypt(&k).unwrap();
    let back = read(&Manifest::decrypt(&k, &blob).unwrap());
    assert_eq!(back, m);
    // Wrong key must fail to decrypt, not return garbage.
    let other = derive_keys("different", b"0123456789abcdef").unwrap();
    assert!(Manifest::decrypt(&other, &blob).is_err());
    assert!(matches!(
        Manifest::decrypt(&other, &blob),
        Err(ManifestError::Decrypting(_))
    ));
    assert_eq!(
        Manifest::decrypt(&other, &blob).unwrap_err().message(),
        "decrypting directory manifest"
    );
}

#[test]
fn upsert_and_lookup() {
    let mut m = Manifest::default();
    m.upsert_file("ENC_A", "a.txt", 10);
    m.upsert_folder("ENC_B", "subdir");

    assert_eq!(m.name_for(&hash_entry("ENC_A")), Some("a.txt"));
    assert_eq!(m.name_for(&hash_entry("ENC_B")), Some("subdir"));
    assert_eq!(m.name_for("nonexistent"), None);

    // Re-upserting a file overwrites name/size.
    m.upsert_file("ENC_A", "a-renamed.txt", 20);
    assert_eq!(m.name_for(&hash_entry("ENC_A")), Some("a-renamed.txt"));
    assert_eq!(m.files.get(&hash_entry("ENC_A")).unwrap().size, 20);
}

#[test]
fn folder_size_is_cached_and_preserved() {
    let mut m = Manifest::default();
    m.upsert_folder("ENC_F", "big");
    // Null until computed.
    let f = m.folders.get(&hash_entry("ENC_F")).unwrap();
    assert!(f.size.is_none() && f.esize.is_none() && f.computed.is_none());

    m.set_folder_size("ENC_F", 1000, 1100, 1_785_179_569_512);
    let f = m.folders.get(&hash_entry("ENC_F")).unwrap();
    assert_eq!(f.size, Some(1000));
    assert_eq!(f.esize, Some(1100));
    assert_eq!(f.computed, Some(1_785_179_569_512));

    // Re-upserting the folder (e.g. on a fresh listing) must NOT wipe the
    // cached size - only the name is refreshed.
    m.upsert_folder("ENC_F", "big");
    let f = m.folders.get(&hash_entry("ENC_F")).unwrap();
    assert_eq!(f.size, Some(1000));
}

#[test]
fn remove_entries() {
    let mut m = Manifest::default();
    m.upsert_file("ENC_A", "a", 1);
    m.upsert_folder("ENC_B", "b");
    assert!(m.remove("ENC_A"));
    assert!(m.remove("ENC_B"));
    assert!(!m.remove("ENC_A")); // already gone
    assert!(m.files.is_empty() && m.folders.is_empty());
}

#[test]
fn forward_compat_extra_fields_survive() {
    // Simulate a future writer that added fields at every level, then make
    // sure an older reader round-trips them without loss.
    let (a, b) = (hash_entry("ENC_A"), hash_entry("ENC_B"));
    let future = format!(
        "{{\"version\":1,\"newtoplevel\":{{\"experimental\":true}},\
         \"files\":{{\"{a}\":{{\"name\":\"a.txt\",\"size\":10,\"mtime\":1785179569}}}},\
         \"folders\":{{\"{b}\":{{\"name\":\"b\",\"size\":null,\"esize\":null,\
         \"computed\":null,\"tags\":[\"archive\"]}}}}}}"
    );
    let m = read(future.as_bytes());

    // Known fields parsed correctly...
    assert_eq!(m.files.get(&a).unwrap().name, "a.txt");
    // ...and unknown fields preserved on re-serialize.
    let reser: Value = serde_json::from_str(&m.to_json()).unwrap();
    assert_eq!(reser["newtoplevel"]["experimental"], true);
    assert_eq!(reser["files"][&a]["mtime"], 1785179569);
    assert_eq!(reser["folders"][&b]["tags"][0], "archive");
    assert_eq!(reser, serde_json::from_str::<Value>(&future).unwrap());
}

#[test]
fn json_escapes_what_it_must() {
    let mut m = Manifest::default();
    let name = "\u{0}\u{8}\t\n\u{b}\u{c}\r\u{1f} \"/\\\u{7f}\u{e9}";
    m.upsert_file("abc", name, 0);
    let h = hash_entry("abc");
    assert_eq!(
        m.to_json(),
        format!(
            "{{\"version\":1,\"files\":{{\"{h}\":{{\"name\":\"\\u0000\\b\\t\\n\\u000b\\f\\r\
             \\u001f \\\"/\\\\\u{7f}\u{e9}\",\"size\":0}}}},\"folders\":{{}}}}"
        )
    );
    assert_eq!(read(m.to_json().as_bytes()), m);
}

#[test]
fn no_name_reads_as_fields() {
    let mut m = Manifest::default();
    m.upsert_file("a", "x\",\"size\":9,\"y\":\"", 1);
    m.upsert_file("b", "}},{\\\"", 2);
    m.upsert_folder("c", "],:[");
    m.extra.insert("q".to_string(), "[{\"a,b\":\"}\"},null]".to_string());
    assert_eq!(read(m.to_json().as_bytes()), m);
    let mut other = m.clone();
    other.extra.insert("q".to_string(), "[{\"a,b\":\"]\"},null]".to_string());
    assert_ne!(other.to_json(), m.to_json());
    assert_ne!(read(other.to_json().as_bytes()), m);
}

#[test]
fn a_copy_records_the_same() {
    let mut m = Manifest::default();
    m.upsert_file("a", "one", 1);
    m.upsert_file("b", "two", 2);
    m.upsert_folder("c", "three");
    m.extra.insert("x".to_string(), "[1]".to_string());
    let copy = m.clone();
    assert_eq!(copy, m);
    assert_eq!(copy.files.get(&hash_entry("a")).unwrap().size, 1);
    assert_eq!(copy.files.get(&hash_entry("b")).unwrap().size, 2);
    assert_eq!(copy.to_json(), m.to_json());
}

#[test]
fn json_form_is_exact() {
    let mut m = Manifest::default();
    assert_eq!(m.to_json(), "{\"version\":1,\"files\":{},\"folders\":{}}");
    m.upsert_file("abc", "a \"b\"\n", 7);
    m.upsert_folder("abc", "d");
    m.set_folder_size("abc", 1, 2, -3);
    let h = hash_entry("abc");
    assert_eq!(
        m.to_json(),
        format!(
            "{{\"version\":1,\"files\":{{\"{h}\":{{\"name\":\"a \\\"b\\\"\\n\",\"size\":7}}}},\
             \"folders\":{{\"{h}\":{{\"name\":\"d\",\"size\":1,\"esize\":2,\"computed\":-3}}}}}}"
        )
    );
}

#[test]
fn fingerprint_tracks_changes() {
    // The flush scheduler writes only when the fingerprint changes, so equal
    // content must fingerprint equal and any change must differ.
    let mut m = Manifest::default();
    let fp0 = m.fingerprint();

    m.upsert_file("ENC_A", "a", 1);
    let fp1 = m.fingerprint();
    assert_ne!(fp0, fp1);

    // Idempotent upsert -> identical manifest -> identical fingerprint
    // (this is what prevents redundant timer writes).
    let mut m2 = Manifest::default();
    m2.upsert_file("ENC_A", "a", 1);
    assert_eq!(m.fingerprint(), m2.fingerprint());

    m.upsert_file("ENC_A", "a", 2); // size change
    assert_ne!(fp1, m.fingerprint());
}

#[test]
fn fingerprint_does_not_depend_on_the_order_of_edits() {
    let mut a = Manifest::default();
    let mut b = Manifest::default();
    a.upsert_file("X", "x", 1);
    a.upsert_file("Y", "y", 2);
    b.upsert_file("Y", "y", 2);
    b.upsert_file("X", "x", 1);
    assert_eq!(a, b);
    assert_eq!(a.fingerprint(), b.fingerprint());
}

#[test]
fn rename_file_preserves_size_and_rekeys() {
    let mut m = Manifest::default();
    m.upsert_file("ENC_a.txt", "a.txt", 4096);
    // Rename a.txt -> b.txt: old hash gone, new hash present, size kept, name updated.
    assert!(m.rename_entry("ENC_a.txt", "ENC_b.txt", "b.txt"));
    assert_eq!(m.name_for(&hash_entry("ENC_a.txt")), None);
    let e = m.files.get(&hash_entry("ENC_b.txt")).unwrap();
    assert_eq!(e.name, "b.txt");
    assert_eq!(e.size, 4096);
    // Renaming something absent is a no-op returning false.
    assert!(!m.rename_entry("ENC_missing", "ENC_x", "x"));
}

#[test]
fn rename_folder_preserves_cached_sizes() {
    let mut m = Manifest::default();
    m.upsert_folder("ENC_photos", "photos");
    m.set_folder_size("ENC_photos", 10_000, 11_000, 1_785_000_000_000);
    // Rename photos -> pics: cached recursive sizes must survive the re-key.
    assert!(m.rename_entry("ENC_photos", "ENC_pics", "pics"));
    assert!(m.folders.get(&hash_entry("ENC_photos")).is_none());
    let f = m.folders.get(&hash_entry("ENC_pics")).unwrap();
    assert_eq!(f.name, "pics");
    assert_eq!(f.size, Some(10_000));
    assert_eq!(f.esize, Some(11_000));
    assert_eq!(f.computed, Some(1_785_000_000_000));
}

#[test]
fn move_file_between_manifests() {
    let mut src = Manifest::default();
    let mut dest = Manifest::default();
    src.upsert_file("ENC_clip.mkv", "clip.mkv", 9_999);

    // Take from source, insert into destination under the same encrypted name
    // (a move keeps the name, hence the same hash).
    let entry = src.take_file("ENC_clip.mkv").expect("present in source");
    assert_eq!(entry.size, 9_999);
    dest.insert_file_entry("ENC_clip.mkv", entry);

    assert!(src.files.is_empty());
    assert_eq!(dest.name_for(&hash_entry("ENC_clip.mkv")), Some("clip.mkv"));
    assert_eq!(
        dest.files.get(&hash_entry("ENC_clip.mkv")).unwrap().size,
        9_999
    );
}

#[test]
fn move_folder_between_manifests_keeps_cache() {
    let mut src = Manifest::default();
    let mut dest = Manifest::default();
    src.upsert_folder("ENC_docs", "docs");
    src.set_folder_size("ENC_docs", 500, 550, 1_785_000_000_001);

    let entry = src.take_folder("ENC_docs").expect("present");
    dest.insert_folder_entry("ENC_docs", entry);

    assert!(src.folders.is_empty());
    let f = dest.folders.get(&hash_entry("ENC_docs")).unwrap();
    assert_eq!(f.name, "docs");
    assert_eq!(f.size, Some(500)); // cached size travels with the move
}

#[test]
fn take_entry_dispatches_file_or_folder() {
    let mut m = Manifest::default();
    m.upsert_file("EF", "f.txt", 42);
    m.upsert_folder("ED", "d");
    m.set_folder_size("ED", 7, 8, 9);

    match m.take_entry("EF") {
        Some(Entry::File(f)) => {
            assert_eq!(f.name, "f.txt");
            assert_eq!(f.size, 42);
        }
        _ => panic!("expected a file"),
    }
    match m.take_entry("ED") {
        Some(Entry::Folder(d)) => {
            assert_eq!(d.name, "d");
            assert_eq!(d.size, Some(7)); // cached sizes ride along
        }
        _ => panic!("expected a folder"),
    }
    assert!(m.take_entry("EF").is_none()); // already taken
    assert!(m.files.is_empty() && m.folders.is_empty());
}

#[test]
fn take_then_insert_is_lossless_across_manifests() {
    let mut src = Manifest::default();
    let mut dest = Manifest::default();
    src.upsert_folder("ED", "docs");
    src.set_folder_size("ED", 500, 550, 1_785_000_000_002);

    let taken = src.take_entry("ED").expect("present");
    dest.insert_entry("ED", taken);

    assert!(src.folders.is_empty());
    let f = dest.folders.get(&hash_entry("ED")).unwrap();
    assert_eq!(f.name, "docs");
    assert_eq!(f.size, Some(500));
    assert_eq!(f.esize, Some(550));
    assert_eq!(f.computed, Some(1_785_000_000_002));
}
