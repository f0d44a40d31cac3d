use rabbit_storage_explorer::crypto::{derive_keys, encrypt_name, VaultKeys};
use rabbit_storage_explorer::dir_view::{
    build_listing, leaf_of, looks_like_hash, on_disk_path, on_disk_segment, parent_prefix,
};
use rabbit_storage_explorer::manifest::{hash_entry, Manifest, MANIFEST_KEY};
use rabbit_storage_explorer::storage::entries::RawObject;

fn keys() -> VaultKeys {
    derive_keys("hunter2", b"0123456789abcdef").unwrap()
}

fn raw_file(key: &str, size: u64) -> RawObject {
    RawObject {
        key: key.to_string(),
        size,
        modified: Some(1000),
        is_prefix: false,
    }
}

fn raw_dir(key: &str) -> RawObject {
    RawObject {
        key: key.to_string(),
        size: 0,
        modified: Some(1000),
        is_prefix: true,
    }
}

#[test]
fn on_disk_naming_is_deterministic_and_hashed() {
    let k = keys();
    let a = on_disk_segment(&k, "vacation.jpg").unwrap();
    let b = on_disk_segment(&k, "vacation.jpg").unwrap();
    assert_eq!(a, b); // deterministic -> O(1) lookup
    assert!(looks_like_hash(&a));
    let enc = encrypt_name(&k, "vacation.jpg").unwrap();
    assert_eq!(a, hash_entry(&enc));
}

#[test]
fn on_disk_path_preserves_structure_and_trailing_slash() {
    let k = keys();
    let p = on_disk_path(&k, "photos/2024/summer/").unwrap();
    let segs: Vec<&str> = p.split('/').collect();
    // three hashed segments + a trailing empty from the final slash
    assert_eq!(segs.len(), 4);
    assert!(looks_like_hash(segs[0]) && looks_like_hash(segs[1]) && looks_like_hash(segs[2]));
    assert_eq!(segs[3], "");
    assert!(p.ends_with('/'));
}

#[test]
fn listing_resolves_names_and_plaintext_sizes() {
    let k = keys();
    let mut m = Manifest::default();
    // A file: encrypted name -> hash on disk, real name + plaintext size in manifest.
    let enc_file = encrypt_name(&k, "movie.mkv").unwrap();
    let file_hash = hash_entry(&enc_file);
    m.upsert_file(&enc_file, "movie.mkv", 5_000_000_000);
    // A folder with a computed recursive size.
    let enc_dir = encrypt_name(&k, "Holiday").unwrap();
    let dir_hash = hash_entry(&enc_dir);
    m.upsert_folder(&enc_dir, "Holiday");
    m.set_folder_size(&enc_dir, 9_000, 9_500, 1_785_000_000_000);

    let raw = vec![
        raw_file(
            &format!("prefix/{file_hash}"),
            4_999_999_000, /* ciphertext-ish */
        ),
        raw_dir(&format!("prefix/{dir_hash}/")),
        raw_file(&format!("prefix/{MANIFEST_KEY}"), 200), // must be hidden
    ];
    let listing = build_listing(&raw, &m);

    assert_eq!(listing.orphan_count, 0);
    assert_eq!(listing.entries.len(), 2); // .rse hidden

    // Folder sorts before file; check both resolved correctly.
    let folder = &listing.entries[0];
    assert!(folder.is_dir);
    assert_eq!(folder.name, "Holiday");
    assert_eq!(folder.size, 9_000); // cached plaintext recursive size
    assert_eq!(folder.encrypted, Some(true));

    let file = &listing.entries[1];
    assert!(!file.is_dir);
    assert_eq!(file.name, "movie.mkv");
    assert_eq!(file.size, 5_000_000_000); // manifest plaintext size, not raw
    assert_eq!(file.encrypted, Some(true));
}

#[test]
fn listing_surfaces_orphans() {
    let k = keys();
    let m = Manifest::default(); // empty: nothing is recorded

    let orphan_hash = hash_entry(&encrypt_name(&k, "lost.txt").unwrap());
    let raw = vec![raw_file(&format!("d/{orphan_hash}"), 123)];
    let listing = build_listing(&raw, &m);

    assert_eq!(listing.orphan_count, 1);
    assert_eq!(listing.entries.len(), 1);
    let e = &listing.entries[0];
    assert!(e.name.starts_with("[unrecovered]"));
    assert_eq!(e.encrypted, Some(false)); // badged distinctly from a known item
    assert!(e.key.ends_with(&orphan_hash));
    assert_eq!(e.name, format!("[unrecovered] {}", &orphan_hash[..16]));
    assert_eq!(e.size, 123);
}

#[test]
fn listing_distinguishes_foreign_from_orphan() {
    let m = Manifest::default();
    // A foreign object written by another tool: not hash-shaped.
    let raw = vec![raw_file("d/some-other-tool.bin", 42)];
    let listing = build_listing(&raw, &m);

    assert_eq!(listing.orphan_count, 0); // foreign, not orphan
    assert_eq!(listing.entries[0].name, "some-other-tool.bin");
    assert_eq!(listing.entries[0].encrypted, Some(false));
}

#[test]
fn parent_prefix_handles_files_folders_and_root() {
    assert_eq!(parent_prefix("dir/sub/ABC"), "dir/sub/");
    assert_eq!(parent_prefix("dir/sub/ABC/"), "dir/sub/"); // folder marker trimmed
    assert_eq!(parent_prefix("ABC"), ""); // file at root
    assert_eq!(parent_prefix("ABC/"), ""); // folder at root
    assert_eq!(parent_prefix(""), "");
}

#[test]
fn parent_prefix_composes_with_dest() {
    // The property the worker relies on when recording uploads / moves.
    let dest = "photos/2024/";
    let hash = "A".repeat(64);
    assert_eq!(parent_prefix(&format!("{dest}{hash}/")), dest);
    assert_eq!(parent_prefix(&format!("{dest}{hash}")), dest);
    assert_eq!(leaf_of(&format!("{dest}{hash}/")), hash);
}

#[test]
fn manifest_object_is_always_hidden() {
    let m = Manifest::default();
    let raw = vec![
        raw_file(MANIFEST_KEY, 100),
        raw_file(&format!("d/{MANIFEST_KEY}"), 100),
    ];
    let listing = build_listing(&raw, &m);
    assert!(listing.entries.is_empty());
}

#[test]
fn listing_is_sorted_without_regard_to_case() {
    let m = Manifest::default();
    let raw = vec![
        raw_file("d/zeta", 1),
        raw_file("d/Alpha", 2),
        raw_dir("d/ÜBER/"),
        raw_dir("d/beta/"),
        raw_file("d/alpha", 3),
    ];
    let names: Vec<String> = build_listing(&raw, &m)
        .entries
        .iter()
        .map(|e| e.name.clone())
        .collect();
    assert_eq!(names, ["beta", "ÜBER", "Alpha", "alpha", "zeta"]);
}
