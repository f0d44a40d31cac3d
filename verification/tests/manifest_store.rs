use rabbit_storage_explorer::crypto::{derive_keys, VaultKeys};
use rabbit_storage_explorer::manifest::{hash_entry, Manifest};
use rabbit_storage_explorer::manifest_store::{
    Edit, FlushCandidate, FlushPlan, FlushReason, ManifestStore,
};

fn keys() -> VaultKeys {
    derive_keys("hunter2", b"0123456789abcdef").unwrap()
}

fn candidate(dir: &str, fingerprint: u64, written: Option<u64>, since: u64) -> FlushCandidate<'_> {
    FlushCandidate {
        dir,
        fingerprint,
        written_fingerprint: written,
        since_change: since,
    }
}

fn upsert(enc: &str, name: &str, size: u64) -> Edit {
    Edit::UpsertFile {
        encrypted: enc.to_string(),
        name: name.to_string(),
        size,
    }
}

#[test]
fn timer_selects_quiet_and_changed() {
    let candidates = vec![
        candidate("quiet/", 2, Some(1), 10_000),
        candidate("busy/", 2, Some(1), 9_999),
        candidate("same/", 1, Some(1), 60_000),
        candidate("new/", 7, None, 10_001),
    ];
    assert_eq!(
        FlushPlan::select(FlushReason::Timer, 10_000, &candidates),
        vec!["quiet/", "new/"]
    );
}

#[test]
fn forced_selects_all_changes() {
    let candidates = vec![
        candidate("busy/", 2, Some(1), 0),
        candidate("same/", 1, Some(1), 60_000),
        candidate("new/", 7, None, 0),
    ];
    assert_eq!(
        FlushPlan::select(FlushReason::Forced, 10_000, &candidates),
        vec!["busy/", "new/"]
    );
}

#[test]
fn edits_wait_for_the_interval() {
    let k = keys();
    let mut store = ManifestStore::new(10_000);
    assert_eq!(store.interval(), 10_000);
    store.load("a/", Manifest::default(), 0);
    assert!(!store.is_dirty("a/"));
    assert!(store.flush(&k, FlushReason::Forced, 1).is_empty());

    assert!(store.edit("a/", upsert("ENC", "x.txt", 5), 1_000));
    assert!(store.is_dirty("a/"));
    assert!(store.flush(&k, FlushReason::Timer, 10_999).is_empty());
    let due = store.flush(&k, FlushReason::Timer, 11_000);
    assert_eq!(due.len(), 1);
    assert_eq!(due[0].dir, "a/");
    assert_eq!(due[0].key, "a/.rse");
    let json = Manifest::decrypt(&k, &due[0].blob).unwrap();
    assert_eq!(json, store.buffered("a/").unwrap().to_json().into_bytes());

    store.record_written("a/", due[0].fingerprint);
    assert!(!store.is_dirty("a/"));
    assert!(store.flush(&k, FlushReason::Forced, 99_000).is_empty());
}

#[test]
fn second_flush_writes_nothing() {
    let k = keys();
    let mut store = ManifestStore::new(10_000);
    for dir in ["c/", "a/", "b/", "d/"] {
        store.load(dir, Manifest::default(), 0);
    }
    store.edit("c/", upsert("ENC", "x.txt", 5), 1);
    store.edit("a/", upsert("ENC", "y.txt", 6), 2);
    store.edit(
        "d/",
        Edit::Remove {
            encrypted: "ENC".to_string(),
        },
        3,
    );
    let first = store.flush(&k, FlushReason::Forced, 4);
    let keys_written: Vec<&str> = first.iter().map(|w| w.key.as_str()).collect();
    assert_eq!(keys_written, vec!["a/.rse", "c/.rse"]);
    for w in &first {
        let json = Manifest::decrypt(&k, &w.blob).unwrap();
        assert_eq!(json, store.buffered(&w.dir).unwrap().to_json().into_bytes());
        store.record_written(&w.dir, w.fingerprint);
    }
    assert!(store.flush(&k, FlushReason::Forced, 5).is_empty());
    assert!(store.flush(&k, FlushReason::Timer, 99_000).is_empty());
}

#[test]
fn change_during_write_stays_dirty() {
    let k = keys();
    let mut store = ManifestStore::new(1_000);
    store.load("", Manifest::default(), 0);
    store.edit("", upsert("ENC", "x.txt", 5), 0);
    let due = store.flush(&k, FlushReason::Forced, 0);
    assert_eq!(due[0].key, ".rse");
    store.edit("", upsert("ENC2", "y.txt", 6), 1);
    store.record_written("", due[0].fingerprint);
    assert!(store.is_dirty(""));
    assert_eq!(store.flush(&k, FlushReason::Forced, 2).len(), 1);
}

#[test]
fn edit_that_changes_nothing_is_not_written() {
    let k = keys();
    let mut m = Manifest::default();
    m.upsert_file("ENC", "x.txt", 5);
    let mut store = ManifestStore::new(1_000);
    store.load("a/", m, 0);
    store.edit("a/", upsert("ENC", "x.txt", 5), 1);
    assert!(store.is_dirty("a/"));
    assert!(store.flush(&k, FlushReason::Forced, 2).is_empty());
}

#[test]
fn loading_does_not_replace_what_is_buffered() {
    let mut store = ManifestStore::new(1_000);
    store.load("a/", Manifest::default(), 0);
    store.edit("a/", upsert("ENC", "x.txt", 5), 1);
    store.load("a/", Manifest::default(), 2);
    assert_eq!(
        store.buffered("a/").unwrap().name_for(&hash_entry("ENC")),
        Some("x.txt")
    );
}

#[test]
fn unbuffered_directory_is_not_edited() {
    let mut store = ManifestStore::new(0);
    assert_eq!(store.interval(), 1);
    assert!(!store.edit("a/", upsert("ENC", "x.txt", 5), 1));
    assert!(store.buffered("a/").is_none());
    assert!(store.take_entry("a/", "ENC", 1).is_none());
}

#[test]
fn records_move_between_directories() {
    let mut store = ManifestStore::new(1_000);
    store.load("a/", Manifest::default(), 0);
    store.load("b/", Manifest::default(), 0);
    store.edit("a/", upsert("ENC", "x.txt", 5), 1);
    let entry = store.take_entry("a/", "ENC", 2).unwrap();
    assert!(store.insert_entry("b/", "ENC", entry, 3));
    let hash = hash_entry("ENC");
    assert_eq!(store.buffered("a/").unwrap().name_for(&hash), None);
    assert_eq!(store.buffered("b/").unwrap().name_for(&hash), Some("x.txt"));
    assert_eq!(store.buffered("b/").unwrap().files.get(&hash).unwrap().size, 5);
}

#[test]
fn every_edit_is_applied() {
    let mut store = ManifestStore::new(1_000);
    store.load("a/", Manifest::default(), 0);
    store.edit(
        "a/",
        Edit::UpsertFolder {
            encrypted: "DIR".to_string(),
            name: "docs".to_string(),
        },
        1,
    );
    store.edit(
        "a/",
        Edit::SetFolderSize {
            encrypted: "DIR".to_string(),
            plain: 10,
            stored: 38,
            computed: 7,
        },
        2,
    );
    let d = store.buffered("a/").unwrap().folders.get(&hash_entry("DIR")).unwrap();
    assert_eq!((d.size, d.esize, d.computed), (Some(10), Some(38), Some(7)));
    store.edit(
        "a/",
        Edit::Rename {
            encrypted: "DIR".to_string(),
            new_encrypted: "DIR2".to_string(),
            name: "papers".to_string(),
        },
        3,
    );
    let m = store.buffered("a/").unwrap();
    assert_eq!(m.name_for(&hash_entry("DIR")), None);
    assert_eq!(m.name_for(&hash_entry("DIR2")), Some("papers"));
    assert_eq!(m.folders.get(&hash_entry("DIR2")).unwrap().size, Some(10));
    store.edit(
        "a/",
        Edit::Remove {
            encrypted: "DIR2".to_string(),
        },
        4,
    );
    assert_eq!(store.buffered("a/").unwrap().name_for(&hash_entry("DIR2")), None);
}

#[test]
fn forgotten_directory_is_gone() {
    let k = keys();
    let mut store = ManifestStore::new(1_000);
    store.load("a/", Manifest::default(), 0);
    store.edit("a/", upsert("ENC", "x.txt", 5), 1);
    store.forget("a/");
    assert!(store.buffered("a/").is_none());
    assert!(!store.is_dirty("a/"));
    assert!(store.flush(&k, FlushReason::Forced, 2).is_empty());
    store.set_interval(5);
    assert_eq!(store.interval(), 5);
}

#[test]
fn writes_come_in_the_order_of_directories() {
    let k = keys();
    let mut store = ManifestStore::new(1_000);
    for dir in ["c/", "a/", "b/"] {
        store.load(dir, Manifest::default(), 0);
        store.edit(dir, upsert("ENC", "x.txt", 5), 1);
    }
    let due = store.flush(&k, FlushReason::Forced, 2);
    let dirs: Vec<&str> = due.iter().map(|w| w.dir.as_str()).collect();
    assert_eq!(dirs, vec!["a/", "b/", "c/"]);
}
