use rabbit_storage_explorer::crypto::{derive_keys, encrypt_name, VaultKeys, VAULT_KEY};
use rabbit_storage_explorer::dir_view::on_disk_segment;
use rabbit_storage_explorer::manifest::{hash_entry, Manifest};
use rabbit_storage_explorer::manifest_store::Edit;
use rabbit_storage_explorer::settings::BackendKind;
use rabbit_storage_explorer::storage::entries::{RawObject, RemoteEntry};
use rabbit_storage_explorer::worker::folder::{
    calculate_size, computed_at, size_record, FolderInfoError, FolderWalk,
};
use rabbit_storage_explorer::worker::listing::{list, raw_to_entry, user_objects};
use rabbit_storage_explorer::worker::operations::{
    after_delete, check_free, create_folder, delete_keys, moved_record, plan_move, plan_rename,
    valid_name, RenameError, RenamePlan,
};
use rabbit_storage_explorer::worker::sizes::wire_len;

fn keys() -> VaultKeys {
    derive_keys("hunter2", b"0123456789abcdef").unwrap()
}

fn object(key: &str, size: u64) -> RawObject {
    RawObject {
        key: key.to_string(),
        size,
        modified: Some(5),
        is_prefix: key.ends_with('/'),
    }
}

fn item(key: &str, name: &str) -> RemoteEntry {
    RemoteEntry {
        key: key.to_string(),
        name: name.to_string(),
        is_dir: key.ends_with('/'),
        size: 0,
        modified: None,
        encrypted: None,
    }
}

#[test]
fn plain_listing_hides_the_vault() {
    let raw = vec![
        object("p/b.txt", 2),
        object("p/.rse-vault", 9),
        object("p/A/", 0),
        object("p/.rse", 1),
    ];
    assert_eq!(user_objects(&raw).len(), 3);
    let shown = list(&raw, None);
    assert!(shown.notice.is_none());
    let names: Vec<&str> = shown.entries.iter().map(|e| e.name.as_str()).collect();
    assert_eq!(names, vec!["A", ".rse", "b.txt"]);
    assert_eq!(shown.entries[2].size, 2);
    assert_eq!(shown.entries[2].modified, Some(5));
    assert_eq!(shown.entries[2].encrypted, None);
    assert_eq!(VAULT_KEY, ".rse-vault");
}

#[test]
fn encrypted_listing_tells_of_lost_names() {
    let k = keys();
    let enc = encrypt_name(&k, "a.txt").unwrap();
    let mut m = Manifest::default();
    m.upsert_file(&enc, "a.txt", 10);
    let lost = "0123456789ABCDEF".repeat(4);
    let raw = vec![
        object(&hash_entry(&enc), 38),
        object(&lost, 1),
        object(".rse", 1),
        object(".rse-vault", 1),
        object("readme", 4),
    ];
    let shown = list(&raw, Some(&m));
    let names: Vec<&str> = shown.entries.iter().map(|e| e.name.as_str()).collect();
    assert_eq!(names, vec!["[unrecovered] 0123456789ABCDEF", "a.txt", "readme"]);
    assert_eq!(
        shown.notice.unwrap(),
        "1 item(s) here lost their names (interrupted upload); re-upload to restore"
    );
    let shown = list(&raw[..1].to_vec(), Some(&m));
    assert!(shown.notice.is_none());
    assert_eq!((shown.entries[0].size, shown.entries[0].encrypted), (10, Some(true)));
}

#[test]
fn entries_of_single_objects() {
    let k = keys();
    let enc = encrypt_name(&k, "docs").unwrap();
    let e = raw_to_entry(&object(&format!("p/{enc}/"), 0), Some(&k));
    assert_eq!((e.name.as_str(), e.is_dir, e.encrypted), ("docs", true, Some(true)));
    let e = raw_to_entry(&object("p/plain", 3), Some(&k));
    assert_eq!((e.name.as_str(), e.size, e.encrypted), ("plain", 3, Some(false)));
    assert_eq!(raw_to_entry(&object("p/plain", 3), None).encrypted, None);
}

#[test]
fn folders_are_created_by_backend() {
    let plan = create_folder(None, BackendKind::S3, "p/", "new");
    assert_eq!(plan.key, "p/new/");
    assert_eq!(plan.marker.as_deref(), Some("p/new/"));
    assert!(plan.prepare.is_none() && plan.edit.is_none());
    let k = keys();
    let plan = create_folder(Some(&k), BackendKind::Smb, "p/", "new");
    let enc = encrypt_name(&k, "new").unwrap();
    assert_eq!(plan.key, format!("p/{}/", hash_entry(&enc)));
    assert!(plan.marker.is_none());
    assert_eq!(plan.prepare.unwrap(), format!("p/{}/x", hash_entry(&enc)));
    assert!(matches!(
        plan.edit,
        Some(Edit::UpsertFolder { encrypted, name }) if encrypted == enc && name == "new"
    ));
}

#[test]
fn deletions_take_what_is_below() {
    let items = vec![item("a.txt", "a.txt"), item("d/", "d"), item("e/", "e")];
    let below = vec![
        vec![object("ignored", 1)],
        vec![object("d/x", 1), object("d/.rse", 1)],
        vec![],
    ];
    assert_eq!(
        delete_keys(&items, &below),
        vec!["a.txt", "d/x", "d/.rse", "d/", "e/"]
    );
}

#[test]
fn deleted_items_leave_the_manifests() {
    let k = keys();
    let enc = encrypt_name(&k, "docs").unwrap();
    let f = after_delete(&k, &item("p/HASH/", "docs"));
    assert_eq!(f.dir, "p/");
    assert!(matches!(&f.edit, Edit::Remove { encrypted } if *encrypted == enc));
    assert_eq!(f.forget.as_deref(), Some("p/HASH/"));
    let f = after_delete(&k, &item("HASH", "docs"));
    assert_eq!(f.dir, "");
    assert!(f.forget.is_none());
}

#[test]
fn moves_keep_the_leaf() {
    let to = |key: &str, dest: &str| {
        plan_move(&item(key, "n"), dest).map(|r| format!("{}>{}", r.from, r.to))
    };
    assert_eq!(to("a/f.txt", "b/").as_deref(), Some("a/f.txt>b/f.txt"));
    assert_eq!(to("a/f.txt", "").as_deref(), Some("a/f.txt>f.txt"));
    assert_eq!(to("a/f.txt", "a/"), None);
    assert_eq!(to("a/d/", "b/").as_deref(), Some("a/d/>b/d/"));
    assert_eq!(to("a/d/", "a/"), None);
    assert_eq!(to("a/d/", "a/d/"), None);
    assert_eq!(to("a/d/", "a/d/e/"), None);
    assert_eq!(to("a/d/", "a/dd/").as_deref(), Some("a/d/>a/dd/d/"));
    let k = keys();
    let (dir, enc) = moved_record(&k, &item("a/HASH", "f.txt"));
    assert_eq!(dir, "a/");
    assert_eq!(enc, encrypt_name(&k, "f.txt").unwrap());
    let slashless = RemoteEntry {
        is_dir: true,
        ..item("a/d", "d")
    };
    assert_eq!(plan_move(&slashless, "b/").unwrap().from, "a/d/");
}

#[test]
fn names_that_cannot_be() {
    assert!(valid_name("a b"));
    assert!(!valid_name(" \t"));
    assert!(!valid_name("a/b"));
    for name in ["", "  ", "a/b"] {
        let r = plan_rename(None, "a/f", false, "f", name, false);
        match r {
            Err(e) => assert_eq!(e.message(), "invalid name"),
            Ok(_) => panic!("renamed"),
        }
    }
}

#[test]
fn plain_renames() {
    let plan = |key: &str, is_dir: bool, name: &str| {
        match plan_rename(None, key, is_dir, "old", name, true).unwrap() {
            RenamePlan::Plain(r) => Some(format!("{}>{}", r.from, r.to)),
            RenamePlan::Nothing => None,
            RenamePlan::Encrypted { .. } => panic!("encrypted"),
        }
    };
    assert_eq!(plan("a/f", false, "g").as_deref(), Some("a/f>a/g"));
    assert_eq!(plan("a/f", false, "f"), None);
    assert_eq!(plan("a/d/", true, "e").as_deref(), Some("a/d/>a/e/"));
    assert_eq!(plan("a/d", true, "e").as_deref(), Some("a/d/>a/e/"));
    assert_eq!(plan("d/", true, "d"), None);
    let k = keys();
    assert!(matches!(
        plan_rename(Some(&k), "foreign", false, "foreign", "x", false).unwrap(),
        RenamePlan::Plain(r) if r.to == "x"
    ));
}

#[test]
fn encrypted_renames() {
    let k = keys();
    let key = format!("p/{}/", on_disk_segment(&k, "old").unwrap());
    let new = on_disk_segment(&k, "new").unwrap();
    match plan_rename(Some(&k), &key, true, "old", "new", true).unwrap() {
        RenamePlan::Encrypted {
            relocation,
            dir,
            new_hash,
            forget,
            old_encrypted,
            new_encrypted,
            name,
        } => {
            assert_eq!(relocation.from, key);
            assert_eq!(relocation.to, format!("p/{new}/"));
            assert_eq!(dir, "p/");
            assert_eq!(new_hash, new);
            assert_eq!(forget, Some(key.clone()));
            assert_eq!(old_encrypted, encrypt_name(&k, "old").unwrap());
            assert_eq!(new_encrypted, encrypt_name(&k, "new").unwrap());
            assert_eq!(name, "new");
        }
        _ => panic!("not encrypted"),
    }
    assert!(matches!(
        plan_rename(Some(&k), &key, true, "old", "old", true).unwrap(),
        RenamePlan::Nothing
    ));
    let mut m = Manifest::default();
    assert!(check_free(&m, &new, "new").is_ok());
    m.upsert_folder(&encrypt_name(&k, "new").unwrap(), "new");
    match check_free(&m, &new, "new") {
        Err(e) => {
            assert!(matches!(&e, RenameError::Taken(n) if n == "new"));
            assert_eq!(e.message(), "an item named \"new\" already exists here");
        }
        Ok(()) => panic!("free"),
    }
}

#[test]
fn sizes_below_a_folder() {
    let objects = vec![
        object("d/a", wire_len(100)),
        object("d/.rse", 500),
        object("d/e/b", wire_len(7)),
        object("d/.rse-vault", 500),
        object("d/e/", 0),
    ];
    assert_eq!(calculate_size(true, &objects), (107, wire_len(100) + wire_len(7)));
    assert_eq!(
        calculate_size(false, &objects),
        (wire_len(100) + wire_len(7), wire_len(100) + wire_len(7))
    );
    let huge = vec![object("a", u64::MAX), object("b", 5)];
    assert_eq!(calculate_size(false, &huge), (u64::MAX, u64::MAX));
    let k = keys();
    let (dir, edit) = size_record(&k, "p/HASH/", "docs", 1, 2, 3);
    assert_eq!(dir, "p/");
    assert!(matches!(
        edit,
        Edit::SetFolderSize { encrypted, plain: 1, stored: 2, computed: 3 }
            if encrypted == encrypt_name(&k, "docs").unwrap()
    ));
}

#[test]
fn folder_walk_breaks_a_folder_down() {
    let k = keys();
    let (ea, eb, ed) = (
        encrypt_name(&k, "a.txt").unwrap(),
        encrypt_name(&k, "b.txt").unwrap(),
        encrypt_name(&k, "sub").unwrap(),
    );
    let (ha, hb, hd) = (hash_entry(&ea), hash_entry(&eb), hash_entry(&ed));
    let mut root = Manifest::default();
    root.upsert_file(&ea, "a.txt", 10);
    root.upsert_folder(&ed, "sub");
    let mut sub = Manifest::default();
    sub.upsert_file(&eb, "b.txt", 2000);

    assert!(matches!(
        FolderWalk::new(None, "p/F"),
        Err(FolderInfoError::NotEncrypted)
    ));
    assert_eq!(
        FolderInfoError::NotEncrypted.message(),
        "folder info is only available for encrypted folders"
    );
    let mut walk = FolderWalk::new(Some(&k), "p/F").unwrap();
    let at = walk.next_dir().unwrap();
    assert_eq!((at.dir.as_str(), at.rel.as_str()), ("p/F/", ""));
    walk.visit(
        &at,
        &root,
        &vec![
            object(&format!("p/F/{ha}"), wire_len(10)),
            object(&format!("p/F/{hd}/"), 0),
            object("p/F/.rse", 99),
            object("p/F/foreign", wire_len(1)),
        ],
    );
    let at = walk.next_dir().unwrap();
    assert_eq!(at.dir, format!("p/F/{hd}/"));
    assert_eq!(at.rel, "sub");
    walk.visit(
        &at,
        &sub,
        &vec![object(&format!("p/F/{hd}/{hb}"), wire_len(2000))],
    );
    assert!(walk.next_dir().is_none());
    let info = walk.finish("F", Some(42));
    assert_eq!((info.file_count, info.folder_count), (3, 1));
    assert_eq!(info.plaintext_total, 2011);
    assert_eq!(info.encrypted_total, wire_len(10) + wire_len(1) + wire_len(2000));
    assert_eq!(info.computed, Some(42));
    assert_eq!(info.name, "F");
    let rows: Vec<(&str, u64)> = info
        .files
        .iter()
        .map(|f| (f.rel_path.as_str(), f.plaintext))
        .collect();
    assert_eq!(rows, vec![("sub/b.txt", 2000), ("a.txt", 10), ("foreign", 1)]);
}

#[test]
fn time_of_the_last_size() {
    let k = keys();
    let enc = encrypt_name(&k, "docs").unwrap();
    let mut m = Manifest::default();
    assert_eq!(computed_at(&k, &m, "docs"), None);
    m.upsert_folder(&enc, "docs");
    assert_eq!(computed_at(&k, &m, "docs"), None);
    m.set_folder_size(&enc, 1, 2, 33);
    assert_eq!(computed_at(&k, &m, "docs"), Some(33));
}
