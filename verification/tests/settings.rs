use rabbit_storage_explorer::key_map::KeyMap;
use rabbit_storage_explorer::settings::{
    known_host, remember_host, BackendKind, ConnectionProfile, Settings, KEYRING_SERVICE,
};

fn named(name: &str, bucket: &str) -> ConnectionProfile {
    ConnectionProfile {
        name: name.to_string(),
        bucket: bucket.to_string(),
        ..ConnectionProfile::default()
    }
}

#[test]
fn defaults_are_the_documented_ones() {
    let s = Settings::default();
    assert_eq!(s.upload_parallelism, 12);
    assert_eq!(s.download_parallelism, 6);
    assert_eq!(s.multipart_threshold_mib, 64);
    assert_eq!(s.part_size_mib, 16);
    assert_eq!(s.retries, 500_000);
    assert_eq!(s.reconnect_interval_secs, 3);
    assert_eq!(s.manifest_flush_secs, 10);
    assert_eq!(Settings::load(None), s);
    let stored = Settings { retries: 2, ..s };
    assert_eq!(Settings::load(Some(stored)), stored);
    assert_eq!(KEYRING_SERVICE, "rabbit-storage-explorer");
}

#[test]
fn settings_in_bytes_and_milliseconds() {
    let s = Settings::default();
    assert_eq!(s.threshold_bytes(), 64 * 1024 * 1024);
    assert_eq!(s.part_bytes(), 16 * 1024 * 1024);
    assert_eq!(s.reconnect_ms(), 3000);
    assert_eq!(s.flush_ms(), 10_000);
    let low = Settings {
        part_size_mib: 1,
        reconnect_interval_secs: 0,
        manifest_flush_secs: 0,
        ..s
    };
    assert_eq!(low.part_bytes(), 5 * 1024 * 1024);
    assert_eq!(low.reconnect_ms(), 1000);
    assert_eq!(low.flush_ms(), 1000);
    let endless = Settings { manifest_flush_secs: u64::MAX, ..low };
    assert_eq!(endless.flush_ms(), u64::MAX - 999);
}

#[test]
fn profile_defaults() {
    let p = ConnectionProfile::default();
    assert_eq!(p.kind, BackendKind::S3);
    assert_eq!(p.port, 22);
    assert!(p.nfs_privileged_port);
    assert_eq!((p.nfs_uid, p.nfs_gid), (1000, 1000));
    assert!(!p.e2ee);
}

#[test]
fn upsert_replaces_by_name_or_appends() {
    let mut list = vec![named("a", "one"), named("b", "two")];
    ConnectionProfile::upsert(&mut list, named("a", "three"));
    ConnectionProfile::upsert(&mut list, named("c", "four"));
    let seen: Vec<(&str, &str)> = list
        .iter()
        .map(|p| (p.name.as_str(), p.bucket.as_str()))
        .collect();
    assert_eq!(seen, vec![("a", "three"), ("b", "two"), ("c", "four")]);
}

#[test]
fn removed_profile_is_gone() {
    let list = vec![named("a", "one"), named("b", "two"), named("a", "three")];
    let left = ConnectionProfile::remove(list, "a");
    assert_eq!(left.len(), 1);
    assert_eq!(left[0].name, "b");
}

#[test]
fn labels_by_kind() {
    let mut p = ConnectionProfile {
        bucket: "photos".to_string(),
        host: "nas".to_string(),
        username: "ziga".to_string(),
        root_path: "/srv/nfs".to_string(),
        share: "public".to_string(),
        ..ConnectionProfile::default()
    };
    assert_eq!(p.label(), "photos");
    p.kind = BackendKind::Sftp;
    assert_eq!(p.label(), "ziga@nas");
    p.kind = BackendKind::Nfs;
    assert_eq!(p.label(), "nas:/srv/nfs");
    p.kind = BackendKind::Smb;
    assert_eq!(p.label(), "nas/public");
}

#[test]
fn hosts_are_remembered() {
    let mut hosts: KeyMap<String> = KeyMap::new();
    assert!(known_host(&hosts, "nas:22").is_none());
    remember_host(&mut hosts, "nas:22", "SHA256:abc");
    assert_eq!(known_host(&hosts, "nas:22").unwrap(), "SHA256:abc");
    remember_host(&mut hosts, "nas:22", "SHA256:def");
    assert_eq!(known_host(&hosts, "nas:22").unwrap(), "SHA256:def");
    assert!(known_host(&hosts, "nas:2222").is_none());
}

#[test]
fn key_map_keeps_the_order_of_keys() {
    let mut map: KeyMap<String> = KeyMap::new();
    assert!(map.is_empty());
    for key in ["b", "", "a", "é", "B", "ab"] {
        assert!(map.insert(key.to_string(), key.to_uppercase()).is_none());
    }
    assert_eq!(map.insert("a".to_string(), "x".to_string()), Some("A".to_string()));
    assert_eq!(map.len(), 6);
    let keys: Vec<&str> = (0..map.len()).map(|i| map.key_at(i).as_str()).collect();
    assert_eq!(keys, vec!["", "B", "a", "ab", "b", "é"]);
    assert_eq!(map.value_at(2), "x");
    assert_eq!(map.get("ab"), Some(&"AB".to_string()));
    assert_eq!(map.get("abc"), None);
    assert_eq!(map.remove("b"), Some("B".to_string()));
    assert_eq!(map.remove("b"), None);
    assert_eq!(map.clone(), map);
    assert_eq!(map.len(), 5);
}

#[test]
fn saved_profiles_and_the_single_one_of_old() {
    let old = ConnectionProfile {
        endpoint: "https://s3.example.com".to_string(),
        ..named("default", "photos")
    };
    let (list, migrated) = ConnectionProfile::load_all(Vec::new(), old.clone());
    assert_eq!(list, vec![old.clone()]);
    assert!(migrated);
    let (list, migrated) = ConnectionProfile::load_all(vec![named("a", "one")], old);
    assert_eq!(list, vec![named("a", "one")]);
    assert!(!migrated);
    let (list, migrated) = ConnectionProfile::load_all(Vec::new(), named("x", "y"));
    assert!(list.is_empty());
    assert!(!migrated);
    let (list, migrated) = ConnectionProfile::load_all(Vec::new(), ConnectionProfile::default());
    assert!(list.is_empty());
    assert!(!migrated);
}
