use rabbit_storage_explorer::key_map::KeyMap;
use rabbit_storage_explorer::settings::{known_host, remember_host};
use rabbit_storage_explorer::storage::entries::{sort_entries, RawObject, RemoteEntry};
use rabbit_storage_explorer::storage::nfs::{export_path, next_cookie, Range, WriteCursor};
use rabbit_storage_explorer::storage::s3::{
    delete_batches, encode_copy_source, listed_page, next_page, piece_end, range_first, range_from,
    rename_copies, reported_size, total_len, StoredObject,
};
use rabbit_storage_explorer::storage::sftp::{
    by_password, check_host, expand_tilde, host_id, passphrase, root_input, session_root, HostCheck,
};
use rabbit_storage_explorer::storage::smb::{base_of, epoch, has_share, next_read, start_at};
use rabbit_storage_explorer::storage::stream::ChannelReader;
use rabbit_storage_explorer::storage::tree::{
    dirs_to, listed_children, new_key, parent_dirs, split_key, upload_id, ListedName, TreeWalk,
};
use rabbit_storage_explorer::storage::{sftp, smb};

fn object(key: &str, size: u64) -> RawObject {
    RawObject {
        key: key.to_string(),
        size,
        modified: None,
        is_prefix: key.ends_with('/'),
    }
}

fn entry(name: &str, is_dir: bool) -> RemoteEntry {
    RemoteEntry {
        key: name.to_string(),
        name: name.to_string(),
        is_dir,
        size: 0,
        modified: None,
        encrypted: None,
    }
}

fn texts(list: &[String]) -> Vec<&str> {
    list.iter().map(|s| s.as_str()).collect()
}

#[test]
fn directories_come_first_then_names_without_case() {
    let list = vec![
        entry("b.txt", false),
        entry("Zoo", true),
        entry("A.txt", false),
        entry("apes", true),
        entry("a.TXT", false),
        entry("Änderung", false),
    ];
    let shown: Vec<String> = sort_entries(&list).into_iter().map(|e| e.name).collect();
    assert_eq!(
        shown,
        vec!["apes", "Zoo", "A.txt", "a.TXT", "b.txt", "Änderung"]
    );
}

#[test]
fn channel_reader_hands_out_in_order() {
    let mut r = ChannelReader::new();
    assert_eq!(r.read(4), None);
    r.refill(vec![1, 2, 3, 4, 5]);
    assert_eq!(r.read(2), Some(vec![1, 2]));
    assert_eq!(r.read(0), Some(vec![]));
    assert_eq!(r.read(10), Some(vec![3, 4, 5]));
    assert_eq!(r.read(10), None);
    r.refill(vec![]);
    assert_eq!(r.read(1), None);
}

#[test]
fn children_of_a_listed_directory() {
    let name = |name: &str, is_dir: bool, size: Option<u64>, modified: Option<i64>| ListedName {
        name: name.to_string(),
        is_dir,
        size,
        modified,
    };
    let names = vec![
        name(".", true, Some(4096), None),
        name("b", true, Some(4096), Some(7)),
        name("..", true, None, None),
        name("f.txt", false, Some(12), None),
        name("g", false, None, None),
        name("...", false, Some(1), None),
    ];
    let found: Vec<(String, u64, Option<i64>, bool)> = listed_children("a/", &names)
        .into_iter()
        .map(|o| (o.key, o.size, o.modified, o.is_prefix))
        .collect();
    assert_eq!(
        found,
        vec![
            ("a/b/".to_string(), 0, Some(7), true),
            ("a/f.txt".to_string(), 12, None, false),
            ("a/g".to_string(), 0, None, false),
            ("a/...".to_string(), 1, None, false),
        ]
    );
    assert_eq!(listed_children("", &names)[1].key, "f.txt");
}

#[test]
fn nfs_listings_go_on() {
    assert_eq!(next_cookie(&vec![3, 9], false), Some(9));
    assert_eq!(next_cookie(&vec![3, 9], true), None);
    assert_eq!(next_cookie(&vec![], false), None);
}

#[test]
fn hosts_are_trusted_on_first_use() {
    let mut hosts: KeyMap<String> = KeyMap::new();
    let id = host_id("example.org", 22);
    let check = |hosts: &KeyMap<String>, id: &str, shown: &str| {
        let known = known_host(hosts, id);
        check_host(id, known.as_deref(), shown)
    };
    assert!(matches!(check(&hosts, &id, "SHA256:a"), HostCheck::Remember));
    remember_host(&mut hosts, &id, "SHA256:a");
    assert!(matches!(check(&hosts, &id, "SHA256:a"), HostCheck::Trusted));
    assert!(matches!(check(&hosts, &id, "SHA256:b"), HostCheck::Mismatch(_)));
    let other = host_id("example.org", 2222);
    assert!(matches!(check(&hosts, &other, "SHA256:b"), HostCheck::Remember));
}

#[test]
fn parents_of_a_key() {
    let paths = |key: &str| -> Vec<String> {
        parent_dirs(key).into_iter().map(|s| s.path).collect()
    };
    assert_eq!(paths("a/b/c.txt"), vec!["a", "a/b"]);
    assert_eq!(paths("a/b/"), vec!["a"]);
    assert!(paths("c.txt").is_empty());
    assert!(paths("").is_empty());
    assert_eq!(paths("/a/b"), vec!["", "a"]);
    let names: Vec<String> = parent_dirs("x/y/z").into_iter().map(|s| s.name).collect();
    assert_eq!(names, vec!["x", "y"]);
}

#[test]
fn way_to_a_directory() {
    let paths = |p: &str| -> Vec<String> { dirs_to(p).into_iter().map(|s| s.path).collect() };
    assert_eq!(paths("/a/b/"), vec!["a", "a/b"]);
    assert!(paths("/").is_empty());
    assert!(paths("").is_empty());
}

#[test]
fn keys_split_into_directory_and_name() {
    assert_eq!(split_key("a/b/c"), (Some("a/b".to_string()), "c".to_string()));
    assert_eq!(split_key("a/b/"), (Some("a".to_string()), "b".to_string()));
    assert_eq!(split_key("c"), (None, "c".to_string()));
    assert_eq!(split_key("/c"), (Some(String::new()), "c".to_string()));
}

#[test]
fn tree_walk_finds_files_and_removes_children_first() {
    let mut w = TreeWalk::new("a/");
    assert_eq!(w.next_dir().unwrap(), "a/");
    w.listed(&vec![object("a/b/", 0), object("a/x", 1), object("a/c/", 0)]);
    assert_eq!(w.next_dir().unwrap(), "a/c/");
    w.listed(&vec![object("a/c/y", 2)]);
    assert_eq!(w.next_dir().unwrap(), "a/b/");
    w.listed(&vec![object("a/b/d/", 0)]);
    assert_eq!(w.next_dir().unwrap(), "a/b/d/");
    w.listed(&vec![]);
    assert!(w.next_dir().is_none());
    assert_eq!(texts(&w.removal_order()), vec!["a/b/d/", "a/b/", "a/c/", "a/"]);
    let files: Vec<String> = w.files().into_iter().map(|o| o.key).collect();
    assert_eq!(files, vec!["a/x", "a/c/y"]);
}

#[test]
fn moved_trees_keep_what_is_below() {
    assert_eq!(new_key("a/b/c.txt", "a/b/", "z/"), "z/c.txt");
    assert_eq!(new_key("other", "a/b/", "z/"), "z/other");
    assert_eq!(new_key(&new_key("a/b/c.txt", "a/b/", "z/"), "z/", "a/b/"), "a/b/c.txt");
    assert_eq!(upload_id("sftp", 0), "sftp-0");
    assert_eq!(upload_id("nfs", 1024), "nfs-1024");
}

#[test]
fn copy_source_is_escaped() {
    assert_eq!(encode_copy_source("b", "a/b-c_d.e~f"), "b/a/b-c_d.e~f");
    assert_eq!(encode_copy_source("my bucket", "a b"), "my bucket/a%20b");
    assert_eq!(encode_copy_source("b", "50%+é"), "b/50%25%2B%C3%A9");
    assert_ne!(encode_copy_source("b", "a%20"), encode_copy_source("b", "a "));
}

#[test]
fn page_leaves_the_folder_marker_out() {
    let objects = vec![
        StoredObject {
            key: Some("p/".to_string()),
            size: Some(0),
            modified: None,
        },
        StoredObject {
            key: Some("p/a".to_string()),
            size: Some(-3),
            modified: Some(9),
        },
        StoredObject {
            key: None,
            size: Some(1),
            modified: None,
        },
        StoredObject {
            key: Some("p/b".to_string()),
            size: None,
            modified: None,
        },
    ];
    let page = listed_page("p/", &vec!["p/x/".to_string()], &objects);
    let seen: Vec<(&str, u64, Option<i64>, bool)> = page
        .iter()
        .map(|o| (o.key.as_str(), o.size, o.modified, o.is_prefix))
        .collect();
    assert_eq!(
        seen,
        vec![
            ("p/x/", 0, None, true),
            ("p/a", 0, Some(9), false),
            ("p/b", 0, None, false)
        ]
    );
}

#[test]
fn pages_go_on_while_truncated() {
    let token = || Some("t".to_string());
    assert_eq!(next_page(Some(true), token()), token());
    assert_eq!(next_page(Some(true), None), None);
    assert_eq!(next_page(Some(false), token()), None);
    assert_eq!(next_page(None, token()), None);
}

#[test]
fn deletions_go_in_batches() {
    let keys: Vec<String> = (0..2001).map(|i| format!("k{i}")).collect();
    let batches = delete_batches(&keys);
    let lens: Vec<usize> = batches.iter().map(|b| b.len()).collect();
    assert_eq!(lens, vec![1000, 1000, 1]);
    assert_eq!(batches.concat(), keys);
    assert!(delete_batches(&Vec::new()).is_empty());
    assert_eq!(delete_batches(&keys[..1000].to_vec()).len(), 1);
}

#[test]
fn ranges_and_lengths() {
    assert_eq!(range_from(1_048_604), "bytes=1048604-");
    assert_eq!(range_first(12), "bytes=0-11");
    assert_eq!(range_first(0), "bytes=0-0");
    assert_eq!(reported_size(Some(-1)), 0);
    assert_eq!(reported_size(Some(5)), 5);
    assert_eq!(total_len(10, Some(5)), 15);
    assert_eq!(total_len(10, None), 10);
    assert_eq!(piece_end(0, 100), 100);
    assert_eq!(piece_end(65536, 200_000), 131_072);
}

#[test]
fn folder_rename_copies_then_deletes() {
    let objects = vec![object("a/x", 1), object("a/b/y", 2)];
    let (copies, old) = rename_copies("a/", "z/", &objects);
    let pairs: Vec<(&str, &str)> = copies
        .iter()
        .map(|c| (c.from.as_str(), c.to.as_str()))
        .collect();
    assert_eq!(pairs, vec![("a/x", "z/x"), ("a/b/y", "z/b/y")]);
    assert_eq!(texts(&old), vec!["a/x", "a/b/y", "a/"]);
}

#[test]
fn host_keys_are_trusted_on_first_use() {
    let id = host_id("nas", 22);
    assert_eq!(id, "nas:22");
    assert!(matches!(check_host(&id, None, "SHA256:a"), HostCheck::Remember));
    assert!(matches!(
        check_host(&id, Some("SHA256:a"), "SHA256:a"),
        HostCheck::Trusted
    ));
    match check_host(&id, Some("SHA256:a"), "SHA256:b") {
        HostCheck::Mismatch(text) => assert_eq!(
            text,
            "SSH host key mismatch for nas:22!\n  stored: SHA256:a\n  now:    SHA256:b\nIf the \
             server's key legitimately changed, remove this host from known_hosts.json in the \
             app config directory."
        ),
        other => panic!("{other:?}"),
    }
}

#[test]
fn sftp_paths() {
    assert!(by_password("  "));
    assert!(!by_password(" ~/.ssh/id "));
    assert_eq!(passphrase(""), None);
    assert_eq!(passphrase("x"), Some("x"));
    assert_eq!(root_input("  "), ".");
    assert_eq!(root_input(" /srv "), "/srv");
    assert_eq!(session_root("/"), "/");
    assert_eq!(session_root("/home/ziga/"), "/home/ziga");
    assert_eq!(sftp::full("/", "a/b/"), "/a/b");
    assert_eq!(sftp::full("/", ""), "/");
    assert_eq!(sftp::full("/srv", "a"), "/srv/a");
    assert_eq!(sftp::full("/srv", "/"), "/srv");
}

#[test]
fn home_in_key_paths() {
    assert_eq!(expand_tilde("~/.ssh/id", Some("/home/z")), "/home/z/.ssh/id");
    assert_eq!(expand_tilde("~/.ssh/id", Some("/home/z/")), "/home/z/.ssh/id");
    assert_eq!(expand_tilde("~/.ssh/id", Some("")), ".ssh/id");
    assert_eq!(expand_tilde("~//etc/id", Some("/home/z")), "/etc/id");
    assert_eq!(expand_tilde("~/.ssh/id", None), "~/.ssh/id");
    assert_eq!(expand_tilde("/abs/~/id", Some("/home/z")), "/abs/~/id");
}

#[test]
fn smb_paths_and_times() {
    assert!(has_share(" public "));
    assert!(!has_share("  "));
    assert_eq!(base_of(" /dir/sub/ "), "dir/sub");
    assert_eq!(base_of("/"), "");
    assert_eq!(smb::full("", ""), "");
    assert_eq!(smb::full("", "a/"), "a");
    assert_eq!(smb::full("base", ""), "base");
    assert_eq!(smb::full("base", "a/b"), "base/a/b");
    assert_eq!(epoch(0), None);
    assert_eq!(epoch(116_444_736_000_000_000), Some(0));
    assert_eq!(epoch(116_444_736_010_000_000), Some(1));
    assert_eq!(epoch(1), Some(-11_644_473_600));
    assert_eq!(next_read(0, 300_000), Some(262_144));
    assert_eq!(next_read(262_144, 300_000), Some(37_856));
    assert_eq!(next_read(300_000, 300_000), None);
    assert_eq!(start_at(5, 3), 3);
    assert_eq!(start_at(2, 3), 2);
}

#[test]
fn nfs_writes_go_on_after_short_ones() {
    assert_eq!(export_path(" /srv/nfs "), Some("/srv/nfs".to_string()));
    assert_eq!(export_path("  "), None);
    let mut c = WriteCursor::new(100, 300_000);
    assert_eq!(c.next(), Some(Range { start: 0, end: 262_144 }));
    assert!(c.taken(200_000));
    assert_eq!(c.next(), Some(Range { start: 200_000, end: 262_144 }));
    assert!(!c.taken(0));
    assert!(c.taken(62_144));
    assert_eq!(c.next(), Some(Range { start: 262_144, end: 300_000 }));
    assert!(c.taken(37_856));
    assert_eq!(c.next(), None);
    assert_eq!(c.offset, 300_100);
    assert_eq!(WriteCursor::new(0, 0).next(), None);
}
