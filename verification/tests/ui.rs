use rabbit_storage_explorer::settings::{BackendKind, ConnectionProfile};
use rabbit_storage_explorer::storage::entries::RemoteEntry;
use rabbit_storage_explorer::ui::browser::{
    column_order, dragged_items, folder_name, icon_name, size_text, takes_drop, Browser, Column,
    RowOrder,
};
use rabbit_storage_explorer::ui::connection_form::{
    choose_saved, first_missing, kind_index, layout, left_behind, nonempty_or, port_subtitle,
    profile_from, profile_icon, profile_subtitle, root_title, secret_title, selected_kind, Field,
    SavedStep,
};
use rabbit_storage_explorer::ui::notices::{
    file_sizes, finished_message, folder_summary, more_files, notices, overhead, refreshes, subtitle,
};
use rabbit_storage_explorer::ui::readable::{human_eta, human_size};
use rabbit_storage_explorer::ui::transfer_item::{
    done_share, ItemState, TransferItem, TransferList,
};
use rabbit_storage_explorer::worker::messages::{Event, FileProgress, TransferKind};

fn entry(key: &str, name: &str) -> RemoteEntry {
    RemoteEntry {
        key: key.to_string(),
        name: name.to_string(),
        is_dir: key.ends_with('/'),
        size: 1,
        modified: None,
        encrypted: None,
    }
}

fn progress(id: u64, done: u64) -> FileProgress {
    FileProgress {
        id,
        name: format!("f{id}"),
        kind: TransferKind::Upload,
        done,
        total: 10,
    }
}

fn by_floats(bytes: u64) -> String {
    const UNITS: [&str; 5] = ["B", "KiB", "MiB", "GiB", "TiB"];
    let mut v = bytes as f64;
    let mut u = 0;
    while v >= 1024.0 && u < UNITS.len() - 1 {
        v /= 1024.0;
        u += 1;
    }
    if u == 0 {
        format!("{bytes} B")
    } else {
        format!("{v:.1} {}", UNITS[u])
    }
}

#[test]
fn sizes_as_read() {
    assert_eq!(human_size(0), "0 B");
    assert_eq!(human_size(1023), "1023 B");
    assert_eq!(human_size(1024), "1.0 KiB");
    assert_eq!(human_size(1536), "1.5 KiB");
    assert_eq!(human_size(1280), "1.2 KiB");
    assert_eq!(human_size(1792), "1.8 KiB");
    assert_eq!(human_size(1_048_575), "1024.0 KiB");
    assert_eq!(human_size(1_048_576), "1.0 MiB");
    assert_eq!(human_size(2_346_645_648), "2.2 GiB");
    assert_eq!(human_size(u64::MAX), "16777216.0 TiB");
}

#[test]
fn sizes_agree_with_floating_point() {
    let mut n: u64 = 1;
    for i in 0..64u32 {
        for d in [0u64, 1, 51, 52, 102, 128, 511, 512, 513] {
            let b = (1u64 << i).wrapping_add(d.wrapping_mul(1 << (i / 2)));
            assert_eq!(human_size(b), by_floats(b), "{b}");
            let b = (1u64 << i).wrapping_sub(d);
            assert_eq!(human_size(b), by_floats(b), "{b}");
        }
        n = n.wrapping_mul(6_364_136_223_846_793_005).wrapping_add(i as u64);
        for s in 0..11 {
            assert_eq!(human_size(n >> s), by_floats(n >> s), "{}", n >> s);
        }
    }
}

#[test]
fn times_as_read() {
    assert_eq!(human_eta(None), "-");
    assert_eq!(human_eta(Some(0)), "0s");
    assert_eq!(human_eta(Some(59)), "59s");
    assert_eq!(human_eta(Some(60)), "1m 0s");
    assert_eq!(human_eta(Some(3599)), "59m 59s");
    assert_eq!(human_eta(Some(3600)), "1h 0m");
    assert_eq!(human_eta(Some(90_061)), "25h 1m");
}

#[test]
fn batches_are_summed_up() {
    assert_eq!(finished_message(2, 0, 0), "Uploaded 2 file(s)");
    assert_eq!(finished_message(0, 3, 1), "Downloaded 3 file(s) · 1 failed");
    assert_eq!(
        finished_message(2, 3, 0),
        "Uploaded 2 file(s) · Downloaded 3 file(s)"
    );
    assert_eq!(finished_message(0, 0, 0), "Transfer complete");
    assert_eq!(finished_message(0, 0, 4), "Transfer complete · 4 failed");
}

#[test]
fn events_are_told() {
    let text = |e: &Event| notices(e).join("|");
    assert_eq!(text(&Event::ConnectFailed("no".to_string())), "no");
    assert_eq!(text(&Event::ListFailed("no".to_string())), "no");
    assert_eq!(text(&Event::Toast("hi".to_string())), "hi");
    assert_eq!(text(&Event::FolderCreated), "Folder created");
    assert_eq!(text(&Event::Deleted { count: 2 }), "Deleted 2 object(s)");
    assert_eq!(text(&Event::Moved { count: 1 }), "Moved 1 item(s)");
    assert_eq!(
        text(&Event::SizeCalculated {
            plaintext: 1024,
            encrypted: 2048
        }),
        "Size: 1.0 KiB (2.0 KiB on disk)"
    );
    let finished = Event::TransferFinished {
        uploaded: 1,
        downloaded: 0,
        failed: 1,
        errors: vec!["a: x".to_string(), "b: y".to_string()],
    };
    assert_eq!(text(&finished), "Uploaded 1 file(s) · 1 failed|a: x");
    assert!(notices(&Event::Renamed).is_empty());
    assert!(refreshes(&finished));
    assert!(refreshes(&Event::Renamed));
    assert!(!refreshes(&Event::Toast(String::new())));
    assert_eq!(subtitle("photos", true), "photos · encrypted");
    assert_eq!(subtitle("photos", false), "photos");
}

#[test]
fn folders_are_summed_up() {
    assert_eq!(overhead(100, 128), 28);
    assert_eq!(overhead(128, 100), 0);
    assert_eq!(
        folder_summary(3, 1, Some("2024-05-01 10:00")),
        "3 file(s) · 1 folder(s) · size last calculated 2024-05-01 10:00"
    );
    assert_eq!(
        folder_summary(0, 0, None),
        "0 file(s) · 0 folder(s) · size not yet calculated"
    );
    assert_eq!(file_sizes(10, 1024), "10 B → 1.0 KiB on disk");
    assert_eq!(more_files(500), None);
    assert_eq!(more_files(512), Some("… and 12 more file(s)".to_string()));
}

#[test]
fn rows_follow_the_worker_until_cancelled() {
    let mut row = TransferItem::new(4, TransferKind::Download, "a.txt", 10);
    assert_eq!((row.id(), row.name(), row.total()), (4, "a.txt".to_string(), 10));
    assert_eq!((row.kind(), row.state()), (TransferKind::Download, ItemState::Queued));
    row.set_active(3);
    assert_eq!((row.done(), row.state()), (3, ItemState::Active));
    row.set_finished(true);
    assert_eq!((row.done(), row.state()), (10, ItemState::Done));
    let mut row = TransferItem::new(4, TransferKind::Download, "a.txt", 10);
    row.set_active(3);
    row.set_finished(false);
    assert_eq!((row.done(), row.state()), (3, ItemState::Failed));
    row.set_cancelled();
    row.set_active(9);
    row.set_finished(true);
    assert_eq!((row.done(), row.state()), (3, ItemState::Cancelled));
}

#[test]
fn transfer_list_is_updated_by_id() {
    let mut list = TransferList::new();
    list.started(&vec![progress(1, 0), progress(2, 0)]);
    list.extended(&vec![progress(3, 0)]);
    list.cancelled(2);
    list.progressed(&vec![progress(1, 4), progress(2, 5)], Some((3, true)));
    let rows: Vec<(u64, u64, ItemState)> = list
        .rows
        .iter()
        .map(|r| (r.id(), r.done(), r.state()))
        .collect();
    assert_eq!(
        rows,
        vec![
            (1, 4, ItemState::Active),
            (2, 0, ItemState::Cancelled),
            (3, 10, ItemState::Done)
        ]
    );
    list.started(&vec![progress(9, 0)]);
    assert_eq!(list.rows.len(), 1);
    list.finished();
    assert!(list.rows.is_empty());
}

#[test]
fn share_of_a_batch() {
    assert_eq!(done_share(1, 0, 50, 2, 200), (50, 200));
    assert_eq!(done_share(1, 0, 300, 2, 200), (200, 200));
    assert_eq!(done_share(1, 1, 0, 4, 0), (2, 4));
    assert_eq!(done_share(0, 0, 0, 0, 0), (0, 1));
}

#[test]
fn kinds_of_the_form() {
    let kinds = [
        BackendKind::S3,
        BackendKind::Sftp,
        BackendKind::Nfs,
        BackendKind::Smb,
    ];
    for (i, kind) in kinds.iter().enumerate() {
        assert_eq!(kind_index(*kind), i as u32);
        assert_eq!(selected_kind(i as u32), *kind);
    }
    assert_eq!(selected_kind(77), BackendKind::Smb);
    let l = layout(BackendKind::Nfs);
    assert!(l.server && l.nfs && !l.secret && !l.username && !l.object_store);
    assert_eq!(l.default_port, Some(0));
    assert_eq!(layout(BackendKind::S3).default_port, None);
    assert_eq!(layout(BackendKind::Smb).default_port, Some(445));
    assert!(layout(BackendKind::Sftp).key_file);
    assert_eq!(secret_title(BackendKind::Sftp), "Password or key passphrase");
    assert_eq!(root_title(BackendKind::Nfs), "Export path  (required, e.g. /srv/nfs/share)");
    assert_eq!(port_subtitle(BackendKind::Nfs), "0 = automatic (portmapper)");
    assert_eq!(port_subtitle(BackendKind::S3), "");
    assert_eq!(profile_icon(BackendKind::Sftp, false), "utilities-terminal-symbolic");
    assert_eq!(profile_icon(BackendKind::Sftp, true), "channel-secure-symbolic");
}

#[test]
fn entered_text_is_trimmed() {
    let raw = ConnectionProfile {
        name: "  ".to_string(),
        endpoint: " https://s3.example.com// ".to_string(),
        bucket: "\tphotos\u{a0}".to_string(),
        host: " nas ".to_string(),
        port: 2222,
        ..ConnectionProfile::default()
    };
    let p = profile_from(&raw);
    assert_eq!(p.name, "default");
    assert_eq!(p.endpoint, "https://s3.example.com");
    assert_eq!(p.bucket, "photos");
    assert_eq!((p.host.as_str(), p.port), ("nas", 2222));
    assert_eq!(nonempty_or(" x ", "y"), "x");
    assert_eq!(nonempty_or(" ", "y"), "y");
}

#[test]
fn missing_fields_by_kind() {
    let full = ConnectionProfile {
        endpoint: "e".to_string(),
        bucket: "b".to_string(),
        access_key_id: "a".to_string(),
        host: "h".to_string(),
        username: "u".to_string(),
        root_path: "/r".to_string(),
        share: "s".to_string(),
        ..ConnectionProfile::default()
    };
    let of = |kind: BackendKind| ConnectionProfile {
        kind,
        ..full.clone()
    };
    assert_eq!(first_missing(&of(BackendKind::S3), "s", ""), None);
    assert_eq!(first_missing(&of(BackendKind::S3), "", ""), Some(Field::Secret));
    assert_eq!(first_missing(&of(BackendKind::Sftp), "", ""), Some(Field::Secret));
    let keyed = ConnectionProfile {
        key_path: "k".to_string(),
        ..of(BackendKind::Sftp)
    };
    assert_eq!(first_missing(&keyed, "", ""), None);
    assert_eq!(first_missing(&of(BackendKind::Nfs), "", ""), None);
    let bare = ConnectionProfile {
        kind: BackendKind::Nfs,
        host: "h".to_string(),
        ..ConnectionProfile::default()
    };
    assert_eq!(first_missing(&bare, "", ""), Some(Field::RootPath));
    assert_eq!(
        first_missing(&ConnectionProfile::default(), "s", ""),
        Some(Field::Endpoint)
    );
    let shareless = ConnectionProfile {
        share: String::new(),
        ..of(BackendKind::Smb)
    };
    assert_eq!(first_missing(&shareless, "s", ""), Some(Field::Share));
    let sealed = ConnectionProfile {
        e2ee: true,
        ..of(BackendKind::S3)
    };
    assert_eq!(first_missing(&sealed, "s", ""), Some(Field::Password));
    assert_eq!(first_missing(&sealed, "", ""), Some(Field::Secret));
    assert_eq!(first_missing(&sealed, "s", "p"), None);
}

#[test]
fn saved_connections() {
    let mut p = ConnectionProfile {
        bucket: "b".to_string(),
        endpoint: "https://e".to_string(),
        host: "h".to_string(),
        port: 22,
        username: "u".to_string(),
        share: "s".to_string(),
        ..ConnectionProfile::default()
    };
    assert_eq!(profile_subtitle(&p), "b · https://e");
    p.kind = BackendKind::Sftp;
    assert_eq!(profile_subtitle(&p), "u@h:22 · ~");
    p.root_path = "/srv".to_string();
    assert_eq!(profile_subtitle(&p), "u@h:22 · /srv");
    p.kind = BackendKind::Nfs;
    assert_eq!(profile_subtitle(&p), "h:/srv");
    p.kind = BackendKind::Smb;
    assert_eq!(profile_subtitle(&p), "u@h/s");
    let secret = || Some("x".to_string());
    assert!(matches!(
        choose_saved(BackendKind::S3, false, secret()),
        SavedStep::Connect(s) if s == "x"
    ));
    assert!(matches!(
        choose_saved(BackendKind::S3, true, secret()),
        SavedStep::AskPassword(s) if s == "x"
    ));
    assert!(matches!(
        choose_saved(BackendKind::S3, true, None),
        SavedStep::ShowForm
    ));
    assert!(matches!(
        choose_saved(BackendKind::Nfs, false, secret()),
        SavedStep::Connect(s) if s.is_empty()
    ));
    assert_eq!(left_behind(Some("a"), "b"), Some("a".to_string()));
    assert_eq!(left_behind(Some("a"), "a"), None);
    assert_eq!(left_behind(None, "a"), None);
}

#[test]
fn browsing_in_and_out() {
    let mut b = Browser::new();
    assert_eq!(b.current_prefix(), "");
    assert!(b.enter(&entry("D1/", "docs")));
    assert!(b.enter(&entry("D1/D2/", "old")));
    assert!(!b.enter(&entry("D1/D2/f", "f")));
    assert_eq!(b.current_prefix(), "D1/D2/");
    let names: Vec<String> = b.crumbs().into_iter().map(|c| c.name).collect();
    assert_eq!(names, vec!["Bucket", "docs", "old"]);
    b.go_back(3);
    assert_eq!(b.current_prefix(), "D1/D2/");
    b.go_back(usize::MAX);
    assert_eq!(b.current_prefix(), "D1/D2/");
    b.go_back(1);
    assert_eq!(b.current_prefix(), "D1/");
    b.reset_to_root();
    assert_eq!(b.current_prefix(), "");
}

#[test]
fn stale_listings_are_passed_over() {
    let mut b = Browser::new();
    let (prefix, first) = b.request_list();
    assert_eq!((prefix.as_str(), first), ("", 1));
    assert!(b.is_slow(first));
    b.enter(&entry("D/", "docs"));
    let (_, second) = b.request_list();
    assert!(!b.is_slow(first) && b.is_slow(second));
    assert!(!b.set_listing("", vec![entry("x", "x")]));
    assert!(b.is_slow(second));
    assert!(b.set_listing("D/", vec![entry("D/a", "Alpha.txt"), entry("D/b", "beta")]));
    assert!(!b.is_slow(second));
    assert_eq!(b.filtered("").len(), 2);
    assert_eq!(b.filtered("ALPHA")[0].key, "D/a");
    assert!(b.filtered("gamma").is_empty());
    assert_eq!(b.entry_by_key("D/b").unwrap().name, "beta");
    assert!(b.entry_by_key("x").is_none());
    b.request_list();
    b.listing_failed();
    assert!(!b.is_slow(3));
}

#[test]
fn new_folder_names() {
    assert_eq!(folder_name(" docs "), Some("docs".to_string()));
    for bad in ["", "  ", ".", "..", "a/b"] {
        assert_eq!(folder_name(bad), None);
    }
    assert_eq!(folder_name("..."), Some("...".to_string()));
}

#[test]
fn dragging_rows() {
    let (a, b, d) = (entry("a", "a"), entry("b", "b"), entry("d/", "d"));
    let keys = |sel: &Vec<RemoteEntry>, e: Option<&RemoteEntry>, key: &str, dest: &str| {
        let moved: Vec<String> = dragged_items(sel, e, key, dest)
            .into_iter()
            .map(|e| e.key)
            .collect();
        moved.join(",")
    };
    let sel = vec![a.clone(), b.clone(), d.clone()];
    assert_eq!(keys(&sel, Some(&a), "a", "d/"), "a,b");
    assert_eq!(keys(&sel, Some(&a), "a", "z/"), "a,b,d/");
    assert_eq!(keys(&vec![b.clone()], Some(&a), "a", "d/"), "a");
    assert_eq!(keys(&vec![b.clone(), d.clone()], Some(&a), "a", "z/"), "a");
    assert_eq!(keys(&vec![], Some(&d), "d/", "d"), "");
    assert_eq!(keys(&vec![], None, "gone", "d/"), "");
    assert!(takes_drop(&d, "a"));
    assert!(!takes_drop(&d, "d/"));
    assert!(!takes_drop(&a, "b"));
}

#[test]
fn icons_by_ending() {
    assert_eq!(icon_name(true, "x.png"), "folder-symbolic");
    assert_eq!(icon_name(false, "X.JPEG"), "image-x-generic-symbolic");
    assert_eq!(icon_name(false, "x.svg"), "image-x-generic-symbolic");
    assert_eq!(icon_name(false, "png"), "text-x-generic-symbolic");
    assert_eq!(icon_name(false, "a.txt"), "text-x-generic-symbolic");
}

#[test]
fn columns_order_entries() {
    let row = |name: &str, is_dir: bool, size: u64, modified: Option<i64>| RemoteEntry {
        key: name.to_string(),
        name: name.to_string(),
        is_dir,
        size,
        modified,
        encrypted: None,
    };
    let dir = row("zoo", true, 0, None);
    let big = row("Alpha", false, 2048, Some(5));
    let small = row("beta", false, 10, Some(9));
    let unknown = row("gamma", false, 10, None);
    for column in [Column::Name, Column::Size, Column::Modified] {
        assert_eq!(column_order(column, &dir, &big), RowOrder::Before);
        assert_eq!(column_order(column, &big, &dir), RowOrder::After);
        assert_eq!(column_order(column, &big, &big), RowOrder::Level);
    }
    assert_eq!(column_order(Column::Name, &big, &small), RowOrder::Before);
    assert_eq!(column_order(Column::Size, &big, &small), RowOrder::After);
    assert_eq!(column_order(Column::Size, &small, &unknown), RowOrder::Level);
    assert_eq!(column_order(Column::Modified, &unknown, &big), RowOrder::Before);
    assert_eq!(column_order(Column::Modified, &small, &big), RowOrder::After);
    assert_eq!(size_text(&dir), "");
    assert_eq!(size_text(&big), "2.0 KiB");
    assert_eq!(size_text(&small), "10 B");
}
