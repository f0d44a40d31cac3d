use rabbit_storage_explorer::crypto::{
    chunk_layout, decrypt_bytes, derive_keys, encrypt_bytes, encrypt_name, CryptoError, VaultKeys, CHUNK,
    CIPHER_CHUNK, HEADER_LEN,
};
use rabbit_storage_explorer::manifest::{hash_entry, Manifest};
use rabbit_storage_explorer::manifest_store::Edit;
use rabbit_storage_explorer::settings::BackendKind;
use rabbit_storage_explorer::storage::entries::{RawObject, RemoteEntry};
use rabbit_storage_explorer::worker::download::DownloadError;
use rabbit_storage_explorer::worker::download_task::{
    can_download, DownloadAction, DownloadEvent, DownloadTask,
};
use rabbit_storage_explorer::worker::operations::plan_rename;
use rabbit_storage_explorer::worker::parts::MIN_PART;
use rabbit_storage_explorer::worker::script::{
    create_folder, run_calculate_size, run_delete, run_move, run_rename, Op, Step,
};
use rabbit_storage_explorer::worker::upload_task::{UploadAction, UploadEvent, UploadTask};

fn keys() -> VaultKeys {
    derive_keys("hunter2", b"0123456789abcdef").unwrap()
}

fn sample(len: usize) -> Vec<u8> {
    (0..len).map(|i| (i * 31 + i / 251) as u8).collect()
}

fn entry(key: &str, name: &str, is_dir: bool) -> RemoteEntry {
    RemoteEntry {
        key: key.to_string(),
        name: name.to_string(),
        is_dir,
        size: 7,
        modified: None,
        encrypted: None,
    }
}

fn object(key: &str, size: u64) -> RawObject {
    RawObject {
        key: key.to_string(),
        size,
        modified: None,
        is_prefix: false,
    }
}

fn hash_of(keys: &VaultKeys, name: &str) -> String {
    hash_entry(&encrypt_name(keys, name).unwrap())
}

/// Runs a download of `stored` to its end, beginning with `disk`. With a number,
/// that read fails once.
fn download(
    keys: Option<&VaultKeys>,
    stored: &[u8],
    size: u64,
    mut disk: Vec<u8>,
    mut fail_at: Option<usize>,
) -> (Result<Vec<u8>, Option<DownloadError>>, Vec<u64>) {
    let mut task = DownloadTask::new(size, keys.is_some(), 3);
    let mut pos = 0usize;
    let mut reads = 0usize;
    let mut offsets: Vec<u64> = Vec::new();
    let mut event = DownloadEvent::Begin { cancelled: false };
    for _ in 0..1000 {
        event = match task.step(keys, event) {
            DownloadAction::Measure => DownloadEvent::Measured { on_disk: disk.len() as u64 },
            DownloadAction::Cut { to } => {
                disk.truncate(to as usize);
                DownloadEvent::CutDone
            }
            DownloadAction::Open { offset, keep } => {
                assert_eq!(keep, disk.len() as u64);
                offsets.push(offset);
                pos = offset as usize;
                DownloadEvent::Opened
            }
            DownloadAction::ReadHeader { from_stream } => {
                if from_stream {
                    assert_eq!(pos, 0);
                    pos = HEADER_LEN.min(stored.len());
                }
                DownloadEvent::Header {
                    data: stored[..HEADER_LEN.min(stored.len())].to_vec(),
                    cancelled: false,
                }
            }
            DownloadAction::ReadExactly { len } => {
                reads += 1;
                if fail_at == Some(reads) || pos + len > stored.len() {
                    fail_at = None;
                    DownloadEvent::Failed { cancelled: false }
                } else {
                    let data = stored[pos..pos + len].to_vec();
                    pos += len;
                    DownloadEvent::Bytes { data, cancelled: false }
                }
            }
            DownloadAction::ReadSome => {
                reads += 1;
                if fail_at == Some(reads) {
                    fail_at = None;
                    DownloadEvent::Failed { cancelled: false }
                } else {
                    let end = (pos + 1000).min(stored.len());
                    let data = stored[pos..end].to_vec();
                    pos = end;
                    DownloadEvent::Bytes { data, cancelled: false }
                }
            }
            DownloadAction::Write { data } => {
                disk.extend_from_slice(&data);
                DownloadEvent::Written
            }
            DownloadAction::Rename { cut_to } => {
                if let Some(n) = cut_to {
                    disk.truncate(n as usize);
                }
                DownloadEvent::Renamed
            }
            DownloadAction::HealAndWait { .. } => DownloadEvent::Begin { cancelled: false },
            DownloadAction::Done => return (Ok(disk), offsets),
            DownloadAction::GiveUp { fault } => return (Err(fault), offsets),
        };
    }
    panic!("the download does not end");
}

#[test]
fn plain_download_ends() {
    let data = sample(2500);
    let (got, offsets) = download(None, &data, 2500, Vec::new(), None);
    assert_eq!(got.unwrap(), data);
    assert_eq!(offsets, vec![0]);
}

#[test]
fn plain_download_resumes_after_a_failure() {
    let data = sample(2500);
    let (got, offsets) = download(None, &data, 2500, Vec::new(), Some(3));
    assert_eq!(got.unwrap(), data);
    assert_eq!(offsets, vec![0, 2000]);
}

#[test]
fn empty_downloads_end() {
    let (got, _) = download(None, &[], 0, Vec::new(), None);
    assert_eq!(got.unwrap(), Vec::<u8>::new());
    let k = keys();
    let blob = encrypt_bytes(&k, &[]).unwrap();
    let (got, _) = download(Some(&k), &blob, 0, Vec::new(), None);
    assert_eq!(got.unwrap(), Vec::<u8>::new());
}

#[test]
fn encrypted_download_ends() {
    let k = keys();
    let data = sample(2 * CHUNK + 77);
    let blob = encrypt_bytes(&k, &data).unwrap();
    let (got, _) = download(Some(&k), &blob, data.len() as u64, Vec::new(), None);
    assert_eq!(got.unwrap(), data);
}

#[test]
fn encrypted_download_resumes_on_a_chunk() {
    let k = keys();
    let data = sample(2 * CHUNK + 77);
    let blob = encrypt_bytes(&k, &data).unwrap();
    let (got, offsets) = download(Some(&k), &blob, data.len() as u64, data[..CHUNK + 9].to_vec(), Some(2));
    assert_eq!(got.unwrap(), data);
    assert_eq!(
        offsets,
        vec![
            (HEADER_LEN + CIPHER_CHUNK) as u64,
            (HEADER_LEN + 2 * CIPHER_CHUNK) as u64
        ]
    );
}

#[test]
fn complete_part_is_only_renamed() {
    let data = sample(50);
    let (got, offsets) = download(None, &data, 40, data.clone(), None);
    assert_eq!(got.unwrap(), data[..40].to_vec());
    assert!(offsets.is_empty());
}

#[test]
fn damaged_downloads_are_given_up() {
    let k = keys();
    let data = sample(CHUNK + 5);
    let mut blob = encrypt_bytes(&k, &data).unwrap();
    let size = data.len() as u64;
    let last = blob.len() - 1;
    blob[last] ^= 1;
    let (got, offsets) = download(Some(&k), &blob, size, Vec::new(), None);
    assert!(matches!(
        got,
        Err(Some(DownloadError::Crypto(CryptoError::DecryptionFailed)))
    ));
    // The first chunk is kept over the three further tries.
    let second = (HEADER_LEN + CIPHER_CHUNK) as u64;
    assert_eq!(offsets, vec![0, second, second, second]);

    blob[0] = b'X';
    let (got, _) = download(Some(&k), &blob, size, Vec::new(), None);
    assert!(matches!(got, Err(Some(DownloadError::Crypto(CryptoError::BadHeader)))));

    let (got, _) = download(Some(&k), &blob[..5], size, Vec::new(), None);
    assert!(matches!(got, Err(Some(DownloadError::NoHeader))));

    // A file that was cut at a chunk ends in a read that fails.
    let whole = encrypt_bytes(&k, &data).unwrap();
    let (got, _) = download(Some(&k), &whole[..HEADER_LEN + CIPHER_CHUNK], size, Vec::new(), None);
    assert!(matches!(got, Err(None)));
}

#[test]
fn cancelled_download_is_given_up() {
    let mut task = DownloadTask::new(10, false, 500_000);
    assert!(matches!(
        task.step(None, DownloadEvent::Begin { cancelled: true }),
        DownloadAction::GiveUp { fault: None }
    ));
    let mut task = DownloadTask::new(10, false, 2);
    let mut waits = Vec::new();
    loop {
        task.step(None, DownloadEvent::Begin { cancelled: false });
        match task.step(None, DownloadEvent::Failed { cancelled: false }) {
            DownloadAction::HealAndWait { ms } => waits.push(ms),
            DownloadAction::GiveUp { fault: None } => break,
            other => panic!("{other:?}"),
        }
    }
    assert_eq!(waits, vec![800, 1600]);
}

#[test]
fn largest_downloads() {
    assert!(can_download(false, u64::MAX));
    assert!(can_download(true, 0xffff_ffff * CHUNK as u64));
    assert!(!can_download(true, 0xffff_ffff * CHUNK as u64 + 1));
}

struct Uploaded {
    stored: Vec<u8>,
    parts: Vec<i32>,
    credit: u64,
    aborts: u32,
}

/// Runs an upload of `data` to its end. With a number, the part of that number
/// fails once.
fn upload(
    keys: Option<&VaultKeys>,
    data: &[u8],
    threshold: u64,
    mut fail_part: Option<i32>,
) -> Result<Uploaded, Option<CryptoError>> {
    let mut task = UploadTask::new(data.len() as u64, threshold, MIN_PART, keys.is_some(), 1);
    let mut stored: Vec<u8> = Vec::new();
    let mut sent: Vec<(i32, Vec<u8>)> = Vec::new();
    let mut parts: Vec<i32> = Vec::new();
    let mut aborts = 0u32;
    let mut pos = 0usize;
    let mut event = UploadEvent::Begin { cancelled: false };
    for _ in 0..1000 {
        event = match task.step(keys, event) {
            UploadAction::Prepare => UploadEvent::Prepared,
            UploadAction::ReadWhole => UploadEvent::Whole { data: data.to_vec(), cancelled: false },
            UploadAction::Put { body } => {
                stored = body;
                UploadEvent::Stored
            }
            UploadAction::StartParts => {
                sent.clear();
                UploadEvent::PartsStarted
            }
            UploadAction::OpenFile => {
                pos = 0;
                UploadEvent::FileOpened { len: data.len() as u64 }
            }
            UploadAction::ReadChunk => {
                let end = (pos + CHUNK).min(data.len());
                let chunk = data[pos..end].to_vec();
                pos = end;
                UploadEvent::Chunk { data: chunk, cancelled: false }
            }
            UploadAction::SendPart { number, data } => {
                if fail_part == Some(number) {
                    fail_part = None;
                    UploadEvent::Failed { cancelled: false }
                } else {
                    sent.push((number, data));
                    UploadEvent::PartSent { tag: format!("tag-{number}") }
                }
            }
            UploadAction::Complete { tags } => {
                for (t, (number, part)) in tags.iter().zip(sent.iter()) {
                    assert_eq!(t.number, *number);
                    assert_eq!(t.tag, format!("tag-{number}"));
                    parts.push(*number);
                    stored.extend_from_slice(part);
                }
                assert_eq!(tags.len(), sent.len());
                UploadEvent::Completed
            }
            UploadAction::Abort => {
                aborts += 1;
                UploadEvent::Aborted { cancelled: false }
            }
            UploadAction::HealAndWait => UploadEvent::Begin { cancelled: false },
            UploadAction::Done { credit } => return Ok(Uploaded { stored, parts, credit, aborts }),
            UploadAction::GiveUp { fault } => return Err(fault),
        };
    }
    panic!("the upload does not end");
}

#[test]
fn small_uploads_are_put_whole() {
    let data = sample(3000);
    let up = upload(None, &data, 3000, None).unwrap();
    assert_eq!(up.stored, data);
    assert_eq!(up.credit, 3000);
    assert!(up.parts.is_empty());
    let k = keys();
    let up = upload(Some(&k), &data, 3000, None).unwrap();
    assert_ne!(up.stored, data);
    assert_eq!(decrypt_bytes(&k, &up.stored).unwrap(), data);
    assert_eq!(up.credit, 3000);
}

#[test]
fn large_uploads_go_in_parts() {
    let data = sample(2 * MIN_PART + 10);
    let up = upload(None, &data, 100, None).unwrap();
    assert_eq!(up.stored, data);
    assert_eq!(up.parts, vec![1, 2, 3]);
    assert_eq!(up.credit, 0);
    assert_eq!(up.aborts, 0);
    let k = keys();
    let up = upload(Some(&k), &data, 100, None).unwrap();
    assert_eq!(decrypt_bytes(&k, &up.stored).unwrap(), data);
    assert_eq!(chunk_layout(up.stored.len() as u64).unwrap().0, 11);
}

#[test]
fn failed_parts_are_aborted() {
    let data = sample(2 * MIN_PART + 10);
    let k = keys();
    let up = upload(Some(&k), &data, 100, Some(2)).unwrap();
    assert_eq!(decrypt_bytes(&k, &up.stored).unwrap(), data);
    assert_eq!(up.parts, vec![1, 2, 3]);
    assert_eq!(up.aborts, 1);
}

#[test]
fn failed_uploads_are_given_up() {
    let mut task = UploadTask::new(10, 5, MIN_PART, false, 0);
    assert!(matches!(
        task.step(None, UploadEvent::Begin { cancelled: false }),
        UploadAction::Prepare
    ));
    assert!(matches!(
        task.step(None, UploadEvent::Prepared),
        UploadAction::StartParts
    ));
    // Nothing was started, so nothing is aborted.
    assert!(matches!(
        task.step(None, UploadEvent::Failed { cancelled: false }),
        UploadAction::GiveUp { fault: None }
    ));

    let mut task = UploadTask::new(10, 5, MIN_PART, false, 9);
    task.step(None, UploadEvent::Begin { cancelled: false });
    task.step(None, UploadEvent::Prepared);
    assert!(matches!(
        task.step(None, UploadEvent::PartsStarted),
        UploadAction::OpenFile
    ));
    assert!(matches!(
        task.step(None, UploadEvent::Failed { cancelled: true }),
        UploadAction::Abort
    ));
    assert!(matches!(
        task.step(None, UploadEvent::Aborted { cancelled: true }),
        UploadAction::GiveUp { fault: None }
    ));

    let mut task = UploadTask::new(10, 5, MIN_PART, false, 9);
    assert!(matches!(
        task.step(None, UploadEvent::Begin { cancelled: true }),
        UploadAction::GiveUp { fault: None }
    ));
}

fn relocations(steps: &[Step]) -> Vec<(String, String)> {
    steps
        .iter()
        .filter_map(|s| match &s.op {
            Op::Relocate { from, to } => {
                assert!(s.required);
                Some((from.clone(), to.clone()))
            }
            _ => None,
        })
        .collect()
}

#[test]
fn steps_of_a_new_folder() {
    let steps = create_folder(None, BackendKind::S3, "a/", "new");
    assert_eq!(steps.len(), 1);
    assert!(steps[0].required);
    assert!(matches!(&steps[0].op, Op::PutMarker { key } if key == "a/new/"));

    let steps = create_folder(None, BackendKind::Sftp, "a/", "new");
    assert_eq!(steps.len(), 1);
    assert!(matches!(&steps[0].op, Op::Prepare { key } if key == "a/new/x"));

    let k = keys();
    let steps = create_folder(Some(&k), BackendKind::S3, "a/", "new");
    let hash = hash_of(&k, "new");
    assert_eq!(steps.len(), 3);
    assert!(steps.iter().all(|s| s.required));
    assert!(matches!(&steps[0].op, Op::PutMarker { key } if *key == format!("a/{hash}/")));
    assert!(matches!(
        &steps[1].op,
        Op::Record { dir, edit: Edit::UpsertFolder { name, .. } } if dir == "a/" && name == "new"
    ));
    assert!(matches!(&steps[2].op, Op::Flush));
}

#[test]
fn steps_of_a_delete() {
    let items = vec![entry("a/d/", "d", true), entry("a/f", "f", false)];
    let below = vec![vec![object("a/d/x", 1), object("a/d/y", 2)], Vec::new()];
    let (steps, count) = run_delete(None, &items, &below);
    assert_eq!(count, 4);
    assert_eq!(steps.len(), 1);
    assert!(steps[0].required);
    assert!(matches!(
        &steps[0].op,
        Op::Delete { keys } if *keys == vec!["a/d/x", "a/d/y", "a/d/", "a/f"]
    ));

    let k = keys();
    let (steps, count) = run_delete(Some(&k), &items, &below);
    assert_eq!(count, 4);
    assert!(matches!(&steps[0].op, Op::Delete { .. }));
    assert!(matches!(
        &steps[1].op,
        Op::Record { dir, edit: Edit::Remove { .. } } if dir == "a/"
    ));
    assert!(matches!(&steps[2].op, Op::Forget { dir } if dir == "a/d/"));
    assert!(matches!(
        &steps[3].op,
        Op::Record { dir, edit: Edit::Remove { .. } } if dir == "a/"
    ));
    assert!(matches!(&steps[4].op, Op::Flush));
    assert_eq!(steps.len(), 5);
    assert!(steps[0].required);
    assert!(steps[1..].iter().all(|s| !s.required));
}

#[test]
fn steps_of_a_move() {
    let items = vec![
        entry("a/d/", "d", true),
        entry("b/f", "f", false),
        entry("a/f", "f", false),
    ];
    // A folder is not moved into itself, a file not to where it is.
    let (steps, count) = run_move(None, &items, "a/d/");
    assert_eq!(count, 2);
    assert_eq!(
        relocations(&steps),
        vec![
            ("b/f".to_string(), "a/d/f".to_string()),
            ("a/f".to_string(), "a/d/f".to_string())
        ]
    );
    let (steps, count) = run_move(None, &items, "b/");
    assert_eq!(count, 2);
    assert_eq!(
        relocations(&steps),
        vec![
            ("a/d/".to_string(), "b/d/".to_string()),
            ("a/f".to_string(), "b/f".to_string())
        ]
    );
    let k = keys();
    let (steps, count) = run_move(Some(&k), &items[..1].iter().map(|e| entry(&e.key, &e.name, true)).collect(), "b/");
    assert_eq!(count, 1);
    assert_eq!(steps.len(), 3);
    assert!(matches!(
        &steps[1].op,
        Op::MoveRecord { from, to, .. } if from == "a/" && to == "b/"
    ));
    assert!(!steps[1].required);
    assert!(matches!(&steps[2].op, Op::Flush));
}

#[test]
fn steps_of_a_rename() {
    let k = keys();
    let empty = Manifest::default();
    let plan = plan_rename(None, "a/f", false, "f", "g", false).unwrap();
    assert_eq!(
        relocations(&run_rename(plan, &empty).unwrap()),
        vec![("a/f".to_string(), "a/g".to_string())]
    );
    let plan = plan_rename(None, "a/f", false, "f", "f", false).unwrap();
    assert!(run_rename(plan, &empty).unwrap().is_empty());

    let (old, new) = (hash_of(&k, "d"), hash_of(&k, "e"));
    let plan = plan_rename(Some(&k), &format!("a/{old}/"), true, "d", "e", true).unwrap();
    let steps = run_rename(plan, &empty).unwrap();
    assert_eq!(
        relocations(&steps),
        vec![(format!("a/{old}/"), format!("a/{new}/"))]
    );
    assert_eq!(steps.len(), 4);
    assert!(matches!(&steps[1].op, Op::Forget { dir } if *dir == format!("a/{old}/")));
    assert!(matches!(
        &steps[2].op,
        Op::Record { dir, edit: Edit::Rename { name, .. } } if dir == "a/" && name == "e"
    ));
    assert!(steps[2].required);
    assert!(matches!(&steps[3].op, Op::Flush));
}

#[test]
fn no_rename_to_a_name_that_is_there() {
    let k = keys();
    let mut parent = Manifest::default();
    parent.upsert_file(&encrypt_name(&k, "f").unwrap(), "f", 1);
    parent.upsert_folder(&encrypt_name(&k, "d").unwrap(), "d");
    let key = format!("a/{}", hash_of(&k, "f"));
    let plan = plan_rename(Some(&k), &key, false, "f", "d", true).unwrap();
    match run_rename(plan, &parent) {
        Err(e) => assert_eq!(e.message(), "an item named \"d\" already exists here"),
        Ok(_) => panic!("renamed"),
    }
    let plan = plan_rename(Some(&k), &key, false, "f", "g", true).unwrap();
    assert_eq!(
        relocations(&run_rename(plan, &parent).unwrap()),
        vec![(key, format!("a/{}", hash_of(&k, "g")))]
    );
}

#[test]
fn steps_of_a_size() {
    let k = keys();
    let objects = vec![object("a/d/x", 28 + 5), object("a/d/.rse", 999), object("a/d/y", 28)];
    let (sums, steps) = run_calculate_size(Some(&k), "a/d/", "d", true, &objects, 42);
    assert_eq!(sums, (5, 61));
    assert_eq!(steps.len(), 2);
    assert!(steps.iter().all(|s| !s.required));
    assert!(matches!(
        &steps[0].op,
        Op::Record { dir, edit: Edit::SetFolderSize { plain: 5, stored: 61, computed: 42, .. } } if dir == "a/"
    ));
    let (sums, steps) = run_calculate_size(None, "a/d/", "d", false, &objects, 42);
    assert_eq!(sums, (61, 61));
    assert!(steps.is_empty());
}
