use rabbit_storage_explorer::settings::Settings;
use rabbit_storage_explorer::worker::messages::{Event, TransferKind};
use rabbit_storage_explorer::worker::transfers::{
    announce, roster, total_size, Admission, PlannedFile, Progress, TransferHub, Turn,
};

const UP: TransferKind = TransferKind::Upload;
const DOWN: TransferKind = TransferKind::Download;

fn planned(id: u64, name: &str, size: u64) -> PlannedFile {
    PlannedFile {
        id,
        name: name.to_string(),
        size,
    }
}

fn report(e: Event) -> (u64, u64, u64, Vec<(u64, u64)>, Option<(u64, bool)>) {
    match e {
        Event::TransferProgress {
            done_files,
            failed_files,
            bytes_done,
            files,
            finished,
        } => (
            done_files,
            failed_files,
            bytes_done,
            files.iter().map(|f| (f.id, f.done)).collect(),
            finished,
        ),
        other => panic!("{other:?}"),
    }
}

#[test]
fn progress_is_reported_in_the_order_of_ids() {
    let mut p = Progress::new();
    p.file_start(7, UP, "seven", 70);
    p.file_start(3, DOWN, "three", 30);
    p.file_resume(5, DOWN, "five", 50, 20);
    let ids: Vec<u64> = p.snapshot().iter().map(|f| f.id).collect();
    assert_eq!(ids, vec![3, 5, 7]);
    p.file_start(5, DOWN, "five", 50);
    assert_eq!(p.snapshot()[1].done, 0);
    assert_eq!(p.snapshot().len(), 3);
}

#[test]
fn ticks_are_throttled() {
    let mut p = Progress::new();
    p.file_start(1, UP, "a", 100);
    assert!(p.tick(1, 10, 99).is_none());
    let e = p.tick(1, 5, 100).unwrap();
    assert_eq!(report(e), (0, 0, 15, vec![(1, 15)], None));
    assert!(p.tick(1, 1, 199).is_none());
    assert!(p.tick(1, 1, 50).is_none());
    assert!(p.tick(2, 1, 200).is_some());
    assert_eq!(p.bytes, 18);
    assert_eq!(p.last_emit, 200);
}

#[test]
fn settled_files_are_counted_by_kind() {
    let mut p = Progress::new();
    p.file_start(1, UP, "a", 1);
    p.file_start(2, DOWN, "b", 1);
    assert_eq!(report(p.file_done(1, UP, true)), (1, 0, 0, vec![(2, 0)], Some((1, true))));
    assert_eq!(report(p.file_done(2, DOWN, true)), (2, 0, 0, vec![], Some((2, true))));
    assert_eq!(report(p.file_done(9, DOWN, false)), (2, 1, 0, vec![], Some((9, false))));
    assert_eq!((p.uploaded, p.downloaded, p.failed), (1, 1, 1));
    assert_eq!(p.done_files(), 2);
}

#[test]
fn a_plan_has_a_roster_and_a_size() {
    let files = vec![planned(4, "a", 10), planned(5, "b", 0)];
    assert_eq!(total_size(&files), 10);
    assert_eq!(total_size(&Vec::new()), 0);
    let r = roster(DOWN, &files);
    assert_eq!(r.len(), 2);
    assert_eq!((r[0].id, r[0].name.as_str(), r[0].done, r[0].total), (4, "a", 0, 10));
    assert_eq!(r[1].kind, DOWN);
}

#[test]
fn batch_opens_extends_and_drains() {
    let st = Settings {
        upload_parallelism: 0,
        download_parallelism: 4,
        ..Settings::default()
    };
    let mut hub = TransferHub::new();
    assert_eq!((hub.next_id(), hub.next_id()), (0, 1));
    let a = hub.admit_files(&st, 2, 100);
    assert_eq!(
        a,
        Admission {
            fresh: true,
            total_files: 2,
            total_bytes: 100
        }
    );
    assert_eq!((hub.upload_slots(), hub.download_slots()), (1, 4));
    assert!(hub.task_done().is_none());
    let b = hub.admit_files(&Settings::default(), 1, 50);
    assert_eq!(
        b,
        Admission {
            fresh: false,
            total_files: 3,
            total_bytes: 150
        }
    );
    assert_eq!(hub.upload_slots(), 1);
    assert!(hub.task_done().is_none());
    hub.settle(0, UP, "a.txt", None);
    hub.settle(1, DOWN, "b.txt", Some("no route"));
    match hub.task_done().unwrap() {
        Event::TransferFinished {
            uploaded,
            downloaded,
            failed,
            errors,
        } => {
            assert_eq!((uploaded, downloaded, failed), (1, 0, 1));
            assert_eq!(errors, vec!["b.txt: no route"]);
        }
        other => panic!("{other:?}"),
    }
    assert!(hub.task_done().is_none());
    let c = hub.admit_files(&Settings::default(), 1, 7);
    assert_eq!(
        c,
        Admission {
            fresh: true,
            total_files: 1,
            total_bytes: 7
        }
    );
    assert_eq!((hub.upload_slots(), hub.download_slots()), (12, 6));
    match hub.task_done().unwrap() {
        Event::TransferFinished {
            uploaded, errors, ..
        } => {
            assert_eq!(uploaded, 0);
            assert!(errors.is_empty());
        }
        other => panic!("{other:?}"),
    }
}

#[test]
fn twenty_failures_at_most() {
    let mut hub = TransferHub::new();
    hub.admit_files(&Settings::default(), 1, 0);
    for id in 0..25 {
        hub.settle(id, UP, "f", Some(&id.to_string()));
    }
    match hub.task_done().unwrap() {
        Event::TransferFinished { failed, errors, .. } => {
            assert_eq!(failed, 25);
            assert_eq!(errors.len(), 20);
            assert_eq!(errors[19], "f: 19");
        }
        other => panic!("{other:?}"),
    }
}

#[test]
fn files_are_cancelled_one_by_one_or_all() {
    let mut hub = TransferHub::new();
    hub.admit_files(&Settings::default(), 3, 0);
    for id in [1, 2, 3] {
        hub.register_file(id);
    }
    assert!(hub.cancel_file(2));
    assert!(!hub.cancel_file(8));
    assert_eq!((hub.turn(1), hub.turn(2)), (Turn::Run, Turn::Settle));
    assert!(hub.is_cancelled(2));
    hub.settle(2, UP, "b", Some("cancelled"));
    hub.unregister_file(2);
    assert!(!hub.cancel_file(2));
    hub.register_file(2);
    assert!(!hub.is_cancelled(2));
    hub.cancel_all();
    assert_eq!(hub.turn(3), Turn::Skip);
    assert!(hub.is_cancelled(99));
    hub.settle(3, UP, "c", Some("cancelled"));
    hub.task_done();
    hub.task_done();
    match hub.task_done().unwrap() {
        Event::TransferFinished { errors, failed, .. } => {
            assert!(errors.is_empty());
            assert_eq!(failed, 2);
        }
        other => panic!("{other:?}"),
    }
    hub.admit_files(&Settings::default(), 1, 0);
    assert!(!hub.is_cancelled(3));
}

#[test]
fn hub_reports_progress() {
    let mut hub = TransferHub::new();
    hub.admit_files(&Settings::default(), 1, 100);
    hub.file_under_way(0, DOWN, "a", 100, 40);
    let e = hub.tick(0, 10, 1000).unwrap();
    assert_eq!(report(e), (0, 0, 10, vec![(0, 50)], None));
    assert_eq!(
        report(hub.settle(0, DOWN, "a", None)),
        (1, 0, 10, vec![], Some((0, true)))
    );
}

#[test]
fn batches_are_announced() {
    let files = || roster(UP, &vec![planned(0, "a", 5)]);
    let fresh = Admission {
        fresh: true,
        total_files: 1,
        total_bytes: 5,
    };
    assert!(matches!(
        announce(fresh, files()),
        Event::TransferStarted { total_files: 1, total_bytes: 5, files } if files.len() == 1
    ));
    let more = Admission {
        fresh: false,
        ..fresh
    };
    assert!(matches!(
        announce(more, files()),
        Event::TransferExtended { total_files: 1, total_bytes: 5, added } if added[0].name == "a"
    ));
}
