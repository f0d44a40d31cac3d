use rabbit_storage_explorer::crypto::{CryptoError, VaultFile};
use rabbit_storage_explorer::settings::{BackendKind, ConnectionProfile, Settings};
use rabbit_storage_explorer::worker::messages::{Command, Event};
use rabbit_storage_explorer::worker::session::{
    after_try, failure_event, heal, reconnect_delay, unlock, vault_password, vault_path, Action,
    ConnectError, Dispatcher, HealEvent, HealStep, Job, Next, SHARED_VAULT_DIR,
};

fn work() -> Vec<Command> {
    let s = || "x".to_string();
    vec![
        Command::List { prefix: s() },
        Command::Upload {
            paths: vec![s()],
            dest_prefix: s(),
        },
        Command::CreateFolder {
            prefix: s(),
            name: s(),
        },
        Command::Download {
            items: vec![],
            dest: s(),
        },
        Command::Delete { items: vec![] },
        Command::Move {
            items: vec![],
            dest_prefix: s(),
        },
        Command::Rename {
            key: s(),
            is_dir: true,
            old_name: s(),
            new_name: s(),
            encrypted: true,
        },
        Command::CalculateSize {
            key: s(),
            name: s(),
            encrypted: false,
        },
        Command::FolderInfo {
            key: s(),
            name: s(),
        },
    ]
}

#[test]
fn work_needs_a_session() {
    let mut d = Dispatcher::new(Settings::default());
    for cmd in work() {
        assert!(matches!(d.accept(cmd), Action::Nothing));
    }
    d.connected(&ConnectionProfile::default(), false);
    for cmd in work() {
        assert!(matches!(d.accept(cmd), Action::Run(_)));
    }
    assert!(matches!(
        d.accept(Command::List { prefix: "p/".to_string() }),
        Action::Run(Job::List { prefix }) if prefix == "p/"
    ));
}

#[test]
fn settings_apply_live() {
    let mut d = Dispatcher::new(Settings::default());
    let s = Settings {
        reconnect_interval_secs: 0,
        manifest_flush_secs: 7,
        ..Settings::default()
    };
    assert!(matches!(d.accept(Command::SetSettings(s)), Action::Nothing));
    assert_eq!(d.settings, s);
    d.connected(&ConnectionProfile::default(), true);
    assert!(matches!(
        d.accept(Command::SetSettings(s)),
        Action::Apply {
            reconnect_ms: 1000,
            flush_ms: 7000
        }
    ));
}

#[test]
fn connecting_and_disconnecting() {
    let profile = ConnectionProfile {
        bucket: "photos".to_string(),
        ..ConnectionProfile::default()
    };
    let mut d = Dispatcher::new(Settings::default());
    match d.accept(Command::Connect {
        profile: profile.clone(),
        secret_key: "s".to_string(),
        password: None,
    }) {
        Action::Connect {
            secret_key,
            reconnect_ms,
            ..
        } => assert_eq!((secret_key.as_str(), reconnect_ms), ("s", 3000)),
        other => panic!("{other:?}"),
    }
    assert!(!d.connected);
    let (stop, event) = d.connected(&profile, true);
    assert!(!stop);
    assert!(matches!(event, Event::Connected { label, e2ee: true } if label == "photos"));
    let (stop, _) = d.connected(&profile, false);
    assert!(stop);
    assert!(matches!(
        d.accept(Command::Disconnect),
        Action::Disconnect { stop_timer: true }
    ));
    assert!(!d.connected && !d.timer);
    assert!(matches!(
        d.accept(Command::Disconnect),
        Action::Disconnect { stop_timer: false }
    ));
    assert!(matches!(d.accept(Command::CancelTransfers), Action::CancelAll));
    assert!(matches!(
        d.accept(Command::CancelFile { id: 4 }),
        Action::CancelFile { id: 4 }
    ));
    assert!(matches!(
        d.connect_failed("no".to_string()),
        Event::ConnectFailed(m) if m == "no"
    ));
}

#[test]
fn a_job_is_tried_twice() {
    assert_eq!(after_try(true, false), Next::Answer);
    assert_eq!(after_try(false, false), Next::HealAndRetry);
    assert_eq!(after_try(false, true), Next::Answer);
    assert_eq!(after_try(true, true), Next::Answer);
}

#[test]
fn failures_are_told() {
    let s = || "x".to_string();
    let told = |job: Job| match failure_event(&job, "boom") {
        Event::Toast(m) => m,
        Event::ListFailed(m) => format!("list:{m}"),
        other => panic!("{other:?}"),
    };
    assert_eq!(told(Job::List { prefix: s() }), "list:boom");
    assert_eq!(
        told(Job::CreateFolder { prefix: s(), name: s() }),
        "Creating folder failed: boom"
    );
    assert_eq!(told(Job::Delete { items: vec![] }), "Delete failed: boom");
    assert_eq!(
        told(Job::Move { items: vec![], dest_prefix: s() }),
        "Move failed: boom"
    );
    assert_eq!(
        told(Job::Rename {
            key: s(),
            is_dir: false,
            old_name: s(),
            new_name: s(),
            encrypted: false
        }),
        "Rename failed: boom"
    );
    assert_eq!(
        told(Job::CalculateSize { key: s(), name: "docs".to_string(), encrypted: true }),
        "Size calculation for \"docs\" failed: boom"
    );
    assert_eq!(
        told(Job::FolderInfo { key: s(), name: s() }),
        "Reading folder info failed: boom"
    );
    assert_eq!(told(Job::Upload { paths: vec![], dest_prefix: s() }), "boom");
}

#[test]
fn encrypted_sessions_need_a_password() {
    assert_eq!(vault_password(false, Some("x")), Ok(None));
    assert_eq!(vault_password(true, Some("x")), Ok(Some("x".to_string())));
    assert_eq!(vault_password(true, Some("")), Err(ConnectError::PasswordRequired));
    assert_eq!(vault_password(true, None), Err(ConnectError::PasswordRequired));
    assert_eq!(
        ConnectError::PasswordRequired.message(),
        "an encryption password is required when E2EE is enabled"
    );
}

#[test]
fn vault_is_made_once_and_opened_again() {
    let first = unlock(None, "hunter2").ok().unwrap();
    let vault = first.store.unwrap();
    let again = unlock(Some(&vault), "hunter2").ok().unwrap();
    assert!(again.store.is_none());
    let blob = rabbit_storage_explorer::crypto::encrypt_bytes(&first.keys, b"data").unwrap();
    assert_eq!(
        rabbit_storage_explorer::crypto::decrypt_bytes(&again.keys, &blob).unwrap(),
        b"data"
    );
    assert!(matches!(
        unlock(Some(&vault), "wrong"),
        Err(CryptoError::WrongPassword)
    ));
    let broken = VaultFile {
        version: 1,
        salt: "???".to_string(),
        canary: String::new(),
    };
    assert!(matches!(
        unlock(Some(&broken), "hunter2"),
        Err(CryptoError::SaltCorrupted)
    ));
}

#[test]
fn vault_places() {
    for kind in [BackendKind::S3, BackendKind::Nfs, BackendKind::Smb] {
        assert_eq!(vault_path(kind, Some("/home/ziga")), ".rse-vault");
    }
    assert_eq!(
        vault_path(BackendKind::Sftp, Some("/home/ziga")),
        "/home/ziga/.rse-vault"
    );
    assert_eq!(
        vault_path(BackendKind::Sftp, Some("/home/ziga/")),
        "/home/ziga/.rse-vault"
    );
    let shared = format!("{SHARED_VAULT_DIR}/.rse-vault");
    assert_eq!(shared, "/var/lib/rabbit-storage-explorer/.rse-vault");
    assert_eq!(vault_path(BackendKind::Sftp, None), shared);
    assert_eq!(vault_path(BackendKind::Sftp, Some("/")), shared);
}

#[test]
fn healing_goes_on_until_connected_or_cancelled() {
    assert_eq!(reconnect_delay(0), 200);
    assert_eq!(reconnect_delay(3000), 3000);
    assert_eq!(heal(HealEvent::Probed { healthy: true }, 50), HealStep::Done);
    assert_eq!(heal(HealEvent::Probed { healthy: false }, 50), HealStep::TakeTurn);
    assert_eq!(heal(HealEvent::MyTurn { seen: 1, now: 2 }, 50), HealStep::Done);
    assert_eq!(heal(HealEvent::MyTurn { seen: 1, now: 1 }, 50), HealStep::TellLost);
    assert_eq!(heal(HealEvent::Ready { cancelled: true }, 50), HealStep::Done);
    assert_eq!(heal(HealEvent::Ready { cancelled: false }, 50), HealStep::Connect);
    assert_eq!(heal(HealEvent::Tried { connected: true }, 50), HealStep::Replace);
    assert_eq!(
        heal(HealEvent::Tried { connected: false }, 50),
        HealStep::Wait { ms: 200 }
    );
    assert_eq!(heal(HealEvent::Replaced, 50), HealStep::Done);
}
