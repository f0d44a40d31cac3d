//! The session: how a command is taken, how a vault is unlocked, and how a
//! connection that was lost comes back.
//!
//! The owner performs what is decided here, and says how it went.

use crate::crypto;
use crate::crypto::{CryptoError, VaultFile, VaultKeys};
use crate::settings;
use crate::settings::{BackendKind, ConnectionProfile, Settings};
use crate::storage::entries::RemoteEntry;
use crate::text;
use crate::worker::messages::{Command, Event};
use vstd::prelude::*;
use vstd::string::*;
use vstd::utf8::*;

verus! {

/// Work on a connection.
#[derive(Debug)]
pub enum Job {
    List { prefix: String },
    Upload { paths: Vec<String>, dest_prefix: String },
    CreateFolder { prefix: String, name: String },
    Download { items: Vec<RemoteEntry>, dest: String },
    Delete { items: Vec<RemoteEntry> },
    Move { items: Vec<RemoteEntry>, dest_prefix: String },
    Rename { key: String, is_dir: bool, old_name: String, new_name: String, encrypted: bool },
    CalculateSize { key: String, name: String, encrypted: bool },
    FolderInfo { key: String, name: String },
}

/// What is done for a command.
#[derive(Debug)]
pub enum Action {
    Nothing,
    /// Bring the delays of the open session up to date, in milliseconds.
    Apply { reconnect_ms: u64, flush_ms: u64 },
    /// Stop the flush timer if it runs, which writes what is left; cancel all
    /// transfers and let the session go.
    Disconnect { stop_timer: bool },
    CancelAll,
    CancelFile { id: u64 },
    /// Connect, with the delay between attempts to connect again.
    Connect {
        profile: ConnectionProfile,
        secret_key: String,
        password: Option<String>,
        reconnect_ms: u64,
    },
    /// Work on the open session.
    Run(Job),
}

/// What the worker knows between two commands.
#[derive(Clone, Copy, Debug, PartialEq, Eq, Structural)]
pub struct Dispatcher {
    /// Whether a session is open.
    pub connected: bool,
    /// Whether a flush timer runs.
    pub timer: bool,
    pub settings: Settings,
}

/// Whether the delay between attempts to connect can be given in milliseconds.
pub open spec fn delay_fits(s: Settings) -> bool {
    settings::at_least_one(s.reconnect_interval_secs) * 1000 <= u64::MAX
}

/// The job that a command asks for, if it asks for one.
pub open spec fn job_of(cmd: Command) -> Option<Job> {
    match cmd {
        Command::List { prefix } => Some(Job::List { prefix }),
        Command::Upload { paths, dest_prefix } => Some(Job::Upload { paths, dest_prefix }),
        Command::CreateFolder { prefix, name } => Some(Job::CreateFolder { prefix, name }),
        Command::Download { items, dest } => Some(Job::Download { items, dest }),
        Command::Delete { items } => Some(Job::Delete { items }),
        Command::Move { items, dest_prefix } => Some(Job::Move { items, dest_prefix }),
        Command::Rename { key, is_dir, old_name, new_name, encrypted } => Some(
            Job::Rename { key, is_dir, old_name, new_name, encrypted },
        ),
        Command::CalculateSize { key, name, encrypted } => Some(
            Job::CalculateSize { key, name, encrypted },
        ),
        Command::FolderInfo { key, name } => Some(Job::FolderInfo { key, name }),
        _ => None,
    }
}

/// What is done for a command. Work is done on an open session only; without
/// one it is passed over.
pub open spec fn action_for(d: Dispatcher, cmd: Command) -> Action {
    match cmd {
        Command::SetSettings(s) => if d.connected {
            Action::Apply {
                reconnect_ms: (settings::at_least_one(s.reconnect_interval_secs) * 1000) as u64,
                flush_ms: (settings::at_least_one(s.manifest_flush_secs) * 1000
                    % 0x1_0000_0000_0000_0000) as u64,
            }
        } else {
            Action::Nothing
        },
        Command::Disconnect => Action::Disconnect { stop_timer: d.timer },
        Command::CancelTransfers => Action::CancelAll,
        Command::CancelFile { id } => Action::CancelFile { id },
        Command::Connect { profile, secret_key, password } => Action::Connect {
            profile,
            secret_key,
            password,
            reconnect_ms: (settings::at_least_one(d.settings.reconnect_interval_secs)
                * 1000) as u64,
        },
        _ => if d.connected {
            Action::Run(job_of(cmd)->0)
        } else {
            Action::Nothing
        },
    }
}

/// What the worker knows after a command.
pub open spec fn after_command(d: Dispatcher, cmd: Command) -> Dispatcher {
    match cmd {
        Command::SetSettings(s) => Dispatcher { settings: s, ..d },
        Command::Disconnect => Dispatcher { connected: false, timer: false, ..d },
        _ => d,
    }
}

impl Dispatcher {
    /// Before the first command.
    pub fn new(settings: Settings) -> (r: Self)
        ensures
            r == (Dispatcher { connected: false, timer: false, settings }),
    {
        Dispatcher { connected: false, timer: false, settings }
    }

    fn run(&self, job: Job) -> (r: Action)
        ensures
            r == if self.connected {
                Action::Run(job)
            } else {
                Action::Nothing
            },
    {
        if self.connected {
            Action::Run(job)
        } else {
            Action::Nothing
        }
    }

    /// Takes a command.
    pub fn accept(&mut self, cmd: Command) -> (r: Action)
        requires
            cmd matches Command::SetSettings(s) ==> old(self).connected ==> delay_fits(s),
            cmd is Connect ==> delay_fits(old(self).settings),
        ensures
            r == action_for(*old(self), cmd),
            *final(self) == after_command(*old(self), cmd),
    {
        match cmd {
            Command::SetSettings(s) => {
                let action = if self.connected {
                    Action::Apply { reconnect_ms: s.reconnect_ms(), flush_ms: s.flush_ms() }
                } else {
                    Action::Nothing
                };
                self.settings = s;
                action
            },
            Command::Disconnect => {
                let stop_timer = self.timer;
                self.timer = false;
                self.connected = false;
                Action::Disconnect { stop_timer }
            },
            Command::CancelTransfers => Action::CancelAll,
            Command::CancelFile { id } => Action::CancelFile { id },
            Command::Connect { profile, secret_key, password } => Action::Connect {
                profile,
                secret_key,
                password,
                reconnect_ms: self.settings.reconnect_ms(),
            },
            Command::List { prefix } => self.run(Job::List { prefix }),
            Command::Upload { paths, dest_prefix } => self.run(Job::Upload { paths, dest_prefix }),
            Command::CreateFolder { prefix, name } => self.run(Job::CreateFolder { prefix, name }),
            Command::Download { items, dest } => self.run(Job::Download { items, dest }),
            Command::Delete { items } => self.run(Job::Delete { items }),
            Command::Move { items, dest_prefix } => self.run(Job::Move { items, dest_prefix }),
            Command::Rename { key, is_dir, old_name, new_name, encrypted } => self.run(
                Job::Rename { key, is_dir, old_name, new_name, encrypted },
            ),
            Command::CalculateSize { key, name, encrypted } => self.run(
                Job::CalculateSize { key, name, encrypted },
            ),
            Command::FolderInfo { key, name } => self.run(Job::FolderInfo { key, name }),
        }
    }

    /// A session was opened, in place of the one before. Says whether a timer of
    /// the one before is to be stopped; a new one runs from now on.
    pub fn connected(&mut self, profile: &ConnectionProfile, e2ee: bool) -> (r: (bool, Event))
        ensures
            *final(self) == (Dispatcher { connected: true, timer: true, ..*old(self) }),
            r.0 == old(self).timer,
            r.1 matches Event::Connected { label, e2ee: e } && label@ == settings::label_of(
                profile@,
            ) && e == e2ee,
    {
        let stop_timer = self.timer;
        self.connected = true;
        self.timer = true;
        (stop_timer, Event::Connected { label: profile.label(), e2ee })
    }

    /// A session could not be opened; the one before stays.
    pub fn connect_failed(&self, error: String) -> (r: Event)
        ensures
            r == Event::ConnectFailed(error),
    {
        Event::ConnectFailed(error)
    }
}

/// A command that is work is passed over while no session is open, and does not
/// change what the worker knows.
pub proof fn law_no_work_without_session(d: Dispatcher, cmd: Command)
    requires
        !d.connected,
        job_of(cmd) is Some,
    ensures
        action_for(d, cmd) is Nothing,
        after_command(d, cmd) == d,
{
}

/// After a disconnect no session is open and no timer runs, whatever was before.
pub proof fn law_disconnect_ends_session(d: Dispatcher)
    ensures
        !after_command(d, Command::Disconnect).connected,
        !after_command(d, Command::Disconnect).timer,
        after_command(d, Command::Disconnect).settings == d.settings,
{
}

/// What follows when a job was done or failed.
#[derive(Clone, Copy, Debug, PartialEq, Eq, Structural)]
pub enum Next {
    /// The result stands.
    Answer,
    /// The session may have died meanwhile: see to it and try once more.
    HealAndRetry,
}

/// A job is tried a second time if it failed, and no third time.
pub fn after_try(ok: bool, healed: bool) -> (r: Next)
    ensures
        r == if !ok && !healed {
            Next::HealAndRetry
        } else {
            Next::Answer
        },
{
    if ok || healed {
        Next::Answer
    } else {
        Next::HealAndRetry
    }
}

/// What the user is told when a job failed for good; uploads and downloads
/// report for themselves.
pub open spec fn failure_text(job: Job, error: Seq<char>) -> Seq<char> {
    match job {
        Job::CreateFolder { .. } => "Creating folder failed: "@ + error,
        Job::Delete { .. } => "Delete failed: "@ + error,
        Job::Move { .. } => "Move failed: "@ + error,
        Job::Rename { .. } => "Rename failed: "@ + error,
        Job::CalculateSize { name, .. } => "Size calculation for \""@ + name@ + "\" failed: "@
            + error,
        Job::FolderInfo { .. } => "Reading folder info failed: "@ + error,
        _ => error,
    }
}

/// What is reported when a job failed for good.
pub fn failure_event(job: &Job, error: &str) -> (r: Event)
    ensures
        match job {
            Job::List { .. } => r matches Event::ListFailed(text) && text@ == error@,
            _ => r matches Event::Toast(text) && text@ == failure_text(*job, error@),
        },
{
    match job {
        Job::List { .. } => Event::ListFailed(error.to_string()),
        Job::CreateFolder { .. } => Event::Toast(text::concat("Creating folder failed: ", error)),
        Job::Delete { .. } => Event::Toast(text::concat("Delete failed: ", error)),
        Job::Move { .. } => Event::Toast(text::concat("Move failed: ", error)),
        Job::Rename { .. } => Event::Toast(text::concat("Rename failed: ", error)),
        Job::CalculateSize { name, .. } => {
            let mut out = "Size calculation for \"".to_owned();
            out.append(name.as_str());
            out.append("\" failed: ");
            out.append(error);
            Event::Toast(out)
        },
        Job::FolderInfo { .. } => Event::Toast(
            text::concat("Reading folder info failed: ", error),
        ),
        _ => Event::Toast(error.to_string()),
    }
}

/// Why an encrypted session cannot be opened before the vault is looked at.
#[derive(Clone, Copy, Debug, PartialEq, Eq, Structural)]
pub enum ConnectError {
    PasswordRequired,
}

impl ConnectError {
    /// What the user is told.
    pub fn message(&self) -> (r: String)
        ensures
            r@ == "an encryption password is required when E2EE is enabled"@,
    {
        "an encryption password is required when E2EE is enabled".to_owned()
    }
}

/// The password to unlock the vault with: none for a plain session, and not an
/// empty one for an encrypted session.
pub fn vault_password(e2ee: bool, password: Option<&str>) -> (r: Result<
    Option<String>,
    ConnectError,
>)
    ensures
        r is Err <==> e2ee && (password matches Some(p) ==> p@.len() == 0),
        r matches Ok(given) ==> match given {
            Some(p) => e2ee && password is Some && p@ == password->0@,
            None => !e2ee,
        },
{
    if !e2ee {
        return Ok(None);
    }
    match password {
        Some(p) => {
            if p.is_empty() {
                Err(ConnectError::PasswordRequired)
            } else {
                Ok(Some(p.to_string()))
            }
        },
        None => Err(ConnectError::PasswordRequired),
    }
}

/// The keys of a session, and the vault to store where there was none.
pub struct Unlocked {
    pub keys: VaultKeys,
    pub store: Option<VaultFile>,
}

/// Unlocks the vault that was found with a password, or makes one where none was
/// found.
pub fn unlock(vault: Option<&VaultFile>, password: &str) -> (r: Result<Unlocked, CryptoError>)
    requires
        vault matches Some(v) ==> v.canary@.len() <= 12 + u32::MAX * 0x10_0010,
    ensures
        match vault {
            Some(v) => match crypto::vault_opens(v.salt@, v.canary@, password@) {
                Ok((content, name)) => {
                    &&& r is Ok
                    &&& r->Ok_0.keys.content_key() == content
                    &&& r->Ok_0.keys.name_key() == name
                    &&& r->Ok_0.store is None
                },
                Err(e) => r == Err::<Unlocked, CryptoError>(e),
            },
            None => if encode_utf8(password@).len() > 0xffff_ffff {
                r == Err::<Unlocked, CryptoError>(CryptoError::PasswordTooLong)
            } else {
                &&& r is Ok
                &&& r->Ok_0.store matches Some(v) && crypto::vault_opens(
                    v.salt@,
                    v.canary@,
                    password@,
                ) == Ok::<(Seq<u8>, Seq<u8>), CryptoError>(
                    (r->Ok_0.keys.content_key(), r->Ok_0.keys.name_key()),
                )
            },
        },
{
    match vault {
        Some(v) => match crypto::open_vault(v, password) {
            Ok(keys) => Ok(Unlocked { keys, store: None }),
            Err(e) => Err(e),
        },
        None => match crypto::create_vault(password) {
            Ok((file, keys)) => Ok(Unlocked { keys, store: Some(file) }),
            Err(e) => Err(e),
        },
    }
}

/// The directory of the vault that accounts without a home share.
pub const SHARED_VAULT_DIR: &'static str = "/var/lib/rabbit-storage-explorer";

/// Where the vault of a connection is kept: at the root of the storage unit, or,
/// over SFTP, by its absolute path in the account's home. Accounts without a
/// home share one vault.
pub open spec fn vault_place(kind: BackendKind, home: Option<Seq<char>>) -> Seq<char> {
    match kind {
        BackendKind::Sftp => {
            let dir = match home {
                Some(h) => text::trim_end_char(h, '/'),
                None => Seq::empty(),
            };
            if dir.len() == 0 {
                SHARED_VAULT_DIR@.push('/') + crypto::VAULT_KEY@
            } else {
                dir.push('/') + crypto::VAULT_KEY@
            }
        },
        _ => crypto::VAULT_KEY@,
    }
}

/// Where the vault of a connection is kept.
pub fn vault_path(kind: BackendKind, home: Option<&str>) -> (r: String)
    ensures
        r@ == vault_place(
            kind,
            match home {
                Some(h) => Some(h@),
                None => None,
            },
        ),
{
    match kind {
        BackendKind::Sftp => {
            let mut dir = match home {
                Some(h) => text::trim_end(h, '/'),
                None => String::new(),
            };
            if dir.as_str().is_empty() {
                dir = SHARED_VAULT_DIR.to_owned();
            }
            dir.push('/');
            dir.append(crypto::VAULT_KEY);
            dir
        },
        _ => crypto::VAULT_KEY.to_owned(),
    }
}

/// The vault of an SFTP account stays where it is, whatever directory of the
/// account is browsed: its place depends on the home alone.
pub proof fn law_vault_is_anchored(home: Seq<char>)
    requires
        text::trim_end_char(home, '/').len() > 0,
    ensures
        vault_place(BackendKind::Sftp, Some(home)) == text::trim_end_char(home, '/').push('/')
            + crypto::VAULT_KEY@,
        vault_place(BackendKind::Sftp, Some(home)) != vault_place(BackendKind::S3, Some(home)),
{
    let place = vault_place(BackendKind::Sftp, Some(home));
    assert(place.len() > crypto::VAULT_KEY@.len());
}

/// What has happened on the way to a healthy connection.
#[derive(Clone, Copy, Debug, PartialEq, Eq, Structural)]
pub enum HealEvent {
    /// The connection was probed.
    Probed { healthy: bool },
    /// The turn to connect again has come; the connection was replaced so many
    /// times when the probe failed, and so many times now.
    MyTurn { seen: u64, now: u64 },
    /// The user was told, or the wait is over.
    Ready { cancelled: bool },
    /// An attempt was made.
    Tried { connected: bool },
    /// The new connection is in place.
    Replaced,
}

/// What is done next for a healthy connection.
#[derive(Clone, Copy, Debug, PartialEq, Eq, Structural)]
pub enum HealStep {
    Done,
    /// Wait for the turn to connect again: one task does, the others wait.
    TakeTurn,
    /// Tell the user that the connection was lost.
    TellLost,
    Connect,
    /// Put the new connection in place and tell the user.
    Replace,
    /// Wait for so many milliseconds, or until cancelled.
    Wait { ms: u64 },
}

/// The delay between attempts that counts: at least two hundred milliseconds.
pub open spec fn delay_of(reconnect_ms: u64) -> u64 {
    if reconnect_ms < 200 {
        200
    } else {
        reconnect_ms
    }
}

/// The delay between attempts that counts.
pub fn reconnect_delay(reconnect_ms: u64) -> (r: u64)
    ensures
        r == delay_of(reconnect_ms),
{
    if reconnect_ms < 200 {
        200
    } else {
        reconnect_ms
    }
}

/// What is done next for a healthy connection.
pub open spec fn healed(event: HealEvent, reconnect_ms: u64) -> HealStep {
    match event {
        HealEvent::Probed { healthy } => if healthy {
            HealStep::Done
        } else {
            HealStep::TakeTurn
        },
        HealEvent::MyTurn { seen, now } => if seen != now {
            HealStep::Done
        } else {
            HealStep::TellLost
        },
        HealEvent::Ready { cancelled } => if cancelled {
            HealStep::Done
        } else {
            HealStep::Connect
        },
        HealEvent::Tried { connected } => if connected {
            HealStep::Replace
        } else {
            HealStep::Wait { ms: delay_of(reconnect_ms) }
        },
        HealEvent::Replaced => HealStep::Done,
    }
}

/// What is done next for a healthy connection: nothing where it is healthy or
/// another task has replaced it meanwhile; else attempts until one succeeds or
/// the work is cancelled.
pub fn heal(event: HealEvent, reconnect_ms: u64) -> (r: HealStep)
    ensures
        r == healed(event, reconnect_ms),
{
    match event {
        HealEvent::Probed { healthy } => if healthy {
            HealStep::Done
        } else {
            HealStep::TakeTurn
        },
        HealEvent::MyTurn { seen, now } => if seen != now {
            HealStep::Done
        } else {
            HealStep::TellLost
        },
        HealEvent::Ready { cancelled } => if cancelled {
            HealStep::Done
        } else {
            HealStep::Connect
        },
        HealEvent::Tried { connected } => if connected {
            HealStep::Replace
        } else {
            HealStep::Wait { ms: reconnect_delay(reconnect_ms) }
        },
        HealEvent::Replaced => HealStep::Done,
    }
}

/// Nobody connects again a connection that is healthy, or that another task has
/// replaced since the probe.
pub proof fn law_one_task_reconnects(seen: u64, now: u64, reconnect_ms: u64)
    ensures
        healed(HealEvent::Probed { healthy: true }, reconnect_ms) == HealStep::Done,
        seen != now ==> healed(HealEvent::MyTurn { seen, now }, reconnect_ms) == HealStep::Done,
        healed(HealEvent::Ready { cancelled: true }, reconnect_ms) == HealStep::Done,
        healed(HealEvent::Tried { connected: false }, reconnect_ms) matches HealStep::Wait { ms }
            && ms >= 200,
{
}

/// On an open session each piece of work is done as it was asked for, on what was
/// named and where it was named.
pub proof fn law_work_is_done_as_asked(
    d: Dispatcher,
    a: String,
    b: String,
    c: String,
    flag: bool,
    other: bool,
    items: Vec<RemoteEntry>,
    paths: Vec<String>,
)
    requires
        d.connected,
    ensures
        action_for(d, Command::List { prefix: a }) == Action::Run(Job::List { prefix: a }),
        action_for(d, Command::Upload { paths, dest_prefix: a }) == Action::Run(
            Job::Upload { paths, dest_prefix: a },
        ),
        action_for(d, Command::CreateFolder { prefix: a, name: b }) == Action::Run(
            Job::CreateFolder { prefix: a, name: b },
        ),
        action_for(d, Command::Download { items, dest: a }) == Action::Run(
            Job::Download { items, dest: a },
        ),
        action_for(d, Command::Delete { items }) == Action::Run(Job::Delete { items }),
        action_for(d, Command::Move { items, dest_prefix: a }) == Action::Run(
            Job::Move { items, dest_prefix: a },
        ),
        action_for(
            d,
            Command::Rename { key: a, is_dir: flag, old_name: b, new_name: c, encrypted: other },
        ) == Action::Run(
            Job::Rename { key: a, is_dir: flag, old_name: b, new_name: c, encrypted: other },
        ),
        action_for(d, Command::CalculateSize { key: a, name: b, encrypted: flag }) == Action::Run(
            Job::CalculateSize { key: a, name: b, encrypted: flag },
        ),
        action_for(d, Command::FolderInfo { key: a, name: b }) == Action::Run(
            Job::FolderInfo { key: a, name: b },
        ),
{
}

/// Transfers can be cancelled at any time, all of them or one.
pub proof fn law_cancel_needs_no_session(d: Dispatcher, id: u64)
    ensures
        action_for(d, Command::CancelTransfers) == Action::CancelAll,
        action_for(d, Command::CancelFile { id }) == (Action::CancelFile { id }),
        after_command(d, Command::CancelTransfers) == d,
        after_command(d, Command::CancelFile { id }) == d,
        action_for(d, Command::Disconnect) == (Action::Disconnect { stop_timer: d.timer }),
{
}

/// New settings are kept, and those of an open session are brought up to date: a
/// delay of less than a second counts as one second.
pub proof fn law_settings_are_kept(d: Dispatcher, s: Settings)
    requires
        delay_fits(s),
        s.manifest_flush_secs <= 1_000_000_000_000_000,
    ensures
        after_command(d, Command::SetSettings(s)).settings == s,
        after_command(d, Command::SetSettings(s)).connected == d.connected,
        after_command(d, Command::SetSettings(s)).timer == d.timer,
        !d.connected ==> action_for(d, Command::SetSettings(s)) == Action::Nothing,
        d.connected ==> (action_for(d, Command::SetSettings(s)) matches Action::Apply {
            reconnect_ms,
            flush_ms,
        } && reconnect_ms == if s.reconnect_interval_secs < 1 {
            1000
        } else {
            s.reconnect_interval_secs * 1000
        } && flush_ms == if s.manifest_flush_secs < 1 {
            1000
        } else {
            s.manifest_flush_secs * 1000
        }),
{
    assert(settings::at_least_one(s.manifest_flush_secs) * 1000 % 0x1_0000_0000_0000_0000
        == settings::at_least_one(s.manifest_flush_secs) * 1000);
}

/// A connection is made with what was entered, and with the delay that was set.
pub proof fn law_connects_as_entered(
    d: Dispatcher,
    profile: ConnectionProfile,
    secret_key: String,
    password: Option<String>,
)
    requires
        delay_fits(d.settings),
    ensures
        action_for(d, Command::Connect { profile, secret_key, password }) matches Action::Connect {
            profile: p,
            secret_key: k,
            password: w,
            reconnect_ms,
        } && p == profile && k == secret_key && w == password && reconnect_ms
            == if d.settings.reconnect_interval_secs < 1 {
            1000
        } else {
            d.settings.reconnect_interval_secs * 1000
        },
        after_command(d, Command::Connect { profile, secret_key, password }) == d,
{
}

/// A connection that was lost is tried again until it is there or the work is
/// cancelled, with the delay that was set between attempts, and of a fifth of a
/// second at least.
pub proof fn law_lost_connection_comes_back(seen: u64, reconnect_ms: u64)
    ensures
        healed(HealEvent::Probed { healthy: false }, reconnect_ms) == HealStep::TakeTurn,
        healed(HealEvent::MyTurn { seen, now: seen }, reconnect_ms) == HealStep::TellLost,
        healed(HealEvent::Ready { cancelled: false }, reconnect_ms) == HealStep::Connect,
        healed(HealEvent::Tried { connected: true }, reconnect_ms) == HealStep::Replace,
        healed(HealEvent::Replaced, reconnect_ms) == HealStep::Done,
        healed(HealEvent::Tried { connected: false }, reconnect_ms) matches HealStep::Wait { ms }
            && ms >= reconnect_ms && ms >= 200 && (ms == reconnect_ms || ms == 200),
{
}

/// Each backend but SFTP keeps its vault at the root of the storage unit. Over SFTP it
/// lies in the account's home, and that of accounts without one in a directory that
/// they share; its path is absolute where the home's is.
pub proof fn law_vault_has_one_place(kind: BackendKind, home: Option<Seq<char>>)
    ensures
        !(kind is Sftp) ==> vault_place(kind, home) == ".rse-vault"@,
        kind is Sftp && home is None ==> vault_place(kind, home)
            == "/var/lib/rabbit-storage-explorer"@ + seq!['/'] + ".rse-vault"@,
        kind is Sftp ==> (home matches Some(h) ==> {
            &&& (forall|i: int| 0 <= i < h.len() ==> h[i] == '/') ==> vault_place(kind, home)
                == vault_place(kind, None)
            &&& h.len() > 0 && h.last() != '/' ==> vault_place(kind, home) == h + seq!['/']
                + ".rse-vault"@
            &&& vault_place(kind, home) == vault_place(kind, Some(h.push('/')))
        }),
{
    if let Some(h) = home {
        text::law_trim_end_takes_the_run(h, text::is_char('/'));
        assert(h.push('/').drop_last() =~= h);
        assert(h.push('/').last() == '/');
        assert(text::trim_end_char(h.push('/'), '/') == text::trim_end_char(h, '/'));
        assert(h.push('/') =~= h + seq!['/']);
        if forall|i: int| 0 <= i < h.len() ==> h[i] == '/' {
            assert(text::trim_end_char(h, '/').len() == 0);
        }
        if h.len() > 0 && h.last() != '/' {
            assert(text::trim_end_char(h, '/') == h);
        }
    }
    assert(SHARED_VAULT_DIR@.push('/') =~= SHARED_VAULT_DIR@ + seq!['/']);
}

} // verus!
