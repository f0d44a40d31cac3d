//! What the user interface asks of the worker, and what the worker reports.

use crate::settings::{ConnectionProfile, Settings};
use crate::storage::entries::RemoteEntry;
use vstd::prelude::*;

verus! {

/// What the user interface asks for. Local paths are given as text.
#[derive(Clone, Debug)]
pub enum Command {
    Connect { profile: ConnectionProfile, secret_key: String, password: Option<String> },
    Disconnect,
    /// `prefix` is the stored key prefix, empty for the root.
    List { prefix: String },
    Upload { paths: Vec<String>, dest_prefix: String },
    /// Create an empty folder named `name` under the stored prefix `prefix`.
    CreateFolder { prefix: String, name: String },
    Download { items: Vec<RemoteEntry>, dest: String },
    Delete { items: Vec<RemoteEntry> },
    Move { items: Vec<RemoteEntry>, dest_prefix: String },
    Rename { key: String, is_dir: bool, old_name: String, new_name: String, encrypted: bool },
    CalculateSize { key: String, name: String, encrypted: bool },
    FolderInfo { key: String, name: String },
    CancelTransfers,
    CancelFile { id: u64 },
    SetSettings(Settings),
}

/// Which way a file goes.
#[derive(Clone, Copy, Debug, PartialEq, Eq, Hash, Structural)]
pub enum TransferKind {
    Upload,
    Download,
}

/// How far one file has come. Its speed is measured by the owner of the clock.
#[derive(Clone, Debug)]
pub struct FileProgress {
    pub id: u64,
    pub name: String,
    pub kind: TransferKind,
    pub done: u64,
    pub total: u64,
}

/// How far one file has come.
pub struct TrackView {
    pub id: u64,
    pub name: Seq<char>,
    pub kind: TransferKind,
    pub done: u64,
    pub total: u64,
}

impl View for FileProgress {
    type V = TrackView;

    open spec fn view(&self) -> TrackView {
        TrackView {
            id: self.id,
            name: self.name@,
            kind: self.kind,
            done: self.done,
            total: self.total,
        }
    }
}

/// The files of a list.
pub open spec fn track_views(list: Seq<FileProgress>) -> Seq<TrackView> {
    list.map_values(|f: FileProgress| f@)
}

impl FileProgress {
    /// An equal record.
    pub(crate) fn copy(&self) -> (r: Self)
        ensures
            r@ == self@,
    {
        FileProgress {
            id: self.id,
            name: self.name.clone(),
            kind: self.kind,
            done: self.done,
            total: self.total,
        }
    }
}

/// The sizes of one file in a folder.
#[derive(Clone, Debug)]
pub struct FileInfo {
    /// The path from the inspected folder, in real names.
    pub rel_path: String,
    pub plaintext: u64,
    pub encrypted: u64,
}

/// What an encrypted folder holds.
#[derive(Clone, Debug)]
pub struct FolderInfo {
    pub name: String,
    pub file_count: u64,
    pub folder_count: u64,
    pub plaintext_total: u64,
    pub encrypted_total: u64,
    /// When the folder's size was last computed, in milliseconds since the epoch.
    pub computed: Option<i64>,
    /// The files, largest first.
    pub files: Vec<FileInfo>,
}

/// What the worker reports.
#[derive(Clone, Debug)]
pub enum Event {
    Connected { label: String, e2ee: bool },
    ConnectFailed(String),
    Listed { prefix: String, entries: Vec<RemoteEntry> },
    ListFailed(String),
    TransferStarted { total_files: u64, total_bytes: u64, files: Vec<FileProgress> },
    TransferExtended { total_files: u64, total_bytes: u64, added: Vec<FileProgress> },
    TransferProgress {
        done_files: u64,
        failed_files: u64,
        bytes_done: u64,
        files: Vec<FileProgress>,
        finished: Option<(u64, bool)>,
    },
    TransferFinished { uploaded: u64, downloaded: u64, failed: u64, errors: Vec<String> },
    Deleted { count: u64 },
    Moved { count: u64 },
    Renamed,
    SizeCalculated { plaintext: u64, encrypted: u64 },
    FolderCreated,
    Toast(String),
    FolderInfo(FolderInfo),
}

} // verus!
