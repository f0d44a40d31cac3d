//! In-memory buffering and flush scheduling for per-directory manifests.
//!
//! Manifests are held in memory and written back lazily. A directory is dirty
//! once its manifest changed. A dirty directory is written by a timer flush once
//! it has been quiet for the flush interval, and by a forced flush (a batch or
//! an operation finished, or the app is closing) at once; by either only where
//! its manifest differs from what was written last.
//!
//! The store decides; its owner reads and writes the objects and says what time
//! it is, in milliseconds.

use crate::crypto;
use crate::crypto::{CryptoError, VaultKeys};
use crate::key_map;
use crate::key_map::KeyMap;
use crate::manifest;
use crate::manifest::{Entry, FileView, Manifest, ManifestView, MANIFEST_KEY};
use crate::text;
use vstd::prelude::*;
use vstd::string::*;
use vstd::utf8::*;

verus! {

/// Why a flush is happening.
#[derive(Clone, Copy, Debug, PartialEq, Eq, Structural)]
pub enum FlushReason {
    /// The timer fired: only directories that have been quiet are written.
    Timer,
    /// A batch or an operation finished, or the app is closing.
    Forced,
}

/// Decides which directories a flush writes.
pub struct FlushPlan;

/// What is known of one directory when a flush is decided.
pub struct FlushCandidate<'a> {
    pub dir: &'a str,
    pub fingerprint: u64,
    pub written_fingerprint: Option<u64>,
    /// Milliseconds since the directory last changed.
    pub since_change: u64,
}

/// Whether a directory is written: its fingerprint differs from the written one,
/// and the flush is forced or the directory has been quiet for the interval.
pub open spec fn is_due(
    reason: FlushReason,
    interval: u64,
    fingerprint: u64,
    written: Option<u64>,
    since_change: u64,
) -> bool {
    written != Some(fingerprint) && (reason == FlushReason::Forced || since_change >= interval)
}

/// The directories that a flush writes, in the order of the candidates.
pub open spec fn due_dirs(
    reason: FlushReason,
    interval: u64,
    candidates: Seq<FlushCandidate>,
) -> Seq<Seq<char>>
    decreases candidates.len(),
{
    if candidates.len() == 0 {
        Seq::empty()
    } else {
        let c = candidates.last();
        let front = due_dirs(reason, interval, candidates.drop_last());
        if is_due(reason, interval, c.fingerprint, c.written_fingerprint, c.since_change) {
            front.push(c.dir@)
        } else {
            front
        }
    }
}

/// The characters of each string of a list.
pub open spec fn str_views(list: Seq<&str>) -> Seq<Seq<char>> {
    list.map_values(|s: &str| s@)
}

fn due(
    reason: FlushReason,
    interval: u64,
    fingerprint: u64,
    written: Option<u64>,
    since_change: u64,
) -> (r: bool)
    ensures
        r == is_due(reason, interval, fingerprint, written, since_change),
{
    let changed = match written {
        Some(w) => w != fingerprint,
        None => true,
    };
    changed && (reason == FlushReason::Forced || since_change >= interval)
}

impl FlushPlan {
    /// The candidates that are written now.
    pub fn select<'a>(
        reason: FlushReason,
        interval: u64,
        candidates: &Vec<FlushCandidate<'a>>,
    ) -> (r: Vec<&'a str>)
        ensures
            str_views(r@) == due_dirs(reason, interval, candidates@),
    {
        let mut out: Vec<&'a str> = Vec::new();
        let mut i: usize = 0;
        assert(str_views(out@) =~= due_dirs(reason, interval, candidates@.take(0)));
        while i < candidates.len()
            invariant
                i <= candidates@.len(),
                str_views(out@) == due_dirs(reason, interval, candidates@.take(i as int)),
            decreases candidates@.len() - i,
        {
            let c = &candidates[i];
            let ghost before = str_views(out@);
            assert(candidates@.take(i as int + 1).drop_last() =~= candidates@.take(i as int));
            if due(reason, interval, c.fingerprint, c.written_fingerprint, c.since_change) {
                out.push(c.dir);
                assert(str_views(out@) =~= before.push(c.dir@));
            }
            i += 1;
        }
        assert(candidates@.take(i as int) =~= candidates@);
        out
    }
}

/// One buffered directory.
pub struct DirState {
    manifest: Manifest,
    written_fingerprint: Option<u64>,
    last_change: u64,
    dirty: bool,
}

/// One buffered directory.
pub struct DirStateView {
    pub manifest: ManifestView,
    /// The fingerprint of the manifest as it was written last, if it was.
    pub written: Option<u64>,
    /// When the manifest last changed in memory.
    pub last_change: u64,
    pub dirty: bool,
}

impl View for DirState {
    type V = DirStateView;

    closed spec fn view(&self) -> DirStateView {
        DirStateView {
            manifest: self.manifest@,
            written: self.written_fingerprint,
            last_change: self.last_change,
            dirty: self.dirty,
        }
    }
}

/// The fingerprint of a manifest.
pub open spec fn fingerprint_of(m: ManifestView) -> u64 {
    manifest::fnv1a(encode_utf8(manifest::manifest_json(m)))
}

/// A change to a directory's manifest.
pub enum Edit {
    UpsertFile { encrypted: String, name: String, size: u64 },
    UpsertFolder { encrypted: String, name: String },
    SetFolderSize { encrypted: String, plain: u64, stored: u64, computed: i64 },
    Remove { encrypted: String },
    Rename { encrypted: String, new_encrypted: String, name: String },
    Insert { encrypted: String, entry: Entry },
}

/// The manifest after a change.
pub open spec fn edited(m: ManifestView, edit: Edit) -> ManifestView {
    match edit {
        Edit::UpsertFile { encrypted, name, size } => m.with_file(
            manifest::entry_hash(encrypted@),
            FileView { name: name@, size, extra: Map::empty() },
        ),
        Edit::UpsertFolder { encrypted, name } => m.with_folder(
            manifest::entry_hash(encrypted@),
            m.folder_named(manifest::entry_hash(encrypted@), name@),
        ),
        Edit::SetFolderSize { encrypted, plain, stored, computed } => {
            let key = manifest::entry_hash(encrypted@);
            if m.folders.contains_key(key) {
                m.with_folder(
                    key,
                    manifest::FolderView {
                        size: Some(plain),
                        esize: Some(stored),
                        computed: Some(computed),
                        ..m.folders[key]
                    },
                )
            } else {
                m
            }
        },
        Edit::Remove { encrypted } => m.without(manifest::entry_hash(encrypted@)),
        Edit::Rename { encrypted, new_encrypted, name } => m.renamed(
            manifest::entry_hash(encrypted@),
            manifest::entry_hash(new_encrypted@),
            name@,
        ),
        Edit::Insert { encrypted, entry } => m.with_entry(
            manifest::entry_hash(encrypted@),
            entry@,
        ),
    }
}

fn apply(m: &mut Manifest, edit: Edit)
    ensures
        final(m)@ == edited(old(m)@, edit),
{
    match edit {
        Edit::UpsertFile { encrypted, name, size } => m.upsert_file(
            encrypted.as_str(),
            name.as_str(),
            size,
        ),
        Edit::UpsertFolder { encrypted, name } => m.upsert_folder(
            encrypted.as_str(),
            name.as_str(),
        ),
        Edit::SetFolderSize { encrypted, plain, stored, computed } => m.set_folder_size(
            encrypted.as_str(),
            plain,
            stored,
            computed,
        ),
        Edit::Remove { encrypted } => {
            let _ = m.remove(encrypted.as_str());
        },
        Edit::Rename { encrypted, new_encrypted, name } => {
            let _ = m.rename_entry(encrypted.as_str(), new_encrypted.as_str(), name.as_str());
        },
        Edit::Insert { encrypted, entry } => m.insert_entry(encrypted.as_str(), entry),
    }
}

/// A manifest that a flush writes.
pub struct ManifestWrite {
    pub dir: String,
    /// The key of the object to write.
    pub key: String,
    pub blob: Vec<u8>,
    /// The fingerprint to record once the object is written.
    pub fingerprint: u64,
}

/// The buffered manifests of a session.
pub struct ManifestStore {
    dirs: KeyMap<DirState>,
    interval_ms: u64,
}

/// Milliseconds from `then` to `now`, zero where the clock went back.
pub open spec fn elapsed(then: u64, now: u64) -> u64 {
    if now >= then {
        (now - then) as u64
    } else {
        0
    }
}

/// Whether a flush writes a buffered directory.
pub open spec fn is_due_dir(d: DirStateView, reason: FlushReason, interval: u64, now: u64) -> bool {
    d.dirty && is_due(
        reason,
        interval,
        fingerprint_of(d.manifest),
        d.written,
        elapsed(d.last_change, now),
    )
}

/// The directories among the first `k` that a flush writes, with the manifests
/// to write.
pub open spec fn due_writes(
    list: Seq<(Seq<char>, DirStateView)>,
    reason: FlushReason,
    interval: u64,
    now: u64,
) -> Seq<(Seq<char>, ManifestView)>
    decreases list.len(),
{
    if list.len() == 0 {
        Seq::empty()
    } else {
        let front = due_writes(list.drop_last(), reason, interval, now);
        if is_due_dir(list.last().1, reason, interval, now) && fits(list.last().1.manifest) {
            front.push((list.last().0, list.last().1.manifest))
        } else {
            front
        }
    }
}

/// Whether the JSON form of a manifest is short enough to be sealed.
pub open spec fn fits(m: ManifestView) -> bool {
    crypto::chunks_of(encode_utf8(manifest::manifest_json(m)).len()) <= u32::MAX
}

/// The key of the manifest object of a directory.
pub open spec fn object_key(dir: Seq<char>) -> Seq<char> {
    dir + MANIFEST_KEY@
}

/// Whether a write is the manifest of a directory, sealed.
pub open spec fn is_write(
    w: ManifestWrite,
    dir: Seq<char>,
    m: ManifestView,
    key: Seq<u8>,
) -> bool {
    &&& w.dir@ == dir
    &&& w.key@ == object_key(dir)
    &&& w.fingerprint == fingerprint_of(m)
    &&& crypto::decrypted(key, w.blob@) == Ok::<Seq<u8>, CryptoError>(
        encode_utf8(manifest::manifest_json(m)),
    )
}

/// The buffered directories after a manifest was written: a directory whose
/// manifest changed meanwhile stays dirty.
pub open spec fn recorded(
    dirs: Map<Seq<char>, DirStateView>,
    dir: Seq<char>,
    fingerprint: u64,
) -> Map<Seq<char>, DirStateView> {
    if dirs.contains_key(dir) {
        let before = dirs[dir];
        dirs.insert(
            dir,
            DirStateView {
                manifest: before.manifest,
                written: Some(fingerprint),
                last_change: before.last_change,
                dirty: before.dirty && fingerprint_of(before.manifest) != fingerprint,
            },
        )
    } else {
        dirs
    }
}

/// The buffered directories after all of some manifests were written, each as it
/// was when the flush was decided.
pub open spec fn all_recorded(
    dirs: Map<Seq<char>, DirStateView>,
    writes: Seq<(Seq<char>, ManifestView)>,
) -> Map<Seq<char>, DirStateView>
    decreases writes.len(),
{
    if writes.len() == 0 {
        dirs
    } else {
        recorded(
            all_recorded(dirs, writes.drop_last()),
            writes.last().0,
            fingerprint_of(writes.last().1),
        )
    }
}

/// The buffered directories that are due and can be sealed.
pub open spec fn due_set(
    dirs: Map<Seq<char>, DirStateView>,
    reason: FlushReason,
    interval: u64,
    now: u64,
) -> Set<Seq<char>> {
    dirs.dom().filter(
        |dir: Seq<char>|
            is_due_dir(dirs[dir], reason, interval, now) && fits(dirs[dir].manifest),
    )
}

/// The buffered directories that were changed since they were written or read.
pub open spec fn changed_set(dirs: Map<Seq<char>, DirStateView>) -> Set<Seq<char>> {
    dirs.dom().filter(
        |dir: Seq<char>|
            dirs[dir].dirty && dirs[dir].written != Some(fingerprint_of(dirs[dir].manifest)),
    )
}

impl ManifestStore {
    /// The buffered directories.
    pub closed spec fn dirs(&self) -> Map<Seq<char>, DirStateView> {
        self.dirs@
    }

    /// The flush interval as it was set, in milliseconds.
    pub closed spec fn interval_set(&self) -> u64 {
        self.interval_ms
    }

    /// The flush interval that counts: at least one millisecond.
    pub open spec fn interval_ms(&self) -> u64 {
        if self.interval_set() == 0 {
            1
        } else {
            self.interval_set()
        }
    }

    /// An empty buffer.
    pub fn new(interval_ms: u64) -> (r: Self)
        ensures
            r.dirs() == Map::<Seq<char>, DirStateView>::empty(),
            r.interval_set() == interval_ms,
    {
        ManifestStore { dirs: KeyMap::new(), interval_ms }
    }

    /// Changes the flush interval.
    pub fn set_interval(&mut self, interval_ms: u64)
        ensures
            final(self).dirs() == old(self).dirs(),
            final(self).interval_set() == interval_ms,
    {
        self.interval_ms = interval_ms;
    }

    /// The flush interval in milliseconds, for the timer's sleep.
    pub fn interval(&self) -> (r: u64)
        ensures
            r == self.interval_ms(),
    {
        if self.interval_ms == 0 {
            1
        } else {
            self.interval_ms
        }
    }

    /// The key of the manifest object of a directory.
    pub fn manifest_object_key(dir: &str) -> (r: String)
        ensures
            r@ == object_key(dir@),
    {
        text::concat(dir, MANIFEST_KEY)
    }

    /// The buffered manifest of a directory, if it is buffered.
    pub fn buffered(&self, dir: &str) -> (r: Option<&Manifest>)
        ensures
            match r {
                Some(m) => self.dirs().contains_key(dir@) && m@ == self.dirs()[dir@].manifest,
                None => !self.dirs().contains_key(dir@),
            },
    {
        match self.dirs.get(dir) {
            Some(state) => Some(&state.manifest),
            None => None,
        }
    }

    /// Buffers a manifest that was read from storage, unless the directory was
    /// buffered meanwhile. What was read counts as written.
    pub fn load(&mut self, dir: &str, manifest: Manifest, now: u64)
        ensures
            final(self).interval_set() == old(self).interval_set(),
            final(self).dirs() == if old(self).dirs().contains_key(dir@) {
                old(self).dirs()
            } else {
                old(self).dirs().insert(
                    dir@,
                    DirStateView {
                        manifest: manifest@,
                        written: Some(fingerprint_of(manifest@)),
                        last_change: now,
                        dirty: false,
                    },
                )
            },
    {
        if self.dirs.get(dir).is_none() {
            let fingerprint = manifest.fingerprint();
            self.dirs.insert(
                dir.to_owned(),
                DirState {
                    manifest,
                    written_fingerprint: Some(fingerprint),
                    last_change: now,
                    dirty: false,
                },
            );
        }
    }

    /// Changes the manifest of a buffered directory and marks it dirty. Returns
    /// whether the directory was buffered.
    pub fn edit(&mut self, dir: &str, edit: Edit, now: u64) -> (r: bool)
        ensures
            final(self).interval_set() == old(self).interval_set(),
            r == old(self).dirs().contains_key(dir@),
            final(self).dirs() == if r {
                old(self).dirs().insert(
                    dir@,
                    DirStateView {
                        manifest: edited(old(self).dirs()[dir@].manifest, edit),
                        written: old(self).dirs()[dir@].written,
                        last_change: now,
                        dirty: true,
                    },
                )
            } else {
                old(self).dirs()
            },
    {
        match self.dirs.remove(dir) {
            Some(mut state) => {
                apply(&mut state.manifest, edit);
                state.last_change = now;
                state.dirty = true;
                let ghost s = state@;
                self.dirs.insert(dir.to_owned(), state);
                assert(self.dirs() =~= old(self).dirs().insert(dir@, s));
                true
            },
            None => {
                assert(self.dirs() =~= old(self).dirs());
                false
            },
        }
    }

    /// Takes a record out of a buffered directory. The directory is marked dirty
    /// if there was one.
    pub fn take_entry(&mut self, dir: &str, encrypted_segment: &str, now: u64) -> (r: Option<Entry>)
        ensures
            final(self).interval_set() == old(self).interval_set(),
            ({
                let stored = manifest::entry_hash(encrypted_segment@);
                let before = old(self).dirs();
                let m = before[dir@].manifest;
                if before.contains_key(dir@) && m.entry_of(stored) is Some {
                    &&& r is Some
                    &&& m.entry_of(stored) == Some(r->0@)
                    &&& final(self).dirs() == before.insert(
                        dir@,
                        DirStateView {
                            manifest: m.without_entry(stored),
                            written: before[dir@].written,
                            last_change: now,
                            dirty: true,
                        },
                    )
                } else {
                    &&& r is None
                    &&& final(self).dirs() == before
                }
            }),
    {
        match self.dirs.remove(dir) {
            Some(mut state) => {
                let ghost s0 = state@;
                let taken = state.manifest.take_entry(encrypted_segment);
                if taken.is_some() {
                    state.last_change = now;
                    state.dirty = true;
                } else {
                    assert(state@.manifest.files =~= s0.manifest.files);
                    assert(state@.manifest.folders =~= s0.manifest.folders);
                }
                let ghost s = state@;
                self.dirs.insert(dir.to_owned(), state);
                assert(self.dirs() =~= old(self).dirs().insert(dir@, s));
                if taken.is_none() {
                    assert(self.dirs() =~= old(self).dirs());
                }
                taken
            },
            None => {
                assert(self.dirs() =~= old(self).dirs());
                None
            },
        }
    }

    /// Puts a record into a buffered directory and marks it dirty. Returns
    /// whether the directory was buffered.
    pub fn insert_entry(
        &mut self,
        dir: &str,
        encrypted_segment: &str,
        entry: Entry,
        now: u64,
    ) -> (r: bool)
        ensures
            final(self).interval_set() == old(self).interval_set(),
            r == old(self).dirs().contains_key(dir@),
            final(self).dirs() == if r {
                old(self).dirs().insert(
                    dir@,
                    DirStateView {
                        manifest: old(self).dirs()[dir@].manifest.with_entry(
                            manifest::entry_hash(encrypted_segment@),
                            entry@,
                        ),
                        written: old(self).dirs()[dir@].written,
                        last_change: now,
                        dirty: true,
                    },
                )
            } else {
                old(self).dirs()
            },
    {
        self.edit(dir, Edit::Insert { encrypted: encrypted_segment.to_owned(), entry }, now)
    }

    /// The manifests that a flush writes now, sealed, in the order of their
    /// directories: one for each directory that is due. A manifest too long to be
    /// sealed is left out.
    pub fn flush(&self, keys: &VaultKeys, reason: FlushReason, now: u64) -> (r: Vec<ManifestWrite>)
        ensures
            ({
                let due = due_writes(
                    key_map::listing(self.dirs()),
                    reason,
                    self.interval_ms(),
                    now,
                );
                &&& r@.len() == due.len()
                &&& forall|i: int|
                    0 <= i < due.len() ==> is_write(
                        #[trigger] r@[i],
                        due[i].0,
                        due[i].1,
                        keys.content_key(),
                    )
            }),
            r@.len() == due_set(self.dirs(), reason, self.interval_ms(), now).len(),
            forall|dir: Seq<char>| #[trigger]
                due_set(self.dirs(), reason, self.interval_ms(), now).contains(dir) ==> exists|i: int|
                    0 <= i < r@.len() && is_write(
                        #[trigger] r@[i],
                        dir,
                        self.dirs()[dir].manifest,
                        keys.content_key(),
                    ),
    {
        let ghost list = key_map::listing(self.dirs());
        let interval = self.interval();
        let n = self.dirs.len();
        let mut out: Vec<ManifestWrite> = Vec::new();
        let mut i: usize = 0;
        assert(list.take(0) =~= Seq::empty());
        while i < n
            invariant
                n == list.len(),
                list == key_map::listing(self.dirs@),
                interval == self.interval_ms(),
                i <= n,
                ({
                    let due = due_writes(list.take(i as int), reason, interval, now);
                    &&& out@.len() == due.len()
                    &&& forall|j: int|
                        0 <= j < due.len() ==> is_write(
                            #[trigger] out@[j],
                            due[j].0,
                            due[j].1,
                            keys.content_key(),
                        )
                }),
            decreases n - i,
        {
            let dir = self.dirs.key_at(i);
            let state = self.dirs.value_at(i);
            let ghost t = list.take(i as int + 1);
            assert(t.drop_last() =~= list.take(i as int));
            assert(t.last() == list[i as int]);
            if state.dirty {
                let fingerprint = state.manifest.fingerprint();
                let since: u64 = if now >= state.last_change {
                    now - state.last_change
                } else {
                    0
                };
                if due(reason, interval, fingerprint, state.written_fingerprint, since) {
                    if let Ok(blob) = state.manifest.encrypt(keys) {
                        let key = Self::manifest_object_key(dir.as_str());
                        let write = ManifestWrite { dir: dir.clone(), key, blob, fingerprint };
                        assert(is_write(write, t.last().0, t.last().1.manifest, keys.content_key()));
                        out.push(write);
                    }
                }
            }
            i += 1;
        }
        assert(list.take(i as int) =~= list);
        proof {
            let writes = due_writes(list, reason, interval, now);
            law_dirs_are_finite(*self);
            law_flush_writes_each_once(self.dirs(), reason, interval, now);
            assert forall|dir: Seq<char>| #[trigger]
                due_set(self.dirs(), reason, interval, now).contains(dir) implies exists|i: int|
                0 <= i < out@.len() && is_write(
                    #[trigger] out@[i],
                    dir,
                    self.dirs()[dir].manifest,
                    keys.content_key(),
                ) by {
                let k = choose|k: int| 0 <= k < writes.len() && (#[trigger] writes[k]).0 == dir;
                assert(is_write(out@[k], dir, self.dirs()[dir].manifest, keys.content_key()));
            }
        }
        out
    }

    /// Records that a manifest was written. If the manifest changed meanwhile the
    /// directory stays dirty.
    pub fn record_written(&mut self, dir: &str, fingerprint: u64)
        ensures
            final(self).interval_set() == old(self).interval_set(),
            final(self).dirs() == recorded(old(self).dirs(), dir@, fingerprint),
    {
        match self.dirs.remove(dir) {
            Some(mut state) => {
                state.written_fingerprint = Some(fingerprint);
                if state.manifest.fingerprint() == fingerprint {
                    state.dirty = false;
                }
                let ghost s = state@;
                self.dirs.insert(dir.to_owned(), state);
                assert(self.dirs() =~= old(self).dirs().insert(dir@, s));
            },
            None => {
                assert(self.dirs() =~= old(self).dirs());
            },
        }
    }

    /// Drops a directory from the buffer.
    pub fn forget(&mut self, dir: &str)
        ensures
            final(self).interval_set() == old(self).interval_set(),
            final(self).dirs() == old(self).dirs().remove(dir@),
    {
        let _ = self.dirs.remove(dir);
    }

    /// Whether a directory is buffered and dirty.
    pub fn is_dirty(&self, dir: &str) -> (r: bool)
        ensures
            r == (self.dirs().contains_key(dir@) && self.dirs()[dir@].dirty),
    {
        match self.dirs.get(dir) {
            Some(state) => state.dirty,
            None => false,
        }
    }
}

/// A directory whose manifest has the fingerprint that was written last is never
/// written: a change that changes nothing causes no write.
pub proof fn law_unchanged_is_not_written(
    d: DirStateView,
    reason: FlushReason,
    interval: u64,
    now: u64,
)
    requires
        d.written == Some(fingerprint_of(d.manifest)),
    ensures
        !is_due_dir(d, reason, interval, now),
{
}

/// A forced flush writes every dirty directory whose manifest differs from what
/// was written last, however recently it changed.
pub proof fn law_forced_writes_all_changes(d: DirStateView, interval: u64, now: u64)
    requires
        d.dirty,
        d.written != Some(fingerprint_of(d.manifest)),
    ensures
        is_due_dir(d, FlushReason::Forced, interval, now),
{
}

/// A timer flush writes a changed directory once it has been quiet for the
/// interval, and not before.
pub proof fn law_timer_waits_for_quiet(d: DirStateView, interval: u64, now: u64)
    requires
        d.dirty,
        d.written != Some(fingerprint_of(d.manifest)),
    ensures
        is_due_dir(d, FlushReason::Timer, interval, now) <==> elapsed(d.last_change, now)
            >= interval,
{
}

/// What a flush writes are the directories that are buffered and due.
pub proof fn law_flush_writes_due(
    list: Seq<(Seq<char>, DirStateView)>,
    reason: FlushReason,
    interval: u64,
    now: u64,
)
    ensures
        forall|i: int|
            0 <= i < list.len() && is_due_dir((#[trigger] list[i]).1, reason, interval, now)
                && fits(list[i].1.manifest) ==> due_writes(list, reason, interval, now).contains(
                (list[i].0, list[i].1.manifest),
            ),
        forall|w: (Seq<char>, ManifestView)| #[trigger]
            due_writes(list, reason, interval, now).contains(w) ==> exists|i: int|
                0 <= i < list.len() && w == ((#[trigger] list[i]).0, list[i].1.manifest)
                    && is_due_dir(list[i].1, reason, interval, now) && fits(list[i].1.manifest),
    decreases list.len(),
{
    if list.len() > 0 {
        let front = list.drop_last();
        let shown = due_writes(front, reason, interval, now);
        let all = due_writes(list, reason, interval, now);
        law_flush_writes_due(front, reason, interval, now);
        assert forall|i: int|
            0 <= i < list.len() && is_due_dir((#[trigger] list[i]).1, reason, interval, now)
                && fits(list[i].1.manifest) implies all.contains(
            (list[i].0, list[i].1.manifest),
        ) by {
            let w = (list[i].0, list[i].1.manifest);
            if i < front.len() {
                assert(front[i] == list[i]);
                assert(shown.contains(w));
                let k = choose|k: int| 0 <= k < shown.len() && shown[k] == w;
                assert(all[k] == w);
            } else {
                assert(all.last() == w);
            }
        }
        assert forall|w: (Seq<char>, ManifestView)| #[trigger] all.contains(w) implies exists|i: int|
            0 <= i < list.len() && w == ((#[trigger] list[i]).0, list[i].1.manifest)
                && is_due_dir(list[i].1, reason, interval, now) && fits(list[i].1.manifest) by {
            let k = choose|k: int| 0 <= k < all.len() && all[k] == w;
            if k < shown.len() {
                assert(shown.contains(w)) by {
                    assert(shown[k] == w);
                }
                let i = choose|i: int|
                    0 <= i < front.len() && w == ((#[trigger] front[i]).0, front[i].1.manifest)
                        && is_due_dir(front[i].1, reason, interval, now) && fits(
                        front[i].1.manifest,
                    );
                assert(list[i] == front[i]);
            } else {
                assert(w == (list[list.len() - 1].0, list[list.len() - 1].1.manifest));
            }
        }
    }
}

/// The buffer holds finitely many directories.
pub proof fn law_dirs_are_finite(store: ManifestStore)
    ensures
        store.dirs().dom().finite(),
{
    key_map::law_keys_are_finite(store.dirs);
}

/// Writes stand in the order of their directories.
proof fn lemma_writes_in_order(
    list: Seq<(Seq<char>, DirStateView)>,
    reason: FlushReason,
    interval: u64,
    now: u64,
)
    requires
        forall|i: int, j: int|
            0 <= i < j < list.len() ==> text::before(
                (#[trigger] list[i]).0,
                (#[trigger] list[j]).0,
            ),
    ensures
        ({
            let w = due_writes(list, reason, interval, now);
            forall|i: int, j: int|
                0 <= i < j < w.len() ==> text::before((#[trigger] w[i]).0, (#[trigger] w[j]).0)
        }),
    decreases list.len(),
{
    if list.len() > 0 {
        let front = list.drop_last();
        let w = due_writes(list, reason, interval, now);
        let v = due_writes(front, reason, interval, now);
        assert forall|i: int, j: int| 0 <= i < j < front.len() implies text::before(
            (#[trigger] front[i]).0,
            (#[trigger] front[j]).0,
        ) by {
            assert(text::before(list[i].0, list[j].0));
        }
        lemma_writes_in_order(front, reason, interval, now);
        law_flush_writes_due(front, reason, interval, now);
        assert forall|i: int, j: int| 0 <= i < j < w.len() implies text::before(
            (#[trigger] w[i]).0,
            (#[trigger] w[j]).0,
        ) by {
            assert(w[i] == v[i]);
            if j < v.len() {
                assert(w[j] == v[j]);
            } else {
                assert(v.contains(v[i]));
                let k = choose|k: int|
                    0 <= k < front.len() && v[i] == ((#[trigger] front[k]).0, front[k].1.manifest)
                        && is_due_dir(front[k].1, reason, interval, now) && fits(
                        front[k].1.manifest,
                    );
                assert(front[k] == list[k]);
                assert(text::before(list[k].0, list[list.len() - 1].0));
            }
        }
    }
}

/// A flush writes each directory that is due once, and no other: its manifest as
/// it is buffered. A manifest too long to be sealed is left out.
pub proof fn law_flush_writes_each_once(
    dirs: Map<Seq<char>, DirStateView>,
    reason: FlushReason,
    interval: u64,
    now: u64,
)
    requires
        dirs.dom().finite(),
    ensures
        ({
            let writes = due_writes(key_map::listing(dirs), reason, interval, now);
            let due = due_set(dirs, reason, interval, now);
            &&& writes.len() == due.len()
            &&& forall|i: int|
                0 <= i < writes.len() ==> due.contains((#[trigger] writes[i]).0) && writes[i].1
                    == dirs[writes[i].0].manifest
            &&& forall|i: int, j: int|
                0 <= i < j < writes.len() ==> (#[trigger] writes[i]).0 != (#[trigger] writes[j]).0
            &&& forall|dir: Seq<char>| #[trigger]
                due.contains(dir) ==> exists|i: int|
                    0 <= i < writes.len() && (#[trigger] writes[i]).0 == dir
        }),
{
    let list = key_map::listing(dirs);
    let writes = due_writes(list, reason, interval, now);
    let due = due_set(dirs, reason, interval, now);
    key_map::law_listing_lists(dirs);
    law_flush_writes_due(list, reason, interval, now);
    lemma_writes_in_order(list, reason, interval, now);
    assert forall|i: int| 0 <= i < writes.len() implies due.contains((#[trigger] writes[i]).0)
        && writes[i].1 == dirs[writes[i].0].manifest by {
        assert(writes.contains(writes[i]));
        let k = choose|k: int|
            0 <= k < list.len() && writes[i] == ((#[trigger] list[k]).0, list[k].1.manifest)
                && is_due_dir(list[k].1, reason, interval, now) && fits(list[k].1.manifest);
        assert(dirs.contains_key(list[k].0) && dirs[list[k].0] == list[k].1);
    }
    assert forall|i: int, j: int| 0 <= i < j < writes.len() implies (#[trigger] writes[i]).0 != (
    #[trigger] writes[j]).0 by {
        assert(text::before(writes[i].0, writes[j].0));
        text::lemma_before_irreflexive(writes[i].0);
    }
    assert forall|dir: Seq<char>| #[trigger] due.contains(dir) implies exists|i: int|
        0 <= i < writes.len() && (#[trigger] writes[i]).0 == dir by {
        assert(dirs.contains_key(dir));
        let k = choose|k: int| 0 <= k < list.len() && (#[trigger] list[k]).0 == dir;
        assert(list[k].1 == dirs[dir]);
        assert(writes.contains((list[k].0, list[k].1.manifest)));
        let i = choose|i: int|
            0 <= i < writes.len() && writes[i] == (list[k].0, list[k].1.manifest);
        assert(writes[i].0 == dir);
    }
    let names = writes.map_values(|w: (Seq<char>, ManifestView)| w.0);
    assert(names.no_duplicates()) by {
        assert forall|i: int, j: int|
            0 <= i < names.len() && 0 <= j < names.len() && i != j implies names[i] != names[j] by {
            if i < j {
                assert(writes[i].0 != writes[j].0);
            } else {
                assert(writes[j].0 != writes[i].0);
            }
        }
    }
    names.unique_seq_to_set();
    assert(names.to_set() =~= due) by {
        assert forall|dir: Seq<char>| names.to_set().contains(dir) == due.contains(dir) by {
            if names.to_set().contains(dir) {
                let i = choose|i: int| 0 <= i < names.len() && names[i] == dir;
                assert(writes[i].0 == dir);
            }
            if due.contains(dir) {
                let i = choose|i: int| 0 <= i < writes.len() && (#[trigger] writes[i]).0 == dir;
                assert(names[i] == dir);
            }
        }
    }
}

/// What is known of the directories after their manifests were written.
proof fn lemma_all_recorded(
    dirs: Map<Seq<char>, DirStateView>,
    writes: Seq<(Seq<char>, ManifestView)>,
)
    requires
        forall|i: int|
            0 <= i < writes.len() ==> dirs.contains_key((#[trigger] writes[i]).0) && writes[i].1
                == dirs[writes[i].0].manifest,
    ensures
        ({
            let after = all_recorded(dirs, writes);
            &&& after.dom() == dirs.dom()
            &&& forall|dir: Seq<char>| #[trigger]
                dirs.contains_key(dir) ==> {
                    &&& after[dir].manifest == dirs[dir].manifest
                    &&& (exists|i: int| 0 <= i < writes.len() && (#[trigger] writes[i]).0 == dir)
                        ==> after[dir].written == Some(fingerprint_of(dirs[dir].manifest))
                        && !after[dir].dirty
                    &&& !(exists|i: int| 0 <= i < writes.len() && (#[trigger] writes[i]).0 == dir)
                        ==> after[dir] == dirs[dir]
                }
        }),
    decreases writes.len(),
{
    if writes.len() > 0 {
        let front = writes.drop_last();
        let mid = all_recorded(dirs, front);
        let after = all_recorded(dirs, writes);
        let key = writes.last().0;
        assert forall|i: int| 0 <= i < front.len() implies dirs.contains_key(
            (#[trigger] front[i]).0,
        ) && front[i].1 == dirs[front[i].0].manifest by {
            assert(front[i] == writes[i]);
        }
        lemma_all_recorded(dirs, front);
        assert(dirs.contains_key(writes[writes.len() - 1].0));
        assert(mid.dom().contains(key));
        assert(after.dom() =~= dirs.dom());
        assert forall|dir: Seq<char>| #[trigger] dirs.contains_key(dir) implies {
            &&& after[dir].manifest == dirs[dir].manifest
            &&& (exists|i: int| 0 <= i < writes.len() && (#[trigger] writes[i]).0 == dir)
                ==> after[dir].written == Some(fingerprint_of(dirs[dir].manifest))
                && !after[dir].dirty
            &&& !(exists|i: int| 0 <= i < writes.len() && (#[trigger] writes[i]).0 == dir)
                ==> after[dir] == dirs[dir]
        } by {
            if dir == key {
                assert(writes[writes.len() - 1].0 == dir);
            } else if exists|i: int| 0 <= i < writes.len() && (#[trigger] writes[i]).0 == dir {
                let i = choose|i: int| 0 <= i < writes.len() && (#[trigger] writes[i]).0 == dir;
                assert(front[i].0 == dir);
            } else {
                assert forall|i: int| 0 <= i < front.len() implies (#[trigger] front[i]).0 != dir by {
                    assert(front[i] == writes[i]);
                }
            }
        }
    }
}

/// Of two flushes in a row the second writes nothing: after a forced flush whose
/// writes all succeeded no directory is due, whatever the reason for the next
/// flush and whenever it comes, as long as nothing is changed.
pub proof fn law_second_flush_writes_nothing(
    dirs: Map<Seq<char>, DirStateView>,
    interval: u64,
    now: u64,
    reason: FlushReason,
    next_interval: u64,
    later: u64,
)
    requires
        dirs.dom().finite(),
    ensures
        ({
            let first = due_writes(key_map::listing(dirs), FlushReason::Forced, interval, now);
            let after = all_recorded(dirs, first);
            due_writes(key_map::listing(after), reason, next_interval, later).len() == 0
        }),
{
    let first = due_writes(key_map::listing(dirs), FlushReason::Forced, interval, now);
    let after = all_recorded(dirs, first);
    let second = due_writes(key_map::listing(after), reason, next_interval, later);
    let due = due_set(dirs, FlushReason::Forced, interval, now);
    law_flush_writes_each_once(dirs, FlushReason::Forced, interval, now);
    assert forall|i: int| 0 <= i < first.len() implies dirs.contains_key((#[trigger] first[i]).0)
        && first[i].1 == dirs[first[i].0].manifest by {
        assert(due.contains(first[i].0));
    }
    lemma_all_recorded(dirs, first);
    law_flush_writes_each_once(after, reason, next_interval, later);
    if second.len() > 0 {
        let dir = second[0].0;
        assert(due_set(after, reason, next_interval, later).contains(dir));
        assert(after.dom().contains(dir));
        assert(dirs.contains_key(dir));
        if exists|i: int| 0 <= i < first.len() && (#[trigger] first[i]).0 == dir {
            assert(!after[dir].dirty);
        } else {
            assert(after[dir] == dirs[dir]);
            assert(due.contains(dir));
        }
    }
}

/// A forced flush writes each directory that was changed since it was written or
/// read, once, where all of their manifests can be sealed.
pub proof fn law_forced_flush_writes_changes(
    dirs: Map<Seq<char>, DirStateView>,
    interval: u64,
    now: u64,
)
    requires
        dirs.dom().finite(),
        forall|dir: Seq<char>| #[trigger]
            changed_set(dirs).contains(dir) ==> fits(dirs[dir].manifest),
    ensures
        ({
            let writes = due_writes(key_map::listing(dirs), FlushReason::Forced, interval, now);
            &&& writes.len() == changed_set(dirs).len()
            &&& forall|i: int|
                0 <= i < writes.len() ==> changed_set(dirs).contains((#[trigger] writes[i]).0)
                    && writes[i].1 == dirs[writes[i].0].manifest
            &&& forall|i: int, j: int|
                0 <= i < j < writes.len() ==> (#[trigger] writes[i]).0 != (#[trigger] writes[j]).0
            &&& forall|dir: Seq<char>| #[trigger]
                changed_set(dirs).contains(dir) ==> exists|i: int|
                    0 <= i < writes.len() && (#[trigger] writes[i]).0 == dir
        }),
{
    law_flush_writes_each_once(dirs, FlushReason::Forced, interval, now);
    assert(due_set(dirs, FlushReason::Forced, interval, now) =~= changed_set(dirs)) by {
        assert forall|dir: Seq<char>|
            due_set(dirs, FlushReason::Forced, interval, now).contains(dir) == changed_set(
                dirs,
            ).contains(dir) by {}
    }
}

/// A change to a manifest changes what it is about and nothing else. A file is
/// recorded with its name and size; a folder with its name, its sizes as they were;
/// sizes of a folder that is recorded are those given; what is removed is gone; what
/// is renamed keeps its record under the new stored name; a record that is put in
/// stands as it is. Version and unknown fields stay.
pub proof fn law_edit_changes_one_record(m: ManifestView, edit: Edit)
    ensures
        edited(m, edit).version == m.version,
        edited(m, edit).extra == m.extra,
        ({
            let after = edited(m, edit);
            match edit {
                Edit::UpsertFile { encrypted, name, size } => {
                    let h = manifest::entry_hash(encrypted@);
                    &&& after.folders == m.folders
                    &&& after.files.dom() == m.files.dom().insert(h)
                    &&& after.files[h].name == name@
                    &&& after.files[h].size == size
                    &&& after.files[h].extra.dom() == Set::<Seq<char>>::empty()
                    &&& forall|k: Seq<char>|
                        k != h && #[trigger] m.files.contains_key(k) ==> after.files[k]
                            == m.files[k]
                },
                Edit::UpsertFolder { encrypted, name } => {
                    let h = manifest::entry_hash(encrypted@);
                    &&& after.files == m.files
                    &&& after.folders.dom() == m.folders.dom().insert(h)
                    &&& after.folders[h].name == name@
                    &&& m.folders.contains_key(h) ==> {
                        &&& after.folders[h].size == m.folders[h].size
                        &&& after.folders[h].esize == m.folders[h].esize
                        &&& after.folders[h].computed == m.folders[h].computed
                        &&& after.folders[h].extra == m.folders[h].extra
                    }
                    &&& !m.folders.contains_key(h) ==> {
                        &&& after.folders[h].size is None
                        &&& after.folders[h].esize is None
                        &&& after.folders[h].computed is None
                        &&& after.folders[h].extra.dom() == Set::<Seq<char>>::empty()
                    }
                    &&& forall|k: Seq<char>|
                        k != h && #[trigger] m.folders.contains_key(k) ==> after.folders[k]
                            == m.folders[k]
                },
                Edit::SetFolderSize { encrypted, plain, stored, computed } => {
                    let h = manifest::entry_hash(encrypted@);
                    &&& after.files == m.files
                    &&& after.folders.dom() == m.folders.dom()
                    &&& m.folders.contains_key(h) ==> {
                        &&& after.folders[h].size == Some(plain)
                        &&& after.folders[h].esize == Some(stored)
                        &&& after.folders[h].computed == Some(computed)
                        &&& after.folders[h].name == m.folders[h].name
                        &&& after.folders[h].extra == m.folders[h].extra
                    }
                    &&& forall|k: Seq<char>|
                        k != h && #[trigger] m.folders.contains_key(k) ==> after.folders[k]
                            == m.folders[k]
                },
                Edit::Remove { encrypted } => {
                    let h = manifest::entry_hash(encrypted@);
                    &&& after.files.dom() == m.files.dom().remove(h)
                    &&& after.folders.dom() == m.folders.dom().remove(h)
                    &&& forall|k: Seq<char>|
                        k != h && #[trigger] m.files.contains_key(k) ==> after.files[k]
                            == m.files[k]
                    &&& forall|k: Seq<char>|
                        k != h && #[trigger] m.folders.contains_key(k) ==> after.folders[k]
                            == m.folders[k]
                },
                Edit::Rename { encrypted, new_encrypted, name } => {
                    let h = manifest::entry_hash(encrypted@);
                    let n = manifest::entry_hash(new_encrypted@);
                    if m.files.contains_key(h) {
                        &&& after.folders == m.folders
                        &&& after.files.dom() == m.files.dom().remove(h).insert(n)
                        &&& after.files[n].name == name@
                        &&& after.files[n].size == m.files[h].size
                        &&& after.files[n].extra == m.files[h].extra
                        &&& forall|k: Seq<char>|
                            k != h && k != n && #[trigger] m.files.contains_key(k)
                                ==> after.files[k] == m.files[k]
                    } else if m.folders.contains_key(h) {
                        &&& after.files == m.files
                        &&& after.folders.dom() == m.folders.dom().remove(h).insert(n)
                        &&& after.folders[n].name == name@
                        &&& after.folders[n].size == m.folders[h].size
                        &&& after.folders[n].esize == m.folders[h].esize
                        &&& after.folders[n].computed == m.folders[h].computed
                        &&& after.folders[n].extra == m.folders[h].extra
                        &&& forall|k: Seq<char>|
                            k != h && k != n && #[trigger] m.folders.contains_key(k)
                                ==> after.folders[k] == m.folders[k]
                    } else {
                        after == m
                    }
                },
                Edit::Insert { encrypted, entry } => {
                    let h = manifest::entry_hash(encrypted@);
                    match entry@ {
                        manifest::EntryView::File(f) => {
                            &&& after.folders == m.folders
                            &&& after.files.dom() == m.files.dom().insert(h)
                            &&& after.files[h] == f
                            &&& forall|k: Seq<char>|
                                k != h && #[trigger] m.files.contains_key(k) ==> after.files[k]
                                    == m.files[k]
                        },
                        manifest::EntryView::Folder(d) => {
                            &&& after.files == m.files
                            &&& after.folders.dom() == m.folders.dom().insert(h)
                            &&& after.folders[h] == d
                            &&& forall|k: Seq<char>|
                                k != h && #[trigger] m.folders.contains_key(k)
                                    ==> after.folders[k] == m.folders[k]
                        },
                    }
                },
            }
        }),
{
    let after = edited(m, edit);
    match edit {
        Edit::SetFolderSize { encrypted, .. } => {
            assert(after.folders.dom() =~= m.folders.dom());
        },
        _ => {},
    }
}

/// A manifest is written to the directory that it is of, under its reserved name.
pub proof fn law_manifest_lies_in_its_directory(dir: Seq<char>)
    ensures
        object_key(dir) == dir + seq!['.', 'r', 's', 'e'],
{
    reveal_strlit(".rse");
    assert(".rse"@ =~= seq!['.', 'r', 's', 'e']);
}

/// After a manifest was written its directory is clean, unless it has changed
/// meanwhile; the manifest stays, and so does every other directory.
pub proof fn law_written_is_clean(
    dirs: Map<Seq<char>, DirStateView>,
    dir: Seq<char>,
    written: ManifestView,
)
    requires
        dirs.contains_key(dir),
    ensures
        ({
            let after = recorded(dirs, dir, fingerprint_of(written));
            &&& after.dom() == dirs.dom()
            &&& after[dir].manifest == dirs[dir].manifest
            &&& after[dir].last_change == dirs[dir].last_change
            &&& after[dir].written == Some(fingerprint_of(written))
            &&& dirs[dir].manifest == written ==> !after[dir].dirty
            &&& fingerprint_of(dirs[dir].manifest) != fingerprint_of(written) ==> after[dir].dirty
                == dirs[dir].dirty
            &&& forall|other: Seq<char>|
                other != dir && #[trigger] dirs.contains_key(other) ==> after[other] == dirs[other]
        }),
{
    assert(recorded(dirs, dir, fingerprint_of(written)).dom() =~= dirs.dom());
}

/// A directory is quiet for as long as it is since it last changed.
pub proof fn law_quiet_is_measured(then: u64, now: u64)
    ensures
        now >= then ==> then + elapsed(then, now) == now,
        now <= then ==> elapsed(then, now) == 0,
{
}

} // verus!
