//! The sizes below a folder.

use crate::crypto;
use crate::crypto::{VaultKeys, VAULT_KEY};
use crate::dir_view;
use crate::manifest;
use crate::manifest::{Manifest, ManifestView};
use crate::manifest_store::Edit;
use crate::sorting;
use crate::sorting::SortKey;
use crate::storage::entries;
use crate::storage::entries::{RawObject, RawView};
use crate::text;
use crate::worker::messages::{FileInfo, FolderInfo};
use crate::worker::sizes;
use vstd::prelude::*;
use vstd::string::*;

verus! {

/// A sum that stops at the greatest number there is.
pub open spec fn capped(a: u64, b: u64) -> u64 {
    if a + b > u64::MAX {
        u64::MAX
    } else {
        (a + b) as u64
    }
}

/// Whether an object is the user's, that is no manifest and not the vault.
pub open spec fn counts(o: RawView) -> bool {
    let leaf = dir_view::leaf(o.key);
    !manifest::is_manifest_name(leaf) && leaf != VAULT_KEY@
}

/// The size that an object stands for.
pub open spec fn logical_size(encrypted: bool, o: RawView) -> u64 {
    if encrypted {
        sizes::unsealed_len(o.size as nat) as u64
    } else {
        o.size
    }
}

/// The summed logical and stored sizes of objects.
pub open spec fn totals(encrypted: bool, objects: Seq<RawView>) -> (u64, u64)
    decreases objects.len(),
{
    if objects.len() == 0 {
        (0, 0)
    } else {
        let front = totals(encrypted, objects.drop_last());
        let o = objects.last();
        if counts(o) {
            (capped(front.0, logical_size(encrypted, o)), capped(front.1, o.size))
        } else {
            front
        }
    }
}

fn saturated(a: u64, b: u64) -> (r: u64)
    ensures
        r == capped(a, b),
{
    if a <= u64::MAX - b {
        a + b
    } else {
        u64::MAX
    }
}

fn is_counted(leaf: &str) -> (r: bool)
    ensures
        r == (!manifest::is_manifest_name(leaf@) && leaf@ != VAULT_KEY@),
{
    !manifest::is_manifest_key(leaf) && !text::same(leaf, VAULT_KEY)
}

/// The plaintext and the stored size of all that was listed below a folder.
pub fn calculate_size(encrypted_session: bool, objects: &Vec<RawObject>) -> (r: (u64, u64))
    ensures
        r == totals(encrypted_session, entries::raw_views(objects@)),
{
    let ghost views = entries::raw_views(objects@);
    let mut plain: u64 = 0;
    let mut stored: u64 = 0;
    let mut i: usize = 0;
    assert(views.take(0) =~= Seq::empty());
    while i < objects.len()
        invariant
            i <= objects.len(),
            views == entries::raw_views(objects@),
            (plain, stored) == totals(encrypted_session, views.take(i as int)),
        decreases objects.len() - i,
    {
        let o = &objects[i];
        assert(views[i as int] == o@);
        assert(views.take(i as int + 1).drop_last() =~= views.take(i as int));
        let leaf = dir_view::leaf_of(o.key.as_str());
        if is_counted(leaf.as_str()) {
            stored = saturated(stored, o.size);
            let size: u64 = if encrypted_session {
                sizes::plaintext_of_ciphertext(o.size)
            } else {
                o.size
            };
            plain = saturated(plain, size);
        }
        i += 1;
    }
    assert(views.take(i as int) =~= views);
    (plain, stored)
}

/// Where the size of an encrypted folder is recorded: in the manifest of the
/// directory that the folder lies in.
pub fn size_record(
    keys: &VaultKeys,
    key: &str,
    name: &str,
    plain: u64,
    stored: u64,
    now_ms: i64,
) -> (r: (String, Edit))
    requires
        crypto::name_fits(name@),
    ensures
        r.0@ == dir_view::parent_of(key@),
        r.1 matches Edit::SetFolderSize { encrypted, plain: p, stored: s, computed } && {
            &&& encrypted@ == crypto::name_cipher(keys.name_key(), name@)
            &&& p == plain
            &&& s == stored
            &&& computed == now_ms
        },
{
    let encrypted = crypto::encrypt_name(keys, name).unwrap();
    (
        dir_view::parent_prefix(key),
        Edit::SetFolderSize { encrypted, plain, stored, computed: now_ms },
    )
}

/// The sizes of one file.
pub struct InfoView {
    pub rel_path: Seq<char>,
    pub plaintext: u64,
    pub encrypted: u64,
}

impl View for FileInfo {
    type V = InfoView;

    open spec fn view(&self) -> InfoView {
        InfoView {
            rel_path: self.rel_path@,
            plaintext: self.plaintext,
            encrypted: self.encrypted,
        }
    }
}

/// The files of a list.
pub open spec fn info_views(list: Seq<FileInfo>) -> Seq<InfoView> {
    list.map_values(|f: FileInfo| f@)
}

/// A directory that is still to be visited, and its path in real names.
pub struct Visit {
    pub dir: String,
    pub rel: String,
}

/// A directory that is still to be visited, and its path in real names.
pub struct VisitView {
    pub dir: Seq<char>,
    pub rel: Seq<char>,
}

impl View for Visit {
    type V = VisitView;

    open spec fn view(&self) -> VisitView {
        VisitView { dir: self.dir@, rel: self.rel@ }
    }
}

/// The directories of a list.
pub open spec fn visit_views(list: Seq<Visit>) -> Seq<VisitView> {
    list.map_values(|v: Visit| v@)
}

/// What was found so far.
pub struct WalkView {
    /// The directories to visit, the next one last.
    pub stack: Seq<VisitView>,
    pub files: Seq<InfoView>,
    pub folder_count: u64,
    pub plaintext_total: u64,
    pub encrypted_total: u64,
}

/// A walk through an encrypted folder.
pub struct FolderWalk {
    stack: Vec<Visit>,
    files: Vec<FileInfo>,
    folder_count: u64,
    plaintext_total: u64,
    encrypted_total: u64,
}

impl View for FolderWalk {
    type V = WalkView;

    closed spec fn view(&self) -> WalkView {
        WalkView {
            stack: visit_views(self.stack@),
            files: info_views(self.files@),
            folder_count: self.folder_count,
            plaintext_total: self.plaintext_total,
            encrypted_total: self.encrypted_total,
        }
    }
}

/// Why there is nothing to tell of a folder.
#[derive(Clone, Copy, Debug, PartialEq, Eq, Structural)]
pub enum FolderInfoError {
    NotEncrypted,
}

impl FolderInfoError {
    /// What the user is told.
    pub fn message(&self) -> (r: String)
        ensures
            r@ == "folder info is only available for encrypted folders"@,
    {
        "folder info is only available for encrypted folders".to_owned()
    }
}

/// A walk before the first visit: the folder itself is to be visited.
pub open spec fn started(key: Seq<char>) -> WalkView {
    WalkView {
        stack: seq![
            VisitView { dir: text::trim_end_char(key, '/').push('/'), rel: Seq::empty() },
        ],
        files: Seq::empty(),
        folder_count: 0,
        plaintext_total: 0,
        encrypted_total: 0,
    }
}

/// The name of an item in its directory: the recorded one, or the stored one.
pub open spec fn real_name(m: ManifestView, leaf: Seq<char>) -> Seq<char> {
    match m.name_of(leaf) {
        Some(name) => name,
        None => leaf,
    }
}

/// A name below a path.
pub open spec fn below(rel: Seq<char>, name: Seq<char>) -> Seq<char> {
    if rel.len() == 0 {
        name
    } else {
        rel.push('/') + name
    }
}

/// The plaintext size of a file: the recorded one, or what its stored size
/// leaves.
pub open spec fn file_size(m: ManifestView, leaf: Seq<char>, size: u64) -> u64 {
    if m.files.contains_key(leaf) {
        m.files[leaf].size
    } else {
        sizes::unsealed_len(size as nat) as u64
    }
}

/// The walk after one object of a directory: a folder is to be visited, a file
/// is counted.
pub open spec fn met(w: WalkView, at: VisitView, m: ManifestView, o: RawView) -> WalkView {
    let leaf = dir_view::leaf(o.key);
    if !counts(o) {
        w
    } else if o.is_prefix {
        WalkView {
            folder_count: (w.folder_count + 1) as u64,
            stack: w.stack.push(
                VisitView {
                    dir: (at.dir + leaf).push('/'),
                    rel: below(at.rel, real_name(m, leaf)),
                },
            ),
            ..w
        }
    } else {
        let plaintext = file_size(m, leaf, o.size);
        WalkView {
            files: w.files.push(
                InfoView {
                    rel_path: below(at.rel, real_name(m, leaf)),
                    plaintext,
                    encrypted: o.size,
                },
            ),
            plaintext_total: capped(w.plaintext_total, plaintext),
            encrypted_total: capped(w.encrypted_total, o.size),
            ..w
        }
    }
}

/// The walk after all objects of a directory.
pub open spec fn visited(w: WalkView, at: VisitView, m: ManifestView, raw: Seq<RawView>) -> WalkView
    decreases raw.len(),
{
    if raw.len() == 0 {
        w
    } else {
        met(visited(w, at, m, raw.drop_last()), at, m, raw.last())
    }
}

/// A visit finds no more folders than there are objects, and leaves what was
/// found before.
pub proof fn law_visit_adds(w: WalkView, at: VisitView, m: ManifestView, raw: Seq<RawView>)
    requires
        w.folder_count + raw.len() <= u64::MAX,
    ensures
        ({
            let after = visited(w, at, m, raw);
            &&& w.folder_count <= after.folder_count <= w.folder_count + raw.len()
            &&& w.stack.is_prefix_of(after.stack)
            &&& after.stack.len() - w.stack.len() == after.folder_count - w.folder_count
            &&& w.files.is_prefix_of(after.files)
            &&& w.plaintext_total <= after.plaintext_total
            &&& w.encrypted_total <= after.encrypted_total
        }),
    decreases raw.len(),
{
    if raw.len() > 0 {
        law_visit_adds(w, at, m, raw.drop_last());
    }
}

fn named_below(rel: &str, name: &str) -> (r: String)
    ensures
        r@ == below(rel@, name@),
{
    if rel.is_empty() {
        assert(rel@.len() == 0);
        name.to_string()
    } else {
        let mut out = rel.to_string();
        out.push('/');
        out.append(name);
        out
    }
}

impl FolderWalk {
    /// Starts at a folder, with or without the slash at its end. A session that is
    /// not encrypted has no folder to walk through.
    pub fn new(keys: Option<&VaultKeys>, key: &str) -> (r: Result<Self, FolderInfoError>)
        ensures
            match keys {
                Some(_) => r is Ok && r->Ok_0@ == started(key@),
                None => r == Err::<Self, FolderInfoError>(FolderInfoError::NotEncrypted),
            },
    {
        if keys.is_none() {
            return Err(FolderInfoError::NotEncrypted);
        }
        let mut dir = text::trim_end(key, '/');
        dir.push('/');
        let mut stack: Vec<Visit> = Vec::new();
        stack.push(Visit { dir, rel: String::new() });
        let r = FolderWalk {
            stack,
            files: Vec::new(),
            folder_count: 0,
            plaintext_total: 0,
            encrypted_total: 0,
        };
        assert(r@.stack =~= seq![
            VisitView { dir: text::trim_end_char(key@, '/').push('/'), rel: Seq::empty() },
        ]);
        assert(r@.files =~= Seq::empty());
        Ok(r)
    }

    /// Takes the next directory to visit, if there is one.
    pub fn next_dir(&mut self) -> (r: Option<Visit>)
        ensures
            match r {
                Some(v) => old(self)@.stack.len() > 0 && v@ == old(self)@.stack.last()
                    && final(self)@ == (WalkView {
                    stack: old(self)@.stack.drop_last(),
                    ..old(self)@
                }),
                None => old(self)@.stack.len() == 0 && final(self)@ == old(self)@,
            },
    {
        let r = self.stack.pop();
        assert(r is Some ==> self@.stack =~= old(self)@.stack.drop_last());
        r
    }

    /// Takes in the objects of a directory and its manifest.
    pub fn visit(&mut self, at: &Visit, manifest: &Manifest, raw: &Vec<RawObject>)
        requires
            old(self)@.folder_count + raw@.len() <= u64::MAX,
        ensures
            final(self)@ == visited(
                old(self)@,
                at@,
                manifest@,
                entries::raw_views(raw@),
            ),
    {
        let ghost views = entries::raw_views(raw@);
        let ghost start = self@;
        let mut i: usize = 0;
        assert(views.take(0) =~= Seq::empty());
        while i < raw.len()
            invariant
                i <= raw.len(),
                views == entries::raw_views(raw@),
                start.folder_count + raw@.len() <= u64::MAX,
                self@ == visited(start, at@, manifest@, views.take(i as int)),
            decreases raw.len() - i,
        {
            let o = &raw[i];
            assert(views[i as int] == o@);
            assert(views.take(i as int + 1).drop_last() =~= views.take(i as int));
            proof {
                law_visit_adds(start, at@, manifest@, views.take(i as int));
            }
            let leaf = dir_view::leaf_of(o.key.as_str());
            if is_counted(leaf.as_str()) {
                let name = match manifest.name_for(leaf.as_str()) {
                    Some(name) => name.to_string(),
                    None => leaf.clone(),
                };
                let rel = named_below(at.rel.as_str(), name.as_str());
                if o.is_prefix {
                    self.folder_count = self.folder_count + 1;
                    let mut dir = text::concat(at.dir.as_str(), leaf.as_str());
                    dir.push('/');
                    let ghost before = visit_views(self.stack@);
                    let v = Visit { dir, rel };
                    let ghost vv = v@;
                    self.stack.push(v);
                    assert(visit_views(self.stack@) =~= before.push(vv));
                } else {
                    let plaintext: u64 = match manifest.files.get(leaf.as_str()) {
                        Some(f) => f.size,
                        None => sizes::plaintext_of_ciphertext(o.size),
                    };
                    self.plaintext_total = saturated(self.plaintext_total, plaintext);
                    self.encrypted_total = saturated(self.encrypted_total, o.size);
                    let ghost before = info_views(self.files@);
                    let f = FileInfo { rel_path: rel, plaintext, encrypted: o.size };
                    let ghost fv = f@;
                    self.files.push(f);
                    assert(info_views(self.files@) =~= before.push(fv));
                }
            }
            i += 1;
        }
        assert(views.take(i as int) =~= views);
    }

    /// The breakdown, the files largest first, once all directories were
    /// visited.
    pub fn finish(self, name: &str, computed: Option<i64>) -> (r: FolderInfo)
        ensures
            r.name@ == name@,
            r.file_count == self@.files.len(),
            r.folder_count == self@.folder_count,
            r.plaintext_total == self@.plaintext_total,
            r.encrypted_total == self@.encrypted_total,
            r.computed == computed,
            largest_first(info_views(r.files@), self@.files),
    {
        let file_count = self.files.len() as u64;
        let files = sort_files(&self.files);
        FolderInfo {
            name: name.to_string(),
            file_count,
            folder_count: self.folder_count,
            plaintext_total: self.plaintext_total,
            encrypted_total: self.encrypted_total,
            computed,
            files,
        }
    }
}

/// Whether `order` takes the positions of `list` from the largest stored file
/// down; files of one size keep the order they came in.
pub open spec fn is_size_order(order: Seq<usize>, list: Seq<InfoView>) -> bool {
    &&& order.len() == list.len()
    &&& forall|i: int| 0 <= i < order.len() ==> #[trigger] order[i] < list.len()
    &&& forall|i: int, j: int|
        0 <= i < j < order.len() ==> {
            let a = #[trigger] order[i];
            let b = #[trigger] order[j];
            list[a as int].encrypted > list[b as int].encrypted || (list[a as int].encrypted
                == list[b as int].encrypted && a < b)
        }
}

/// Whether `shown` holds the files of `list`, the largest first.
pub open spec fn largest_first(shown: Seq<InfoView>, list: Seq<InfoView>) -> bool {
    exists|order: Seq<usize>| #[trigger]
        is_size_order(order, list) && shown == order.map_values(|i: usize| list[i as int])
}

/// What a file is sorted by.
struct SizeKey {
    encrypted: u64,
}

impl SortKey for SizeKey {
    closed spec fn first(&self, other: &Self) -> bool {
        self.encrypted > other.encrypted
    }

    proof fn lemma_asymmetric(a: &Self, b: &Self) {
    }

    proof fn lemma_weak(a: &Self, b: &Self, c: &Self) {
    }

    fn comes_first(&self, other: &Self) -> (r: bool) {
        self.encrypted > other.encrypted
    }
}

fn sort_files(list: &Vec<FileInfo>) -> (r: Vec<FileInfo>)
    ensures
        largest_first(info_views(r@), info_views(list@)),
{
    let ghost views = info_views(list@);
    let mut keys: Vec<SizeKey> = Vec::new();
    let mut i: usize = 0;
    while i < list.len()
        invariant
            i <= list@.len(),
            keys@.len() == i,
            forall|j: int| 0 <= j < i ==> (#[trigger] keys@[j]).encrypted == list@[j].encrypted,
        decreases list@.len() - i,
    {
        keys.push(SizeKey { encrypted: list[i].encrypted });
        i += 1;
    }
    let order = sorting::stable_order(&keys);
    assert(is_size_order(order@, views)) by {
        assert forall|i: int, j: int| 0 <= i < j < order@.len() implies {
            let a = #[trigger] order@[i];
            let b = #[trigger] order@[j];
            views[a as int].encrypted > views[b as int].encrypted || (views[a as int].encrypted
                == views[b as int].encrypted && a < b)
        } by {
            assert(sorting::goes_before(keys@, order@[i] as int, order@[j] as int));
        }
    }
    let mut out: Vec<FileInfo> = Vec::new();
    let ghost f = |i: usize| views[i as int];
    let mut k: usize = 0;
    while k < order.len()
        invariant
            views == info_views(list@),
            is_size_order(order@, views),
            f == (|i: usize| views[i as int]),
            k <= order@.len(),
            info_views(out@) == order@.take(k as int).map_values(f),
        decreases order@.len() - k,
    {
        let at = order[k];
        let info = FileInfo {
            rel_path: list[at].rel_path.clone(),
            plaintext: list[at].plaintext,
            encrypted: list[at].encrypted,
        };
        let ghost before = info_views(out@);
        out.push(info);
        assert(info_views(out@) =~= before.push(f(at)));
        assert(order@.take(k as int + 1).map_values(f) =~= before.push(f(at)));
        k += 1;
    }
    assert(order@.take(k as int) =~= order@);
    out
}

/// When the size of a folder was last computed, by the manifest of the directory
/// it lies in.
pub fn computed_at(keys: &VaultKeys, parent: &Manifest, name: &str) -> (r: Option<i64>)
    requires
        crypto::name_fits(name@),
    ensures
        ({
            let hash = dir_view::stored_segment(keys.name_key(), name@);
            r == if parent@.folders.contains_key(hash) {
                parent@.folders[hash].computed
            } else {
                None
            }
        }),
{
    let encrypted = crypto::encrypt_name(keys, name).unwrap();
    let hash = manifest::hash_entry(encrypted.as_str());
    match parent.folders.get(hash.as_str()) {
        Some(d) => d.computed,
        None => None,
    }
}

/// What the files of a list sum up to, in plaintext and as stored.
pub open spec fn sums(files: Seq<InfoView>) -> (nat, nat)
    decreases files.len(),
{
    if files.len() == 0 {
        (0, 0)
    } else {
        let front = sums(files.drop_last());
        (front.0 + files.last().plaintext as nat, front.1 + files.last().encrypted as nat)
    }
}

/// Whether the totals of a walk are those of its files.
pub open spec fn adds_up(w: WalkView) -> bool {
    let s = sums(w.files);
    &&& w.plaintext_total as nat == if s.0 > u64::MAX {
        u64::MAX as nat
    } else {
        s.0
    }
    &&& w.encrypted_total as nat == if s.1 > u64::MAX {
        u64::MAX as nat
    } else {
        s.1
    }
}

/// The totals of a walk are always the sums over the files that it lists, up to
/// the greatest number there is.
pub proof fn law_totals_add_up(w: WalkView, at: VisitView, m: ManifestView, raw: Seq<RawView>)
    requires
        adds_up(w),
    ensures
        adds_up(visited(w, at, m, raw)),
    decreases raw.len(),
{
    if raw.len() > 0 {
        let before = visited(w, at, m, raw.drop_last());
        law_totals_add_up(w, at, m, raw.drop_last());
        let after = visited(w, at, m, raw);
        if after.files != before.files {
            assert(after.files.drop_last() =~= before.files);
        }
    }
}

/// What a visit of a directory found there.
pub struct FoundView {
    pub at: VisitView,
    pub manifest: ManifestView,
    pub raw: Seq<RawView>,
}

/// The files that count among the objects of a directory, in their order.
pub open spec fn counted_files(f: FoundView, raw: Seq<RawView>) -> Seq<InfoView>
    decreases raw.len(),
{
    if raw.len() == 0 {
        Seq::empty()
    } else {
        let front = counted_files(f, raw.drop_last());
        if counts(raw.last()) && !raw.last().is_prefix {
            front.push(info_of(f, raw.last()))
        } else {
            front
        }
    }
}

/// What is told of a file that was found.
pub open spec fn info_of(f: FoundView, o: RawView) -> InfoView {
    let leaf = dir_view::leaf(o.key);
    InfoView {
        rel_path: below(f.at.rel, real_name(f.manifest, leaf)),
        plaintext: file_size(f.manifest, leaf, o.size),
        encrypted: o.size,
    }
}

/// The folders that count among the objects of a directory, in their order.
pub open spec fn counted_dirs(f: FoundView, raw: Seq<RawView>) -> Seq<VisitView>
    decreases raw.len(),
{
    if raw.len() == 0 {
        Seq::empty()
    } else {
        let front = counted_dirs(f, raw.drop_last());
        if counts(raw.last()) && raw.last().is_prefix {
            front.push(visit_of(f, raw.last()))
        } else {
            front
        }
    }
}

/// The visit that a folder that was found calls for.
pub open spec fn visit_of(f: FoundView, o: RawView) -> VisitView {
    let leaf = dir_view::leaf(o.key);
    VisitView {
        dir: (f.at.dir + leaf).push('/'),
        rel: below(f.at.rel, real_name(f.manifest, leaf)),
    }
}

/// The files of all visits.
pub open spec fn all_files(found: Seq<FoundView>) -> Seq<InfoView>
    decreases found.len(),
{
    if found.len() == 0 {
        Seq::empty()
    } else {
        all_files(found.drop_last()) + counted_files(found.last(), found.last().raw)
    }
}

/// The folders of all visits.
pub open spec fn all_dirs(found: Seq<FoundView>) -> Seq<VisitView>
    decreases found.len(),
{
    if found.len() == 0 {
        Seq::empty()
    } else {
        all_dirs(found.drop_last()) + counted_dirs(found.last(), found.last().raw)
    }
}

/// The walk through a folder after some visits.
pub open spec fn walked(key: Seq<char>, found: Seq<FoundView>) -> WalkView
    decreases found.len(),
{
    if found.len() == 0 {
        started(key)
    } else {
        let before = walked(key, found.drop_last());
        let f = found.last();
        visited(
            WalkView { stack: before.stack.drop_last(), ..before },
            f.at,
            f.manifest,
            f.raw,
        )
    }
}

/// Whether visits are those of a walk through a folder: each is the one that was
/// to be made next. Folders are counted in 64 bits.
pub open spec fn is_walk(key: Seq<char>, found: Seq<FoundView>) -> bool
    decreases found.len(),
{
    found.len() > 0 ==> {
        let before = walked(key, found.drop_last());
        &&& is_walk(key, found.drop_last())
        &&& before.stack.len() > 0
        &&& found.last().at == before.stack.last()
        &&& before.folder_count + found.last().raw.len() <= u64::MAX
    }
}

/// The directories that were visited.
pub open spec fn places(found: Seq<FoundView>) -> Seq<VisitView> {
    found.map_values(|f: FoundView| f.at)
}

/// What one visit adds.
proof fn lemma_visited(w: WalkView, f: FoundView, raw: Seq<RawView>)
    requires
        w.folder_count + raw.len() <= u64::MAX,
    ensures
        ({
            let after = visited(w, f.at, f.manifest, raw);
            &&& after.files == w.files + counted_files(f, raw)
            &&& after.stack == w.stack + counted_dirs(f, raw)
            &&& after.folder_count == w.folder_count + counted_dirs(f, raw).len()
            &&& counted_dirs(f, raw).len() <= raw.len()
        }),
    decreases raw.len(),
{
    if raw.len() == 0 {
        assert(w.files + Seq::<InfoView>::empty() =~= w.files);
        assert(w.stack + Seq::<VisitView>::empty() =~= w.stack);
    } else {
        lemma_visited(w, f, raw.drop_last());
        let after = visited(w, f.at, f.manifest, raw);
        assert(after.files =~= w.files + counted_files(f, raw));
        assert(after.stack =~= w.stack + counted_dirs(f, raw));
    }
}

/// The files that count in a directory are those of its objects that are no
/// folder, no manifest and not the vault.
pub proof fn law_counted_files_are_all(f: FoundView, raw: Seq<RawView>)
    ensures
        forall|j: int|
            0 <= j < raw.len() && counts(#[trigger] raw[j]) && !raw[j].is_prefix
                ==> counted_files(f, raw).contains(info_of(f, raw[j])),
        forall|i: InfoView| #[trigger]
            counted_files(f, raw).contains(i) ==> exists|j: int|
                0 <= j < raw.len() && counts(#[trigger] raw[j]) && !raw[j].is_prefix && i
                    == info_of(f, raw[j]),
    decreases raw.len(),
{
    if raw.len() > 0 {
        let front = raw.drop_last();
        let some = counted_files(f, front);
        let all = counted_files(f, raw);
        law_counted_files_are_all(f, front);
        assert forall|j: int|
            0 <= j < raw.len() && counts(#[trigger] raw[j]) && !raw[j].is_prefix implies all.contains(
            info_of(f, raw[j]),
        ) by {
            if j < front.len() {
                assert(front[j] == raw[j]);
                let k = choose|k: int| 0 <= k < some.len() && some[k] == info_of(f, raw[j]);
                assert(all[k] == info_of(f, raw[j]));
            } else {
                assert(all[all.len() - 1] == info_of(f, raw[j]));
            }
        }
        assert forall|i: InfoView| #[trigger] all.contains(i) implies exists|j: int|
            0 <= j < raw.len() && counts(#[trigger] raw[j]) && !raw[j].is_prefix && i == info_of(
                f,
                raw[j],
            ) by {
            let k = choose|k: int| 0 <= k < all.len() && all[k] == i;
            if k < some.len() {
                assert(some[k] == i);
                assert(some.contains(i));
                let j = choose|j: int|
                    0 <= j < front.len() && counts(#[trigger] front[j]) && !front[j].is_prefix && i
                        == info_of(f, front[j]);
                assert(raw[j] == front[j]);
            } else {
                assert(i == info_of(f, raw[raw.len() - 1]));
            }
        }
    }
}

/// A walk through a folder finds all of it. The files that it lists are exactly
/// those that count in the directories that were visited, in their order, and the
/// totals are their sums. What was visited, and what is still to be visited, are
/// the folder itself and the folders that count, each as often as it was found;
/// all of them lie below the folder. So once nothing is left to be visited, every
/// folder that was found was visited.
pub proof fn law_walk_finds_all(key: Seq<char>, found: Seq<FoundView>)
    requires
        is_walk(key, found),
    ensures
        ({
            let w = walked(key, found);
            let root = text::trim_end_char(key, '/').push('/');
            &&& w.files == all_files(found)
            &&& w.folder_count == all_dirs(found).len()
            &&& adds_up(w)
            &&& places(found).to_multiset().add(w.stack.to_multiset()) == started(
                key,
            ).stack.to_multiset().add(all_dirs(found).to_multiset())
            &&& w.stack.len() == 0 ==> places(found).to_multiset() == started(
                key,
            ).stack.to_multiset().add(all_dirs(found).to_multiset())
            &&& forall|i: int|
                0 <= i < found.len() ==> root.is_prefix_of((#[trigger] found[i]).at.dir)
            &&& forall|i: int| 0 <= i < w.stack.len() ==> root.is_prefix_of(
                (#[trigger] w.stack[i]).dir,
            )
        }),
    decreases found.len(),
{
    broadcast use vstd::seq_lib::group_to_multiset_ensures;

    let w = walked(key, found);
    let root = text::trim_end_char(key, '/').push('/');
    let first = started(key).stack;
    if found.len() == 0 {
        assert(places(found) =~= Seq::empty());
        assert(places(found).to_multiset().add(w.stack.to_multiset()) =~= first.to_multiset().add(
            all_dirs(found).to_multiset(),
        ));
    } else {
        let front = found.drop_last();
        let before = walked(key, front);
        let f = found.last();
        let popped = WalkView { stack: before.stack.drop_last(), ..before };
        let more = counted_dirs(f, f.raw);
        law_walk_finds_all(key, front);
        lemma_visited(popped, f, f.raw);
        law_totals_add_up(popped, f.at, f.manifest, f.raw);
        assert(places(found) =~= places(front).push(f.at));
        assert(before.stack =~= popped.stack.push(f.at));
        vstd::seq_lib::lemma_multiset_commutative(popped.stack, more);
        vstd::seq_lib::lemma_multiset_commutative(all_dirs(front), more);
        assert(places(found).to_multiset() =~= places(front).to_multiset().insert(f.at));
        assert(before.stack.to_multiset() =~= popped.stack.to_multiset().insert(f.at));
        assert(places(found).to_multiset().add(w.stack.to_multiset()) =~= places(
            front,
        ).to_multiset().add(before.stack.to_multiset()).add(more.to_multiset()));
        assert(first.to_multiset().add(all_dirs(found).to_multiset()) =~= first.to_multiset().add(
            all_dirs(front).to_multiset(),
        ).add(more.to_multiset()));
        assert(root.is_prefix_of(before.stack[before.stack.len() - 1].dir));
        assert forall|i: int| 0 <= i < found.len() implies root.is_prefix_of(
            (#[trigger] found[i]).at.dir,
        ) by {
            if i < front.len() {
                assert(front[i] == found[i]);
            }
        }
        lemma_dirs_below(f, f.raw, root);
        assert forall|i: int| 0 <= i < w.stack.len() implies root.is_prefix_of(
            (#[trigger] w.stack[i]).dir,
        ) by {
            if i < popped.stack.len() {
                assert(before.stack[i] == w.stack[i]);
            } else {
                assert(w.stack[i] == more[i - popped.stack.len()]);
            }
        }
    }
    if w.stack.len() == 0 {
        assert(places(found).to_multiset().add(w.stack.to_multiset()) =~= places(
            found,
        ).to_multiset());
    }
}

/// The folders of a directory lie where the directory lies.
proof fn lemma_dirs_below(f: FoundView, raw: Seq<RawView>, root: Seq<char>)
    requires
        root.is_prefix_of(f.at.dir),
    ensures
        forall|i: int|
            0 <= i < counted_dirs(f, raw).len() ==> root.is_prefix_of(
                (#[trigger] counted_dirs(f, raw)[i]).dir,
            ),
    decreases raw.len(),
{
    if raw.len() > 0 {
        lemma_dirs_below(f, raw.drop_last(), root);
        let front = counted_dirs(f, raw.drop_last());
        let all = counted_dirs(f, raw);
        assert forall|i: int| 0 <= i < all.len() implies root.is_prefix_of(
            (#[trigger] all[i]).dir,
        ) by {
            if i < front.len() {
                assert(all[i] == front[i]);
            } else {
                let d = visit_of(f, raw.last()).dir;
                assert(root =~= d.take(root.len() as int)) by {
                    assert(root =~= f.at.dir.take(root.len() as int));
                }
            }
        }
    }
}

/// The directory below `root` that stored names lead to, one after the other.
pub open spec fn dir_at(root: Seq<char>, stored: Seq<Seq<char>>) -> Seq<char>
    decreases stored.len(),
{
    if stored.len() == 0 {
        root
    } else {
        (dir_at(root, stored.drop_last()) + stored.last()).push('/')
    }
}

/// Whether `name` is the one that was recorded for a stored name in a directory that
/// was visited, or the stored one where none was recorded.
pub open spec fn is_name_at(
    found: Seq<FoundView>,
    dir: Seq<char>,
    stored: Seq<char>,
    name: Seq<char>,
) -> bool {
    exists|j: int|
        0 <= j < found.len() && (#[trigger] found[j]).at.dir == dir && name
            == match found[j].manifest.name_of(stored) {
            Some(recorded) => recorded,
            None => stored,
        }
}

/// Whether `at` is reached from `root` by the stored names, and shown by the real
/// ones: each real name is the one that is recorded for the stored one in the
/// directory that the names before it lead to, which was visited, or the stored
/// one where none is recorded.
pub open spec fn is_path_to(
    found: Seq<FoundView>,
    root: Seq<char>,
    at: VisitView,
    stored: Seq<Seq<char>>,
    shown: Seq<Seq<char>>,
) -> bool {
    &&& stored.len() == shown.len()
    &&& at.dir == dir_at(root, stored)
    &&& at.rel == text::join_with(shown, '/')
    &&& forall|t: int| 0 <= t < shown.len() ==> (#[trigger] shown[t]).len() > 0
    &&& forall|t: int|
        0 <= t < shown.len() ==> #[trigger] is_name_at(
            found,
            dir_at(root, stored.take(t)),
            stored[t],
            shown[t],
        )
}

/// Whether nothing that was found is without a name.
pub open spec fn all_named(found: Seq<FoundView>) -> bool {
    forall|i: int, j: int|
        0 <= i < found.len() && 0 <= j < found[i].raw.len() ==> {
            let leaf = dir_view::leaf((#[trigger] found[i].raw[j]).key);
            &&& leaf.len() > 0
            &&& found[i].manifest.name_of(leaf) matches Some(name) ==> name.len() > 0
        }
}

/// A path stays one when more was found.
proof fn lemma_path_stays(
    found: Seq<FoundView>,
    root: Seq<char>,
    at: VisitView,
    stored: Seq<Seq<char>>,
    shown: Seq<Seq<char>>,
)
    requires
        found.len() > 0,
        is_path_to(found.drop_last(), root, at, stored, shown),
    ensures
        is_path_to(found, root, at, stored, shown),
{
    let front = found.drop_last();
    assert forall|t: int| 0 <= t < shown.len() implies #[trigger] is_name_at(
        found,
        dir_at(root, stored.take(t)),
        stored[t],
        shown[t],
    ) by {
        let dir = dir_at(root, stored.take(t));
        assert(is_name_at(front, dir, stored[t], shown[t]));
        let j = choose|j: int|
            0 <= j < front.len() && (#[trigger] front[j]).at.dir == dir && shown[t]
                == match front[j].manifest.name_of(stored[t]) {
                Some(recorded) => recorded,
                None => stored[t],
            };
        assert(found[j] == front[j]);
    }
}

/// Parts that are not empty are joined to something.
proof fn lemma_join_nonempty(parts: Seq<Seq<char>>)
    requires
        parts.len() > 0,
        forall|t: int| 0 <= t < parts.len() ==> (#[trigger] parts[t]).len() > 0,
    ensures
        text::join_with(parts, '/').len() > 0,
{
    assert(parts[parts.len() - 1].len() > 0);
    assert(parts[0].len() > 0);
}

/// One more name on a path.
proof fn lemma_below_joins(shown: Seq<Seq<char>>, name: Seq<char>)
    requires
        forall|t: int| 0 <= t < shown.len() ==> (#[trigger] shown[t]).len() > 0,
    ensures
        below(text::join_with(shown, '/'), name) == text::join_with(shown.push(name), '/'),
{
    let more = shown.push(name);
    assert(more.drop_last() =~= shown);
    assert(more.last() == name);
    if shown.len() > 0 {
        lemma_join_nonempty(shown);
    } else {
        assert(more[0] == name);
    }
}

/// Each folder that counts is one of the objects.
proof fn lemma_dir_is_object(f: FoundView, raw: Seq<RawView>, k: int) -> (j: int)
    requires
        0 <= k < counted_dirs(f, raw).len(),
    ensures
        0 <= j < raw.len(),
        counts(raw[j]),
        raw[j].is_prefix,
        counted_dirs(f, raw)[k] == visit_of(f, raw[j]),
    decreases raw.len(),
{
    let front = counted_dirs(f, raw.drop_last());
    if k < front.len() {
        lemma_dir_is_object(f, raw.drop_last(), k)
    } else {
        raw.len() - 1
    }
}

/// Each file that counts is one of the objects.
proof fn lemma_file_is_object(f: FoundView, raw: Seq<RawView>, k: int) -> (j: int)
    requires
        0 <= k < counted_files(f, raw).len(),
    ensures
        0 <= j < raw.len(),
        counts(raw[j]),
        !raw[j].is_prefix,
        counted_files(f, raw)[k] == info_of(f, raw[j]),
    decreases raw.len(),
{
    let front = counted_files(f, raw.drop_last());
    if k < front.len() {
        lemma_file_is_object(f, raw.drop_last(), k)
    } else {
        raw.len() - 1
    }
}

proof fn lemma_front_named(found: Seq<FoundView>)
    requires
        found.len() > 0,
        all_named(found),
    ensures
        all_named(found.drop_last()),
{
    let front = found.drop_last();
    assert forall|i: int, j: int| 0 <= i < front.len() && 0 <= j < front[i].raw.len() implies {
        let leaf = dir_view::leaf((#[trigger] front[i].raw[j]).key);
        &&& leaf.len() > 0
        &&& front[i].manifest.name_of(leaf) matches Some(name) ==> name.len() > 0
    } by {
        assert(front[i] == found[i]);
        assert(found[i].raw[j] == front[i].raw[j]);
    }
}

/// What is still to be visited is shown by its whole path.
proof fn lemma_pending_path(key: Seq<char>, found: Seq<FoundView>, i: int) -> (r: (
    Seq<Seq<char>>,
    Seq<Seq<char>>,
))
    requires
        is_walk(key, found),
        all_named(found),
        0 <= i < walked(key, found).stack.len(),
    ensures
        is_path_to(
            found,
            text::trim_end_char(key, '/').push('/'),
            walked(key, found).stack[i],
            r.0,
            r.1,
        ),
    decreases found.len(),
{
    let root = text::trim_end_char(key, '/').push('/');
    if found.len() == 0 {
        (Seq::empty(), Seq::empty())
    } else {
        let front = found.drop_last();
        let before = walked(key, front);
        let f = found.last();
        let popped = WalkView { stack: before.stack.drop_last(), ..before };
        lemma_front_named(found);
        lemma_visited(popped, f, f.raw);
        if i < popped.stack.len() {
            let r = lemma_pending_path(key, front, i);
            assert(walked(key, found).stack[i] == before.stack[i]);
            lemma_path_stays(found, root, before.stack[i], r.0, r.1);
            r
        } else {
            let (stored, shown) = lemma_pending_path(key, front, before.stack.len() - 1);
            lemma_path_stays(found, root, f.at, stored, shown);
            let k = i - popped.stack.len();
            let j = lemma_dir_is_object(f, f.raw, k);
            let o = f.raw[j];
            let leaf = dir_view::leaf(o.key);
            let name = real_name(f.manifest, leaf);
            assert(found[found.len() - 1].raw[j] == o);
            lemma_below_joins(shown, name);
            let more = stored.push(leaf);
            let names = shown.push(name);
            assert(more.drop_last() =~= stored);
            assert(walked(key, found).stack[i] == visit_of(f, o));
            assert forall|t: int| 0 <= t < names.len() implies #[trigger] is_name_at(
                found,
                dir_at(root, more.take(t)),
                more[t],
                names[t],
            ) by {
                if t < shown.len() {
                    assert(more.take(t) =~= stored.take(t));
                    assert(names[t] == shown[t] && more[t] == stored[t]);
                    assert(is_name_at(found, dir_at(root, stored.take(t)), stored[t], shown[t]));
                } else {
                    assert(more.take(t) =~= stored);
                    assert(found[found.len() - 1].at.dir == dir_at(root, stored));
                }
            }
            assert forall|t: int| 0 <= t < names.len() implies (#[trigger] names[t]).len() > 0 by {
                if t < shown.len() {
                    assert(names[t] == shown[t]);
                }
            }
            (more, names)
        }
    }
}

/// A directory that was visited is shown by its whole path in real names: as many
/// names as lead to it from the folder, each the recorded one.
pub proof fn law_visits_have_whole_paths(key: Seq<char>, found: Seq<FoundView>, i: int) -> (r: (
    Seq<Seq<char>>,
    Seq<Seq<char>>,
))
    requires
        is_walk(key, found),
        all_named(found),
        0 <= i < found.len(),
    ensures
        is_path_to(
            found,
            text::trim_end_char(key, '/').push('/'),
            found[i].at,
            r.0,
            r.1,
        ),
    decreases found.len(),
{
    let root = text::trim_end_char(key, '/').push('/');
    let front = found.drop_last();
    lemma_front_named(found);
    let r = if i < front.len() {
        assert(front[i] == found[i]);
        law_visits_have_whole_paths(key, front, i)
    } else {
        lemma_pending_path(key, front, walked(key, front).stack.len() - 1)
    };
    lemma_path_stays(found, root, found[i].at, r.0, r.1);
    r
}

/// Whether a row tells of an object of a visited directory: an object that is no
/// folder, under its whole path in real names, with its stored size, and with the
/// plaintext size that is recorded, or that its stored size leaves.
pub open spec fn tells_of(
    row: InfoView,
    found: Seq<FoundView>,
    root: Seq<char>,
    i: int,
    j: int,
    stored: Seq<Seq<char>>,
    shown: Seq<Seq<char>>,
) -> bool {
    let o = found[i].raw[j];
    let m = found[i].manifest;
    let leaf = dir_view::leaf(o.key);
    &&& 0 <= i < found.len()
    &&& 0 <= j < found[i].raw.len()
    &&& !o.is_prefix
    &&& leaf != ".rse"@
    &&& leaf != ".rse-vault"@
    &&& is_path_to(found, root, found[i].at, stored, shown)
    &&& row.rel_path == text::join_with(
        shown.push(
            match m.name_of(leaf) {
                Some(name) => name,
                None => leaf,
            },
        ),
        '/',
    )
    &&& row.encrypted == o.size
    &&& row.plaintext == if m.files.contains_key(leaf) {
        m.files[leaf].size
    } else {
        sizes::unsealed_len(o.size as nat) as u64
    }
}

/// Manifests and the vault are what does not count.
proof fn lemma_counts(o: RawView)
    ensures
        counts(o) == (dir_view::leaf(o.key) != ".rse"@ && dir_view::leaf(o.key)
            != ".rse-vault"@),
{
    dir_view::lemma_leaf_end(o.key);
}

/// Every row of a walk tells of an object that was found.
pub proof fn law_rows_tell_of_objects(key: Seq<char>, found: Seq<FoundView>, k: int) -> (r: (
    int,
    int,
    Seq<Seq<char>>,
    Seq<Seq<char>>,
))
    requires
        is_walk(key, found),
        all_named(found),
        0 <= k < walked(key, found).files.len(),
    ensures
        tells_of(
            walked(key, found).files[k],
            found,
            text::trim_end_char(key, '/').push('/'),
            r.0,
            r.1,
            r.2,
            r.3,
        ),
    decreases found.len(),
{
    let root = text::trim_end_char(key, '/').push('/');
    law_walk_finds_all(key, found);
    let front = found.drop_last();
    let f = found.last();
    lemma_front_named(found);
    law_walk_finds_all(key, front);
    let some = all_files(front);
    if k < some.len() {
        assert(walked(key, front).files[k] == walked(key, found).files[k]);
        let (i, j, stored, shown) = law_rows_tell_of_objects(key, front, k);
        assert(front[i] == found[i]);
        lemma_path_stays(found, root, found[i].at, stored, shown);
        (i, j, stored, shown)
    } else {
        let i = found.len() - 1;
        let j = lemma_file_is_object(f, f.raw, k - some.len());
        let (stored, shown) = law_visits_have_whole_paths(key, found, i);
        lemma_counts(f.raw[j]);
        lemma_below_joins(shown, real_name(f.manifest, dir_view::leaf(f.raw[j].key)));
        (i, j, stored, shown)
    }
}

/// Where an object that counts stands among the files of its directory.
proof fn lemma_object_is_file(f: FoundView, raw: Seq<RawView>, j: int) -> (k: int)
    requires
        0 <= j < raw.len(),
        counts(raw[j]),
        !raw[j].is_prefix,
    ensures
        0 <= k < counted_files(f, raw).len(),
        counted_files(f, raw)[k] == info_of(f, raw[j]),
    decreases raw.len(),
{
    if j == raw.len() - 1 {
        counted_files(f, raw).len() - 1
    } else {
        lemma_object_is_file(f, raw.drop_last(), j)
    }
}

/// Every object that was found and is no folder, no manifest and not the vault has a
/// row that tells of it.
pub proof fn law_objects_have_rows(key: Seq<char>, found: Seq<FoundView>, i: int, j: int) -> (r: (
    int,
    Seq<Seq<char>>,
    Seq<Seq<char>>,
))
    requires
        is_walk(key, found),
        all_named(found),
        0 <= i < found.len(),
        0 <= j < found[i].raw.len(),
        !found[i].raw[j].is_prefix,
        dir_view::leaf(found[i].raw[j].key) != ".rse"@,
        dir_view::leaf(found[i].raw[j].key) != ".rse-vault"@,
    ensures
        0 <= r.0 < walked(key, found).files.len(),
        tells_of(
            walked(key, found).files[r.0],
            found,
            text::trim_end_char(key, '/').push('/'),
            i,
            j,
            r.1,
            r.2,
        ),
    decreases found.len(),
{
    let root = text::trim_end_char(key, '/').push('/');
    law_walk_finds_all(key, found);
    let front = found.drop_last();
    lemma_front_named(found);
    law_walk_finds_all(key, front);
    if i < front.len() {
        assert(front[i] == found[i]);
        let (k, stored, shown) = law_objects_have_rows(key, front, i, j);
        assert(walked(key, found).files[k] == walked(key, front).files[k]);
        lemma_path_stays(found, root, found[i].at, stored, shown);
        (k, stored, shown)
    } else {
        let f = found.last();
        lemma_counts(f.raw[j]);
        let k = lemma_object_is_file(f, f.raw, j);
        let (stored, shown) = law_visits_have_whole_paths(key, found, i);
        lemma_below_joins(shown, real_name(f.manifest, dir_view::leaf(f.raw[j].key)));
        assert(walked(key, found).files[all_files(front).len() + k] == info_of(f, f.raw[j]));
        (all_files(front).len() + k, stored, shown)
    }
}

/// The size of a folder is the sum over what was listed below it but manifests and
/// the vault, up to the greatest number there is: in an encrypted session of what
/// the stored sizes leave of a plaintext, and of the stored sizes themselves.
pub proof fn law_totals_count_each_object(encrypted: bool, objects: Seq<RawView>, o: RawView)
    ensures
        totals(encrypted, Seq::empty()) == (0u64, 0u64),
        ({
            let before = totals(encrypted, objects);
            let after = totals(encrypted, objects.push(o));
            let leaf = dir_view::leaf(o.key);
            let plain = if encrypted {
                sizes::unsealed_len(o.size as nat)
            } else {
                o.size as nat
            };
            if leaf == ".rse"@ || leaf == ".rse-vault"@ {
                after == before
            } else {
                &&& after.0 as nat == if before.0 + plain > u64::MAX {
                    u64::MAX as nat
                } else {
                    (before.0 + plain) as nat
                }
                &&& after.1 as nat == if before.1 + o.size > u64::MAX {
                    u64::MAX as nat
                } else {
                    (before.1 + o.size) as nat
                }
            }
        }),
{
    lemma_counts(o);
    assert(objects.push(o).drop_last() =~= objects);
}

/// The files of a folder are shown whole, the largest as stored first: each once, and
/// files of one size in the order in which they were found.
pub proof fn law_largest_files_come_first(shown: Seq<InfoView>, list: Seq<InfoView>) -> (order:
    Seq<usize>)
    requires
        largest_first(shown, list),
    ensures
        entries::takes_each_once(order, list.len()),
        shown.len() == list.len(),
        forall|i: int| 0 <= i < shown.len() ==> #[trigger] shown[i] == list[order[i] as int],
        forall|i: int, j: int|
            0 <= i < j < shown.len() ==> (#[trigger] shown[i]).encrypted >= (
            #[trigger] shown[j]).encrypted,
        forall|i: int, j: int|
            0 <= i < j < shown.len() && (#[trigger] shown[i]).encrypted == (
            #[trigger] shown[j]).encrypted ==> order[i] < order[j],
{
    let order = choose|order: Seq<usize>| #[trigger]
        is_size_order(order, list) && shown == order.map_values(|i: usize| list[i as int]);
    assert forall|i: int, j: int| 0 <= i < j < shown.len() implies (#[trigger] shown[i]).encrypted
        >= (#[trigger] shown[j]).encrypted && (shown[i].encrypted == shown[j].encrypted ==> order[i]
        < order[j]) by {
        assert(shown[i] == list[order[i] as int] && shown[j] == list[order[j] as int]);
    }
    order
}

} // verus!
