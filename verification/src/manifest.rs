//! Per-directory encrypted metadata manifest (`.rse`).
//!
//! In an encrypted directory every file and folder is stored under an opaque
//! name, the upper-case hexadecimal SHA-256 of its encrypted name. One `.rse`
//! object per directory maps each of these names back to the real name and the
//! plaintext size, together with cached folder sizes. The manifest is written as
//! JSON and then sealed as a whole with the content key.
//!
//! The stored name hashes the encrypted name and is therefore known without
//! reading the manifest, which is needed only to show real names again.

use crate::codec;
use crate::crypto;
use crate::crypto::{CryptoError, VaultKeys};
use crate::json;
use crate::key_map;
use crate::key_map::KeyMap;
use crate::primitives;
use crate::text;
use vstd::prelude::*;
use vstd::string::*;
use vstd::utf8::*;

verus! {

/// The reserved name of the object that holds a directory's manifest.
pub const MANIFEST_KEY: &'static str = ".rse";

/// The version that new manifests carry.
pub const MANIFEST_VERSION: u32 = 1;

/// What a manifest records of a file.
#[verifier::ext_equal]
pub struct FileView {
    pub name: Seq<char>,
    pub size: u64,
    pub extra: Map<Seq<char>, Seq<char>>,
}

/// What a manifest records of a folder.
#[verifier::ext_equal]
pub struct FolderView {
    pub name: Seq<char>,
    pub size: Option<u64>,
    pub esize: Option<u64>,
    pub computed: Option<i64>,
    pub extra: Map<Seq<char>, Seq<char>>,
}

/// What a manifest records.
#[verifier::ext_equal]
pub struct ManifestView {
    pub version: u32,
    pub files: Map<Seq<char>, FileView>,
    pub folders: Map<Seq<char>, FolderView>,
    pub extra: Map<Seq<char>, Seq<char>>,
}

/// Metadata for one file in a directory.
#[derive(Debug, PartialEq)]
pub struct FileEntry {
    /// The real name.
    pub name: String,
    /// The plaintext size in bytes.
    pub size: u64,
    /// Fields of a newer writer, each as JSON text, kept as they are.
    pub extra: KeyMap<String>,
}

/// Metadata for one folder in a directory. The sizes are absent until they were
/// computed once.
#[derive(Debug, PartialEq)]
pub struct FolderEntry {
    /// The real name.
    pub name: String,
    /// The sum of the plaintext sizes below the folder.
    pub size: Option<u64>,
    /// The sum of the stored sizes below the folder.
    pub esize: Option<u64>,
    /// When the sums were computed, in milliseconds since the epoch.
    pub computed: Option<i64>,
    /// Fields of a newer writer, each as JSON text, kept as they are.
    pub extra: KeyMap<String>,
}

/// A record of a file or of a folder.
#[derive(Debug, PartialEq)]
pub enum Entry {
    File(FileEntry),
    Folder(FolderEntry),
}

/// A record of a file or of a folder.
pub enum EntryView {
    File(FileView),
    Folder(FolderView),
}

/// A directory's manifest. The keys of both maps are stored names.
#[derive(Debug, PartialEq)]
pub struct Manifest {
    pub version: u32,
    pub files: KeyMap<FileEntry>,
    pub folders: KeyMap<FolderEntry>,
    /// Fields of a newer writer, each as JSON text, kept as they are.
    pub extra: KeyMap<String>,
}

impl View for FileEntry {
    type V = FileView;

    open spec fn view(&self) -> FileView {
        FileView { name: self.name@, size: self.size, extra: self.extra@ }
    }
}

impl View for FolderEntry {
    type V = FolderView;

    open spec fn view(&self) -> FolderView {
        FolderView {
            name: self.name@,
            size: self.size,
            esize: self.esize,
            computed: self.computed,
            extra: self.extra@,
        }
    }
}

impl View for Entry {
    type V = EntryView;

    open spec fn view(&self) -> EntryView {
        match self {
            Entry::File(f) => EntryView::File(f@),
            Entry::Folder(d) => EntryView::Folder(d@),
        }
    }
}

impl View for Manifest {
    type V = ManifestView;

    open spec fn view(&self) -> ManifestView {
        ManifestView {
            version: self.version,
            files: self.files@,
            folders: self.folders@,
            extra: self.extra@,
        }
    }
}

impl Clone for FileEntry {
    fn clone(&self) -> (r: Self)
        ensures
            r@ == self@,
    {
        FileEntry { name: self.name.clone(), size: self.size, extra: self.extra.clone() }
    }
}

impl Clone for FolderEntry {
    fn clone(&self) -> (r: Self)
        ensures
            r@ == self@,
    {
        FolderEntry {
            name: self.name.clone(),
            size: self.size,
            esize: self.esize,
            computed: self.computed,
            extra: self.extra.clone(),
        }
    }
}

impl Clone for Entry {
    fn clone(&self) -> (r: Self)
        ensures
            r@ == self@,
    {
        match self {
            Entry::File(f) => Entry::File(f.clone()),
            Entry::Folder(d) => Entry::Folder(d.clone()),
        }
    }
}

impl Clone for Manifest {
    fn clone(&self) -> (r: Self)
        ensures
            r@ == self@,
    {
        Manifest {
            version: self.version,
            files: self.files.clone(),
            folders: self.folders.clone(),
            extra: self.extra.clone(),
        }
    }
}

/// A manifest that records nothing.
pub open spec fn empty_manifest() -> ManifestView {
    ManifestView {
        version: MANIFEST_VERSION,
        files: Map::empty(),
        folders: Map::empty(),
        extra: Map::empty(),
    }
}

impl Default for Manifest {
    fn default() -> (r: Self)
        ensures
            r@ == empty_manifest(),
    {
        Manifest {
            version: MANIFEST_VERSION,
            files: KeyMap::new(),
            folders: KeyMap::new(),
            extra: KeyMap::new(),
        }
    }
}

/// The stored name of an entry with the given encrypted name.
pub open spec fn entry_hash(encrypted: Seq<char>) -> Seq<char> {
    codec::upper_hex(primitives::sha256(encode_utf8(encrypted)))
}

/// Whether a character is an upper-case hexadecimal digit.
pub open spec fn is_hex(c: char) -> bool {
    ('0' <= c && c <= '9') || ('A' <= c && c <= 'F')
}

/// Whether a name has the shape of a stored name.
pub open spec fn is_hash(name: Seq<char>) -> bool {
    name.len() == 64 && forall|i: int| 0 <= i < name.len() ==> is_hex(#[trigger] name[i])
}

/// Whether a name is that of the manifest object.
pub open spec fn is_manifest_name(name: Seq<char>) -> bool {
    text::trim_end_char(name, '/') == MANIFEST_KEY@
}

/// A name that has the shape of a stored name holds no dot and is not that of
/// the manifest object.
pub proof fn law_hash_is_no_manifest_name(name: Seq<char>)
    requires
        is_hash(name),
    ensures
        !name.contains('.'),
        !name.contains('/'),
        !is_manifest_name(name),
{
    reveal_strlit(".rse");
    assert(is_hex(name[0]));
    assert(is_hex(name[63]));
    assert(text::trim_end_char(name, '/') == name);
    assert(name[0] != '.');
}

/// The stored name of an entry with the given encrypted name. Equal names have
/// equal stored names, which are 64 upper-case hexadecimal digits.
pub fn hash_entry(encrypted_segment: &str) -> (r: String)
    ensures
        r@ == entry_hash(encrypted_segment@),
        is_hash(r@),
{
    let digest = primitives::sha256_of(encrypted_segment.as_bytes());
    let r = codec::upper_hex_of(&digest);
    assert(is_hash(r@)) by {
        assert forall|i: int| 0 <= i < r@.len() implies is_hex(#[trigger] r@[i]) by {
            let b = digest@[i / 2] as int;
            assert(0 <= b / 16 < 16 && 0 <= b % 16 < 16);
        }
    }
    r
}

/// Whether a stored name is that of the manifest object.
pub fn is_manifest_key(on_disk_name: &str) -> (r: bool)
    ensures
        r == is_manifest_name(on_disk_name@),
{
    let trimmed = text::trim_end(on_disk_name, '/');
    text::same(trimmed.as_str(), MANIFEST_KEY)
}

impl ManifestView {
    /// The real name that belongs to a stored name.
    pub open spec fn name_of(self, stored: Seq<char>) -> Option<Seq<char>> {
        if self.files.contains_key(stored) {
            Some(self.files[stored].name)
        } else if self.folders.contains_key(stored) {
            Some(self.folders[stored].name)
        } else {
            None
        }
    }

    /// With the record of a file put in.
    pub open spec fn with_file(self, stored: Seq<char>, file: FileView) -> ManifestView {
        ManifestView { files: self.files.insert(stored, file), ..self }
    }

    /// With the record of a folder put in.
    pub open spec fn with_folder(self, stored: Seq<char>, folder: FolderView) -> ManifestView {
        ManifestView { folders: self.folders.insert(stored, folder), ..self }
    }

    /// With a record put in.
    pub open spec fn with_entry(self, stored: Seq<char>, entry: EntryView) -> ManifestView {
        match entry {
            EntryView::File(f) => self.with_file(stored, f),
            EntryView::Folder(d) => self.with_folder(stored, d),
        }
    }

    /// The record that is taken out first for a stored name.
    pub open spec fn entry_of(self, stored: Seq<char>) -> Option<EntryView> {
        if self.files.contains_key(stored) {
            Some(EntryView::File(self.files[stored]))
        } else if self.folders.contains_key(stored) {
            Some(EntryView::Folder(self.folders[stored]))
        } else {
            None
        }
    }

    /// Without the record that is taken out first for a stored name.
    pub open spec fn without_entry(self, stored: Seq<char>) -> ManifestView {
        if self.files.contains_key(stored) {
            ManifestView { files: self.files.remove(stored), ..self }
        } else {
            ManifestView { folders: self.folders.remove(stored), ..self }
        }
    }

    /// Without any record for a stored name.
    pub open spec fn without(self, stored: Seq<char>) -> ManifestView {
        ManifestView {
            files: self.files.remove(stored),
            folders: self.folders.remove(stored),
            ..self
        }
    }

    /// The record of a folder after it was named again: cached sizes stay.
    pub open spec fn folder_named(self, stored: Seq<char>, name: Seq<char>) -> FolderView {
        if self.folders.contains_key(stored) {
            FolderView { name, ..self.folders[stored] }
        } else {
            FolderView { name, size: None, esize: None, computed: None, extra: Map::empty() }
        }
    }

    /// With the record under `from` moved to `to` and named again.
    pub open spec fn renamed(self, from: Seq<char>, to: Seq<char>, name: Seq<char>) -> ManifestView {
        if self.files.contains_key(from) {
            ManifestView {
                files: self.files.remove(from).insert(to, FileView { name, ..self.files[from] }),
                ..self
            }
        } else if self.folders.contains_key(from) {
            ManifestView {
                folders: self.folders.remove(from).insert(
                    to,
                    FolderView { name, ..self.folders[from] },
                ),
                ..self
            }
        } else {
            self
        }
    }
}

impl Manifest {
    /// Records a file, in place of what was recorded of it.
    pub fn upsert_file(&mut self, encrypted_segment: &str, name: &str, size: u64)
        ensures
            final(self)@ == old(self)@.with_file(
                entry_hash(encrypted_segment@),
                (FileView { name: name@, size, extra: Map::empty() }),
            ),
    {
        let entry = FileEntry { name: name.to_owned(), size, extra: KeyMap::new() };
        self.files.insert(hash_entry(encrypted_segment), entry);
    }

    /// Records a folder. Sizes that were computed for it stay.
    pub fn upsert_folder(&mut self, encrypted_segment: &str, name: &str)
        ensures
            final(self)@ == old(self)@.with_folder(
                entry_hash(encrypted_segment@),
                old(self)@.folder_named(entry_hash(encrypted_segment@), name@),
            ),
    {
        let key = hash_entry(encrypted_segment);
        let mut entry = FolderEntry {
            name: name.to_owned(),
            size: None,
            esize: None,
            computed: None,
            extra: KeyMap::new(),
        };
        if let Some(existing) = self.folders.remove(key.as_str()) {
            entry.size = existing.size;
            entry.esize = existing.esize;
            entry.computed = existing.computed;
            entry.extra = existing.extra;
        }
        let ghost e = entry@;
        let ghost k = key@;
        self.folders.insert(key, entry);
        assert(self@.folders =~= old(self)@.folders.insert(k, e));
        assert(e == old(self)@.folder_named(k, name@));
    }

    /// Stores computed sizes on a folder's record, if the folder is recorded.
    pub fn set_folder_size(
        &mut self,
        encrypted_segment: &str,
        plaintext_total: u64,
        encrypted_total: u64,
        computed_ms: i64,
    )
        ensures
            ({
                let stored = entry_hash(encrypted_segment@);
                final(self)@ == if old(self)@.folders.contains_key(stored) {
                    old(self)@.with_folder(
                        stored,
                        FolderView {
                            size: Some(plaintext_total),
                            esize: Some(encrypted_total),
                            computed: Some(computed_ms),
                            ..old(self)@.folders[stored]
                        },
                    )
                } else {
                    old(self)@
                }
            }),
    {
        let key = hash_entry(encrypted_segment);
        if let Some(mut folder) = self.folders.remove(key.as_str()) {
            folder.size = Some(plaintext_total);
            folder.esize = Some(encrypted_total);
            folder.computed = Some(computed_ms);
            let ghost e = folder@;
            let ghost k = key@;
            self.folders.insert(key, folder);
            assert(self@.folders =~= old(self)@.folders.insert(k, e));
        } else {
            assert(self@.folders =~= old(self)@.folders);
        }
    }

    /// Removes the records of an entry. Returns whether there was one.
    pub fn remove(&mut self, encrypted_segment: &str) -> (r: bool)
        ensures
            final(self)@ == old(self)@.without(entry_hash(encrypted_segment@)),
            r == (old(self)@.entry_of(entry_hash(encrypted_segment@)) is Some),
    {
        let key = hash_entry(encrypted_segment);
        let file = self.files.remove(key.as_str()).is_some();
        let folder = self.folders.remove(key.as_str()).is_some();
        file || folder
    }

    /// The real name that belongs to a stored name.
    pub fn name_for(&self, on_disk_name: &str) -> (r: Option<&str>)
        ensures
            match r {
                Some(name) => self@.name_of(on_disk_name@) == Some(name@),
                None => self@.name_of(on_disk_name@) is None,
            },
    {
        match self.files.get(on_disk_name) {
            Some(f) => Some(f.name.as_str()),
            None => match self.folders.get(on_disk_name) {
                Some(d) => Some(d.name.as_str()),
                None => None,
            },
        }
    }

    /// Moves the record of an entry to its new stored name and names it again.
    /// Sizes stay. Returns false, and changes nothing, if there was no record.
    /// What was recorded under the new stored name is replaced.
    pub fn rename_entry(
        &mut self,
        old_encrypted: &str,
        new_encrypted: &str,
        new_name: &str,
    ) -> (r: bool)
        ensures
            final(self)@ == old(self)@.renamed(
                entry_hash(old_encrypted@),
                entry_hash(new_encrypted@),
                new_name@,
            ),
            r == (old(self)@.entry_of(entry_hash(old_encrypted@)) is Some),
    {
        let old_key = hash_entry(old_encrypted);
        let new_key = hash_entry(new_encrypted);
        if let Some(mut f) = self.files.remove(old_key.as_str()) {
            f.name = new_name.to_owned();
            self.files.insert(new_key, f);
            true
        } else if let Some(mut d) = self.folders.remove(old_key.as_str()) {
            assert(self@.files =~= old(self)@.files);
            d.name = new_name.to_owned();
            self.folders.insert(new_key, d);
            true
        } else {
            assert(self@.files =~= old(self)@.files);
            assert(self@.folders =~= old(self)@.folders);
            false
        }
    }

    /// Takes a file's record out.
    pub fn take_file(&mut self, encrypted_segment: &str) -> (r: Option<FileEntry>)
        ensures
            final(self)@ == (ManifestView {
                files: old(self)@.files.remove(entry_hash(encrypted_segment@)),
                ..old(self)@
            }),
            match r {
                Some(f) => old(self)@.files.contains_key(entry_hash(encrypted_segment@)) && f@
                    == old(self)@.files[entry_hash(encrypted_segment@)],
                None => !old(self)@.files.contains_key(entry_hash(encrypted_segment@)),
            },
    {
        self.files.remove(hash_entry(encrypted_segment).as_str())
    }

    /// Takes a folder's record out.
    pub fn take_folder(&mut self, encrypted_segment: &str) -> (r: Option<FolderEntry>)
        ensures
            final(self)@ == (ManifestView {
                folders: old(self)@.folders.remove(entry_hash(encrypted_segment@)),
                ..old(self)@
            }),
            match r {
                Some(d) => old(self)@.folders.contains_key(entry_hash(encrypted_segment@)) && d@
                    == old(self)@.folders[entry_hash(encrypted_segment@)],
                None => !old(self)@.folders.contains_key(entry_hash(encrypted_segment@)),
            },
    {
        self.folders.remove(hash_entry(encrypted_segment).as_str())
    }

    /// Puts a file's record in.
    pub fn insert_file_entry(&mut self, encrypted_segment: &str, entry: FileEntry)
        ensures
            final(self)@ == old(self)@.with_file(entry_hash(encrypted_segment@), entry@),
    {
        self.files.insert(hash_entry(encrypted_segment), entry);
    }

    /// Puts a folder's record in.
    pub fn insert_folder_entry(&mut self, encrypted_segment: &str, entry: FolderEntry)
        ensures
            final(self)@ == old(self)@.with_folder(entry_hash(encrypted_segment@), entry@),
    {
        self.folders.insert(hash_entry(encrypted_segment), entry);
    }

    /// Takes the record of a file out or, where there is none, that of a folder.
    pub fn take_entry(&mut self, encrypted_segment: &str) -> (r: Option<Entry>)
        ensures
            final(self)@ == old(self)@.without_entry(entry_hash(encrypted_segment@)),
            match r {
                Some(e) => old(self)@.entry_of(entry_hash(encrypted_segment@)) == Some(e@),
                None => old(self)@.entry_of(entry_hash(encrypted_segment@)) is None,
            },
    {
        match self.take_file(encrypted_segment) {
            Some(f) => Some(Entry::File(f)),
            None => {
                assert(self@.files =~= old(self)@.files);
                match self.take_folder(encrypted_segment) {
                    Some(d) => Some(Entry::Folder(d)),
                    None => None,
                }
            },
        }
    }

    /// Puts a record in that was taken out before.
    pub fn insert_entry(&mut self, encrypted_segment: &str, entry: Entry)
        ensures
            final(self)@ == old(self)@.with_entry(entry_hash(encrypted_segment@), entry@),
    {
        match entry {
            Entry::File(f) => self.insert_file_entry(encrypted_segment, f),
            Entry::Folder(d) => self.insert_folder_entry(encrypted_segment, d),
        }
    }
}

/// Taking a record out of a directory and putting it into another loses nothing:
/// the other directory then holds it under the same stored name, and its real
/// name is found there.
pub proof fn law_move_is_lossless(
    from: ManifestView,
    to: ManifestView,
    stored: Seq<char>,
    entry: EntryView,
)
    requires
        from.entry_of(stored) == Some(entry),
    ensures
        from.without_entry(stored).with_entry(stored, entry) == from,
        entry is File ==> to.with_entry(stored, entry).entry_of(stored) == Some(entry),
        entry is Folder && !to.files.contains_key(stored) ==> to.with_entry(
            stored,
            entry,
        ).entry_of(stored) == Some(entry),
        forall|other: Seq<char>|
            other != stored ==> to.with_entry(stored, entry).entry_of(other) == to.entry_of(other),
{
    let back = from.without_entry(stored).with_entry(stored, entry);
    assert(back.files =~= from.files);
    assert(back.folders =~= from.folders);
}

/// Renaming keeps what was recorded but the name: a file keeps its size, a
/// folder its cached sizes, and nothing stays under the old stored name.
pub proof fn law_rename_keeps_sizes(
    m: ManifestView,
    from: Seq<char>,
    to: Seq<char>,
    name: Seq<char>,
)
    requires
        from != to,
    ensures
        m.files.contains_key(from) ==> {
            &&& m.renamed(from, to, name).files[to] == (FileView { name, ..m.files[from] })
            &&& !m.renamed(from, to, name).files.contains_key(from)
            &&& m.renamed(from, to, name).name_of(to) == Some(name)
        },
        !m.files.contains_key(from) && m.folders.contains_key(from) ==> {
            &&& m.renamed(from, to, name).folders[to] == (FolderView { name, ..m.folders[from] })
            &&& !m.renamed(from, to, name).folders.contains_key(from)
            &&& m.renamed(from, to, name).entry_of(from) is None
        },
{
}

/// Recording the same file again changes nothing, so that an upload can be
/// repeated.
pub proof fn law_upsert_file_idempotent(m: ManifestView, stored: Seq<char>, file: FileView)
    ensures
        m.with_file(stored, file).with_file(stored, file) == m.with_file(stored, file),
        m.with_file(stored, file).name_of(stored) == Some(file.name),
{
    let once = m.with_file(stored, file);
    let twice = once.with_file(stored, file);
    assert(twice.files =~= once.files);
}

/// Recording the same folder again changes nothing, and keeps the sizes that
/// were computed for it.
pub proof fn law_upsert_folder_idempotent(m: ManifestView, stored: Seq<char>, name: Seq<char>)
    ensures
        ({
            let once = m.with_folder(stored, m.folder_named(stored, name));
            let twice = once.with_folder(stored, once.folder_named(stored, name));
            &&& twice == once
            &&& m.folders.contains_key(stored) ==> {
                &&& once.folders[stored].size == m.folders[stored].size
                &&& once.folders[stored].esize == m.folders[stored].esize
                &&& once.folders[stored].computed == m.folders[stored].computed
            }
        }),
{
    let once = m.with_folder(stored, m.folder_named(stored, name));
    let twice = once.with_folder(stored, once.folder_named(stored, name));
    assert(twice.folders =~= once.folders);
}

/// Nothing is found under a stored name after its records were removed.
pub proof fn law_remove_forgets(m: ManifestView, stored: Seq<char>)
    ensures
        m.without(stored).name_of(stored) is None,
        forall|other: Seq<char>|
            other != stored ==> m.without(stored).name_of(other) == m.name_of(other),
{
}

/// An optional number as JSON writes it.
pub open spec fn json_optional(n: Option<int>) -> Seq<char> {
    match n {
        Some(n) => text::signed_decimal(n),
        None => "null"@,
    }
}

/// The number in an option, as an integer.
pub open spec fn opt_u64(n: Option<u64>) -> Option<int> {
    match n {
        Some(n) => Some(n as int),
        None => None,
    }
}

/// The number in an option, as an integer.
pub open spec fn opt_i64(n: Option<i64>) -> Option<int> {
    match n {
        Some(n) => Some(n as int),
        None => None,
    }
}

/// A file's record in JSON.
pub open spec fn file_json(f: FileView) -> Seq<char> {
    json::object(
        seq![("name"@, json::quoted(f.name)), ("size"@, text::decimal(f.size as nat))]
            + key_map::listing(f.extra),
    )
}

/// A folder's record in JSON.
pub open spec fn folder_json(d: FolderView) -> Seq<char> {
    json::object(
        seq![
            ("name"@, json::quoted(d.name)),
            ("size"@, json_optional(opt_u64(d.size))),
            ("esize"@, json_optional(opt_u64(d.esize))),
            ("computed"@, json_optional(opt_i64(d.computed))),
        ] + key_map::listing(d.extra),
    )
}

/// A manifest in JSON.
pub open spec fn manifest_json(m: ManifestView) -> Seq<char> {
    json::object(
        seq![
            ("version"@, text::decimal(m.version as nat)),
            (
                "files"@,
                json::object(
                    key_map::listing(m.files).map_values(
                        |e: (Seq<char>, FileView)| (e.0, file_json(e.1)),
                    ),
                ),
            ),
            (
                "folders"@,
                json::object(
                    key_map::listing(m.folders).map_values(
                        |e: (Seq<char>, FolderView)| (e.0, folder_json(e.1)),
                    ),
                ),
            ),
        ] + key_map::listing(m.extra),
    )
}

/// Whether fields of a newer writer are JSON texts.
pub open spec fn are_json_fields(extra: Map<Seq<char>, Seq<char>>) -> bool {
    extra.dom().finite() && forall|key: Seq<char>| #[trigger]
        extra.contains_key(key) ==> json::is_json(extra[key])
}

/// Whether a manifest is one that can be written: it holds finitely many records,
/// and the fields of a newer writer are JSON texts, on every level.
pub open spec fn is_writable(m: ManifestView) -> bool {
    &&& m.files.dom().finite()
    &&& m.folders.dom().finite()
    &&& are_json_fields(m.extra)
    &&& forall|key: Seq<char>| #[trigger]
        m.files.contains_key(key) ==> are_json_fields(m.files[key].extra)
    &&& forall|key: Seq<char>| #[trigger]
        m.folders.contains_key(key) ==> are_json_fields(m.folders[key].extra)
}

/// A manifest holds finitely many records, each with finitely many fields.
pub proof fn law_manifest_is_finite(m: Manifest)
    ensures
        m@.files.dom().finite(),
        m@.folders.dom().finite(),
        m@.extra.dom().finite(),
        forall|key: Seq<char>| #[trigger]
            m@.files.contains_key(key) ==> m@.files[key].extra.dom().finite(),
        forall|key: Seq<char>| #[trigger]
            m@.folders.contains_key(key) ==> m@.folders[key].extra.dom().finite(),
{
    key_map::law_keys_are_finite(m.files);
    key_map::law_keys_are_finite(m.folders);
    key_map::law_keys_are_finite(m.extra);
    assert forall|key: Seq<char>| #[trigger]
        m@.files.contains_key(key) implies m@.files[key].extra.dom().finite() by {
        let f = key_map::law_value_is_held(m.files, key);
        key_map::law_keys_are_finite(f.extra);
    }
    assert forall|key: Seq<char>| #[trigger]
        m@.folders.contains_key(key) implies m@.folders[key].extra.dom().finite() by {
        let d = key_map::law_value_is_held(m.folders, key);
        key_map::law_keys_are_finite(d.extra);
    }
}

/// Known fields and fields of a newer writer can be written as they are.
proof fn lemma_fields_closed(
    known: Seq<(Seq<char>, Seq<char>)>,
    extra: Map<Seq<char>, Seq<char>>,
)
    requires
        json::closed_values(known),
        are_json_fields(extra),
    ensures
        json::closed_values(known + key_map::listing(extra)),
{
    let list = key_map::listing(extra);
    let all = known + list;
    key_map::law_listing_lists(extra);
    assert forall|i: int| 0 <= i < all.len() implies json::closed((#[trigger] all[i]).1) by {
        if i < known.len() {
            assert(all[i] == known[i]);
        } else {
            let e = list[i - known.len()];
            assert(all[i] == e);
            assert(extra.contains_key(e.0) && extra[e.0] == e.1);
            let value = choose|value: json::Json| json::is_text_of(e.1, value);
            json::lemma_text_closed(e.1, value);
        }
    }
}

/// Equal texts of equally many known fields have equal fields.
proof fn lemma_fields_apart(
    a: Seq<(Seq<char>, Seq<char>)>,
    more_a: Map<Seq<char>, Seq<char>>,
    b: Seq<(Seq<char>, Seq<char>)>,
    more_b: Map<Seq<char>, Seq<char>>,
)
    requires
        a.len() == b.len(),
        json::closed_values(a),
        json::closed_values(b),
        are_json_fields(more_a),
        are_json_fields(more_b),
        json::object(a + key_map::listing(more_a)) == json::object(b + key_map::listing(more_b)),
    ensures
        a == b,
        more_a == more_b,
{
    let x = a + key_map::listing(more_a);
    let y = b + key_map::listing(more_b);
    lemma_fields_closed(a, more_a);
    lemma_fields_closed(b, more_b);
    json::law_object_is_injective(x, y);
    assert(a =~= x.take(a.len() as int));
    assert(b =~= y.take(a.len() as int));
    assert(key_map::listing(more_a) =~= x.skip(a.len() as int));
    assert(key_map::listing(more_b) =~= y.skip(a.len() as int));
    key_map::law_listing_determines(more_a, more_b);
}

/// The known fields of a file's record.
spec fn file_fields(f: FileView) -> Seq<(Seq<char>, Seq<char>)> {
    seq![("name"@, json::quoted(f.name)), ("size"@, text::decimal(f.size as nat))]
}

proof fn lemma_file_closed(f: FileView)
    requires
        are_json_fields(f.extra),
    ensures
        json::closed_values(file_fields(f)),
        json::closed(file_json(f)),
{
    json::lemma_quoted_closed(f.name);
    json::lemma_number_closed(f.size as int);
    lemma_fields_closed(file_fields(f), f.extra);
    json::lemma_object_closed(file_fields(f) + key_map::listing(f.extra));
}

proof fn lemma_file_apart(a: FileView, b: FileView)
    requires
        are_json_fields(a.extra),
        are_json_fields(b.extra),
        file_json(a) == file_json(b),
    ensures
        a == b,
{
    lemma_file_closed(a);
    lemma_file_closed(b);
    lemma_fields_apart(file_fields(a), a.extra, file_fields(b), b.extra);
    assert(file_fields(a)[0] == file_fields(b)[0]);
    assert(file_fields(a)[1] == file_fields(b)[1]);
    json::law_quoted_is_injective(a.name, b.name);
    text::lemma_decimal_injective(a.size as nat, b.size as nat);
}

/// The known fields of a folder's record.
spec fn folder_fields(d: FolderView) -> Seq<(Seq<char>, Seq<char>)> {
    seq![
        ("name"@, json::quoted(d.name)),
        ("size"@, json_optional(opt_u64(d.size))),
        ("esize"@, json_optional(opt_u64(d.esize))),
        ("computed"@, json_optional(opt_i64(d.computed))),
    ]
}

proof fn lemma_optional_closed(n: Option<int>)
    ensures
        json::closed(json_optional(n)),
{
    json::lemma_number_closed(match n {
        Some(n) => n,
        None => 0,
    });
}

proof fn lemma_optional_apart(a: Option<int>, b: Option<int>)
    requires
        json_optional(a) == json_optional(b),
    ensures
        a == b,
{
    reveal_strlit("null");
    if let Some(n) = a {
        text::lemma_decimal_digits(if n < 0 {
            (-n) as nat
        } else {
            n as nat
        });
        assert(text::signed_decimal(n)[0] != 'n');
    }
    if let Some(n) = b {
        text::lemma_decimal_digits(if n < 0 {
            (-n) as nat
        } else {
            n as nat
        });
        assert(text::signed_decimal(n)[0] != 'n');
    }
    if a is Some && b is Some {
        text::lemma_signed_decimal_injective(a->0, b->0);
    }
}

proof fn lemma_folder_closed(d: FolderView)
    requires
        are_json_fields(d.extra),
    ensures
        json::closed_values(folder_fields(d)),
        json::closed(folder_json(d)),
{
    json::lemma_quoted_closed(d.name);
    lemma_optional_closed(opt_u64(d.size));
    lemma_optional_closed(opt_u64(d.esize));
    lemma_optional_closed(opt_i64(d.computed));
    lemma_fields_closed(folder_fields(d), d.extra);
    json::lemma_object_closed(folder_fields(d) + key_map::listing(d.extra));
}

proof fn lemma_folder_apart(a: FolderView, b: FolderView)
    requires
        are_json_fields(a.extra),
        are_json_fields(b.extra),
        folder_json(a) == folder_json(b),
    ensures
        a == b,
{
    lemma_folder_closed(a);
    lemma_folder_closed(b);
    lemma_fields_apart(folder_fields(a), a.extra, folder_fields(b), b.extra);
    assert(folder_fields(a)[0] == folder_fields(b)[0]);
    assert(folder_fields(a)[1] == folder_fields(b)[1]);
    assert(folder_fields(a)[2] == folder_fields(b)[2]);
    assert(folder_fields(a)[3] == folder_fields(b)[3]);
    json::law_quoted_is_injective(a.name, b.name);
    lemma_optional_apart(opt_u64(a.size), opt_u64(b.size));
    lemma_optional_apart(opt_u64(a.esize), opt_u64(b.esize));
    lemma_optional_apart(opt_i64(a.computed), opt_i64(b.computed));
}

/// The files of a manifest as members of an object.
spec fn file_members(m: ManifestView) -> Seq<(Seq<char>, Seq<char>)> {
    key_map::listing(m.files).map_values(|e: (Seq<char>, FileView)| (e.0, file_json(e.1)))
}

/// The folders of a manifest as members of an object.
spec fn folder_members(m: ManifestView) -> Seq<(Seq<char>, Seq<char>)> {
    key_map::listing(m.folders).map_values(|e: (Seq<char>, FolderView)| (e.0, folder_json(e.1)))
}

/// The known fields of a manifest.
spec fn manifest_fields(m: ManifestView) -> Seq<(Seq<char>, Seq<char>)> {
    seq![
        ("version"@, text::decimal(m.version as nat)),
        ("files"@, json::object(file_members(m))),
        ("folders"@, json::object(folder_members(m))),
    ]
}

proof fn lemma_members_closed(m: ManifestView)
    requires
        is_writable(m),
    ensures
        json::closed_values(file_members(m)),
        json::closed_values(folder_members(m)),
        json::closed_values(manifest_fields(m)),
{
    let files = key_map::listing(m.files);
    let folders = key_map::listing(m.folders);
    key_map::law_listing_lists(m.files);
    key_map::law_listing_lists(m.folders);
    assert forall|i: int| 0 <= i < file_members(m).len() implies json::closed(
        (#[trigger] file_members(m)[i]).1,
    ) by {
        assert(m.files.contains_key(files[i].0) && m.files[files[i].0] == files[i].1);
        lemma_file_closed(files[i].1);
    }
    assert forall|i: int| 0 <= i < folder_members(m).len() implies json::closed(
        (#[trigger] folder_members(m)[i]).1,
    ) by {
        assert(m.folders.contains_key(folders[i].0) && m.folders[folders[i].0] == folders[i].1);
        lemma_folder_closed(folders[i].1);
    }
    json::lemma_number_closed(m.version as int);
    json::lemma_object_closed(file_members(m));
    json::lemma_object_closed(folder_members(m));
}

proof fn lemma_files_apart(a: ManifestView, b: ManifestView)
    requires
        is_writable(a),
        is_writable(b),
        file_members(a) == file_members(b),
    ensures
        a.files == b.files,
{
    let x = key_map::listing(a.files);
    let y = key_map::listing(b.files);
    key_map::law_listing_lists(a.files);
    key_map::law_listing_lists(b.files);
    assert(x.len() == file_members(a).len() && y.len() == file_members(b).len());
    assert forall|i: int| 0 <= i < x.len() implies x[i] == y[i] by {
        assert(file_members(a)[i] == file_members(b)[i]);
        assert(file_members(a)[i] == (x[i].0, file_json(x[i].1)));
        assert(file_members(b)[i] == (y[i].0, file_json(y[i].1)));
        assert(a.files.contains_key(x[i].0) && a.files[x[i].0] == x[i].1);
        assert(b.files.contains_key(y[i].0) && b.files[y[i].0] == y[i].1);
        lemma_file_apart(x[i].1, y[i].1);
    }
    assert(x =~= y);
    key_map::law_listing_determines(a.files, b.files);
}

proof fn lemma_folders_apart(a: ManifestView, b: ManifestView)
    requires
        is_writable(a),
        is_writable(b),
        folder_members(a) == folder_members(b),
    ensures
        a.folders == b.folders,
{
    let x = key_map::listing(a.folders);
    let y = key_map::listing(b.folders);
    key_map::law_listing_lists(a.folders);
    key_map::law_listing_lists(b.folders);
    assert(x.len() == folder_members(a).len() && y.len() == folder_members(b).len());
    assert forall|i: int| 0 <= i < x.len() implies x[i] == y[i] by {
        assert(folder_members(a)[i] == folder_members(b)[i]);
        assert(folder_members(a)[i] == (x[i].0, folder_json(x[i].1)));
        assert(folder_members(b)[i] == (y[i].0, folder_json(y[i].1)));
        assert(a.folders.contains_key(x[i].0) && a.folders[x[i].0] == x[i].1);
        assert(b.folders.contains_key(y[i].0) && b.folders[y[i].0] == y[i].1);
        lemma_folder_apart(x[i].1, y[i].1);
    }
    assert(x =~= y);
    key_map::law_listing_determines(a.folders, b.folders);
}

/// What was written determines the manifest: two manifests with the same bytes are
/// the same, the fields of a newer writer on every level with them. So whoever
/// reads the bytes that a sealed manifest opens to, and keeps what they hold, has
/// the manifest that was sealed, and writes the same bytes again.
pub proof fn law_json_determines_manifest(a: ManifestView, b: ManifestView)
    requires
        is_writable(a),
        is_writable(b),
        encode_utf8(manifest_json(a)) == encode_utf8(manifest_json(b)),
    ensures
        a == b,
{
    encode_utf8_decode_utf8(manifest_json(a));
    encode_utf8_decode_utf8(manifest_json(b));
    lemma_members_closed(a);
    lemma_members_closed(b);
    lemma_fields_apart(manifest_fields(a), a.extra, manifest_fields(b), b.extra);
    assert(manifest_fields(a)[0] == manifest_fields(b)[0]);
    assert(manifest_fields(a)[1] == manifest_fields(b)[1]);
    assert(manifest_fields(a)[2] == manifest_fields(b)[2]);
    text::lemma_decimal_injective(a.version as nat, b.version as nat);
    json::law_object_is_injective(file_members(a), file_members(b));
    json::law_object_is_injective(folder_members(a), folder_members(b));
    lemma_files_apart(a, b);
    lemma_folders_apart(a, b);
}

/// The characters of each pair of strings.
pub open spec fn pair_views(list: Seq<(String, String)>) -> Seq<(Seq<char>, Seq<char>)> {
    list.map_values(|e: (String, String)| (e.0@, e.1@))
}

fn object_of(members: &Vec<(String, String)>) -> (r: String)
    ensures
        r@ == json::object(pair_views(members@)),
{
    let mut out = String::new();
    out.push('{');
    let ghost list = pair_views(members@);
    let mut i: usize = 0;
    assert(out@ =~= seq!['{'] + json::members(list.take(0)));
    while i < members.len()
        invariant
            list == pair_views(members@),
            i <= members@.len(),
            out@ == seq!['{'] + json::members(list.take(i as int)),
        decreases members@.len() - i,
    {
        let ghost t = list.take(i as int + 1);
        assert(t.drop_last() =~= list.take(i as int));
        if i > 0 {
            out.push(',');
        }
        let quoted = json::quote(members[i].0.as_str());
        out.append(quoted.as_str());
        out.push(':');
        out.append(members[i].1.as_str());
        assert(t.last() == (members@[i as int].0@, members@[i as int].1@));
        assert(out@ =~= seq!['{'] + json::members(t));
        i += 1;
    }
    assert(list.take(i as int) =~= list);
    out.push('}');
    out
}

fn push_member(members: &mut Vec<(String, String)>, key: &str, value: String)
    ensures
        pair_views(final(members)@) == pair_views(old(members)@).push((key@, value@)),
{
    let ghost v = value@;
    members.push((key.to_owned(), value));
    assert(pair_views(members@) =~= pair_views(old(members)@).push((key@, v)));
}

fn push_extra(members: &mut Vec<(String, String)>, extra: &KeyMap<String>)
    ensures
        pair_views(final(members)@) == pair_views(old(members)@) + key_map::listing(extra@),
{
    let n = extra.len();
    let ghost list = key_map::listing(extra@);
    let ghost before = pair_views(members@);
    let mut i: usize = 0;
    assert(pair_views(members@) =~= before + list.take(0));
    while i < n
        invariant
            n == list.len(),
            list == key_map::listing(extra@),
            i <= n,
            pair_views(members@) == before + list.take(i as int),
        decreases n - i,
    {
        push_member(members, extra.key_at(i).as_str(), extra.value_at(i).clone());
        assert(before + list.take(i as int + 1) =~= (before + list.take(i as int)).push(
            list[i as int],
        ));
        i += 1;
    }
    assert(list.take(i as int) =~= list);
}

fn optional_u64(n: Option<u64>) -> (r: String)
    ensures
        r@ == json_optional(opt_u64(n)),
{
    match n {
        Some(n) => text::decimal_of(n),
        None => "null".to_owned(),
    }
}

fn optional_i64(n: Option<i64>) -> (r: String)
    ensures
        r@ == json_optional(opt_i64(n)),
{
    match n {
        Some(n) => text::signed_decimal_of(n),
        None => "null".to_owned(),
    }
}

impl FileEntry {
    /// The record in JSON.
    pub fn to_json(&self) -> (r: String)
        ensures
            r@ == file_json(self@),
    {
        let mut members: Vec<(String, String)> = Vec::new();
        assert(pair_views(members@) =~= Seq::empty());
        push_member(&mut members, "name", json::quote(self.name.as_str()));
        push_member(&mut members, "size", text::decimal_of(self.size));
        assert(pair_views(members@) =~= seq![
            ("name"@, json::quoted(self.name@)),
            ("size"@, text::decimal(self.size as nat)),
        ]);
        push_extra(&mut members, &self.extra);
        object_of(&members)
    }
}

impl FolderEntry {
    /// The record in JSON.
    pub fn to_json(&self) -> (r: String)
        ensures
            r@ == folder_json(self@),
    {
        let mut members: Vec<(String, String)> = Vec::new();
        assert(pair_views(members@) =~= Seq::empty());
        push_member(&mut members, "name", json::quote(self.name.as_str()));
        push_member(&mut members, "size", optional_u64(self.size));
        push_member(&mut members, "esize", optional_u64(self.esize));
        push_member(&mut members, "computed", optional_i64(self.computed));
        assert(pair_views(members@) =~= seq![
            ("name"@, json::quoted(self.name@)),
            ("size"@, json_optional(opt_u64(self.size))),
            ("esize"@, json_optional(opt_u64(self.esize))),
            ("computed"@, json_optional(opt_i64(self.computed))),
        ]);
        push_extra(&mut members, &self.extra);
        object_of(&members)
    }
}

fn files_json(files: &KeyMap<FileEntry>) -> (r: String)
    ensures
        r@ == json::object(
            key_map::listing(files@).map_values(|e: (Seq<char>, FileView)| (e.0, file_json(e.1))),
        ),
{
    let mut members: Vec<(String, String)> = Vec::new();
    let n = files.len();
    let ghost f = |e: (Seq<char>, FileView)| (e.0, file_json(e.1));
    let ghost list = key_map::listing(files@);
    let mut i: usize = 0;
    assert(pair_views(members@) =~= list.take(0).map_values(f));
    while i < n
        invariant
            n == list.len(),
            list == key_map::listing(files@),
            f == (|e: (Seq<char>, FileView)| (e.0, file_json(e.1))),
            i <= n,
            pair_views(members@) == list.take(i as int).map_values(f),
        decreases n - i,
    {
        push_member(&mut members, files.key_at(i).as_str(), files.value_at(i).to_json());
        assert(list.take(i as int + 1).map_values(f) =~= list.take(i as int).map_values(f).push(
            f(list[i as int]),
        ));
        i += 1;
    }
    assert(list.take(i as int) =~= list);
    object_of(&members)
}

fn folders_json(folders: &KeyMap<FolderEntry>) -> (r: String)
    ensures
        r@ == json::object(
            key_map::listing(folders@).map_values(
                |e: (Seq<char>, FolderView)| (e.0, folder_json(e.1)),
            ),
        ),
{
    let mut members: Vec<(String, String)> = Vec::new();
    let n = folders.len();
    let ghost f = |e: (Seq<char>, FolderView)| (e.0, folder_json(e.1));
    let ghost list = key_map::listing(folders@);
    let mut i: usize = 0;
    assert(pair_views(members@) =~= list.take(0).map_values(f));
    while i < n
        invariant
            n == list.len(),
            list == key_map::listing(folders@),
            f == (|e: (Seq<char>, FolderView)| (e.0, folder_json(e.1))),
            i <= n,
            pair_views(members@) == list.take(i as int).map_values(f),
        decreases n - i,
    {
        push_member(&mut members, folders.key_at(i).as_str(), folders.value_at(i).to_json());
        assert(list.take(i as int + 1).map_values(f) =~= list.take(i as int).map_values(f).push(
            f(list[i as int]),
        ));
        i += 1;
    }
    assert(list.take(i as int) =~= list);
    object_of(&members)
}

/// The 64-bit FNV-1a hash of `data`.
pub open spec fn fnv1a(data: Seq<u8>) -> u64
    decreases data.len(),
{
    if data.len() == 0 {
        0xcbf2_9ce4_8422_2325
    } else {
        (fnv1a(data.drop_last()) ^ (data.last() as u64)).wrapping_mul(0x0000_0100_0000_01b3)
    }
}

fn fnv1a_of(data: &[u8]) -> (r: u64)
    ensures
        r == fnv1a(data@),
{
    let mut hash: u64 = 0xcbf2_9ce4_8422_2325;
    let mut i: usize = 0;
    while i < data.len()
        invariant
            i <= data@.len(),
            hash == fnv1a(data@.take(i as int)),
        decreases data@.len() - i,
    {
        assert(data@.take(i as int + 1).drop_last() =~= data@.take(i as int));
        hash = (hash ^ (data[i] as u64)).wrapping_mul(0x0000_0100_0000_01b3);
        i += 1;
    }
    assert(data@.take(i as int) =~= data@);
    hash
}

/// Why a manifest could not be sealed or opened.
#[derive(Clone, Copy, Debug, PartialEq, Eq, Structural)]
pub enum ManifestError {
    Decrypting(CryptoError),
    Encrypting(CryptoError),
}

impl ManifestError {
    /// What the user is told.
    pub open spec fn text(self) -> Seq<char> {
        match self {
            ManifestError::Decrypting(_) => "decrypting directory manifest"@,
            ManifestError::Encrypting(_) => "encrypting directory manifest"@,
        }
    }

    /// What the user is told.
    pub fn message(&self) -> (r: String)
        ensures
            r@ == self.text(),
    {
        match self {
            ManifestError::Decrypting(_) => "decrypting directory manifest".to_owned(),
            ManifestError::Encrypting(_) => "encrypting directory manifest".to_owned(),
        }
    }
}

impl Manifest {
    /// The manifest in JSON, members and entries in one fixed order.
    pub fn to_json(&self) -> (r: String)
        ensures
            r@ == manifest_json(self@),
    {
        let mut members: Vec<(String, String)> = Vec::new();
        assert(pair_views(members@) =~= Seq::empty());
        let files = files_json(&self.files);
        let folders = folders_json(&self.folders);
        let ghost f = files@;
        let ghost d = folders@;
        push_member(&mut members, "version", text::decimal_of(self.version as u64));
        push_member(&mut members, "files", files);
        push_member(&mut members, "folders", folders);
        assert(pair_views(members@) =~= seq![
            ("version"@, text::decimal(self.version as nat)),
            ("files"@, f),
            ("folders"@, d),
        ]);
        push_extra(&mut members, &self.extra);
        object_of(&members)
    }

    /// A fingerprint of the JSON form. Manifests that record the same have the
    /// same fingerprint.
    pub fn fingerprint(&self) -> (r: u64)
        ensures
            r == fnv1a(encode_utf8(manifest_json(self@))),
    {
        let json = self.to_json();
        fnv1a_of(json.as_str().as_bytes())
    }

    /// The manifest sealed for storage. It opens to the JSON form again.
    pub fn encrypt(&self, keys: &VaultKeys) -> (r: Result<Vec<u8>, ManifestError>)
        ensures
            ({
                let json = encode_utf8(manifest_json(self@));
                if crypto::chunks_of(json.len()) > u32::MAX {
                    r == Err::<Vec<u8>, ManifestError>(
                        ManifestError::Encrypting(CryptoError::FileTooLarge),
                    )
                } else {
                    &&& r is Ok
                    &&& r->Ok_0@.len() == crypto::sealed_len(json.len())
                    &&& crypto::decrypted(keys.content_key(), r->Ok_0@) == Ok::<
                        Seq<u8>,
                        CryptoError,
                    >(json)
                }
            }),
    {
        let json = self.to_json();
        match crypto::encrypt_bytes(keys, json.as_str().as_bytes()) {
            Ok(blob) => Ok(blob),
            Err(e) => Err(ManifestError::Encrypting(e)),
        }
    }

    /// The JSON form that a stored manifest was sealed from.
    pub fn decrypt(keys: &VaultKeys, blob: &[u8]) -> (r: Result<Vec<u8>, ManifestError>)
        requires
            blob@.len() <= crypto::HEADER_LEN + u32::MAX * 0x10_0010,
        ensures
            match crypto::decrypted(keys.content_key(), blob@) {
                Ok(json) => r is Ok && r->Ok_0@ == json,
                Err(e) => r == Err::<Vec<u8>, ManifestError>(ManifestError::Decrypting(e)),
            },
    {
        match crypto::decrypt_bytes(keys, blob) {
            Ok(json) => Ok(json),
            Err(e) => Err(ManifestError::Decrypting(e)),
        }
    }
}

/// A stored name is the hash of the encrypted name in upper-case hexadecimal digits,
/// two for each byte, the higher one first.
pub proof fn law_stored_name_spells_the_hash(encrypted: Seq<char>, i: int)
    requires
        0 <= i < primitives::sha256(encode_utf8(encrypted)).len(),
    ensures
        ({
            let bytes = primitives::sha256(encode_utf8(encrypted));
            let name = entry_hash(encrypted);
            let value = |c: char|
                if '0' <= c <= '9' {
                    c as int - '0' as int
                } else {
                    c as int - 'A' as int + 10
                };
            &&& name.len() == 2 * bytes.len()
            &&& is_hex(name[2 * i]) && is_hex(name[2 * i + 1])
            &&& value(name[2 * i]) * 16 + value(name[2 * i + 1]) == bytes[i]
        }),
{
    let b = primitives::sha256(encode_utf8(encrypted))[i] as int;
    assert((2 * i) / 2 == i && (2 * i + 1) / 2 == i);
    assert(0 <= b / 16 < 16 && 0 <= b % 16 < 16);
}

/// The manifest object is called `.rse`, with or without slashes behind it.
pub proof fn law_manifest_has_its_name(name: Seq<char>)
    ensures
        is_manifest_name(seq!['.', 'r', 's', 'e']),
        is_manifest_name(name.push('/')) == is_manifest_name(name),
        name.len() > 0 && name.last() != '/' && name != seq!['.', 'r', 's', 'e']
            ==> !is_manifest_name(name),
{
    reveal_strlit(".rse");
    assert(".rse"@ =~= seq!['.', 'r', 's', 'e']);
    assert(name.push('/').drop_last() =~= name);
}

/// A stored name is told by its record, that of a file before that of a folder.
pub proof fn law_name_is_that_of_the_record(m: ManifestView, stored: Seq<char>)
    ensures
        m.files.contains_key(stored) ==> m.name_of(stored) == Some(m.files[stored].name),
        !m.files.contains_key(stored) && m.folders.contains_key(stored) ==> m.name_of(stored)
            == Some(m.folders[stored].name),
        !m.files.contains_key(stored) && !m.folders.contains_key(stored) ==> m.name_of(stored)
            is None,
{
}

} // verus!
