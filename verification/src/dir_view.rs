//! Names in an encrypted directory.
//!
//! In an encrypted session every stored name is the hash of an encrypted name,
//! and the real names and sizes are in the directory's manifest. This module
//! has both directions: from a logical name or path to its stored form, which
//! needs no manifest, and from the objects of a directory and its manifest to
//! the listing that is shown.

use crate::crypto;
use crate::crypto::{CryptoError, VaultKeys};
use crate::manifest;
use crate::manifest::Manifest;
use crate::manifest::ManifestView;
use crate::storage::entries;
use crate::storage::entries::{RawObject, RawView, RemoteEntry, RemoteView};
use crate::text;
use vstd::prelude::*;
use vstd::string::*;
use vstd::utf8::*;

verus! {

/// The stored form of a path segment.
pub open spec fn stored_segment(key: Seq<u8>, name: Seq<char>) -> Seq<char> {
    manifest::entry_hash(crypto::name_cipher(key, name))
}

/// The stored form of a path: every segment on its own, empty ones as they are.
pub open spec fn stored_path(key: Seq<u8>, path: Seq<char>) -> Seq<char> {
    text::join_with(
        text::split_on(path, '/').map_values(
            |s: Seq<char>|
                if s.len() == 0 {
                    Seq::empty()
                } else {
                    stored_segment(key, s)
                },
        ),
        '/',
    )
}

/// The stored name for one logical path segment. Equal names have equal stored
/// names.
pub fn on_disk_segment(keys: &VaultKeys, name: &str) -> (r: Result<String, CryptoError>)
    requires
        crypto::name_fits(name@),
    ensures
        r is Ok,
        r->Ok_0@ == stored_segment(keys.name_key(), name@),
        manifest::is_hash(r->Ok_0@),
{
    match crypto::encrypt_name(keys, name) {
        Ok(encrypted) => Ok(manifest::hash_entry(encrypted.as_str())),
        Err(e) => Err(e),
    }
}

/// Whether a stored path has the segments of a path: a hash for every one that is
/// not empty, and empty ones where they were, so that a trailing slash stays.
pub open spec fn keeps_structure(key: Seq<u8>, path: Seq<char>, stored: Seq<char>) -> bool {
    let plain = text::split_on(path, '/');
    let parts = text::split_on(stored, '/');
    &&& parts.len() == plain.len()
    &&& forall|i: int|
        0 <= i < plain.len() ==> if plain[i].len() == 0 {
            (#[trigger] parts[i]).len() == 0
        } else {
            parts[i] == stored_segment(key, plain[i]) && manifest::is_hash(parts[i])
        }
}

/// The stored form of a `/`-separated logical path, a trailing slash kept.
pub fn on_disk_path(keys: &VaultKeys, path: &str) -> (r: Result<String, CryptoError>)
    requires
        crypto::name_fits(path@),
    ensures
        r is Ok,
        r->Ok_0@ == stored_path(keys.name_key(), path@),
        keeps_structure(keys.name_key(), path@, r->Ok_0@),
{
    let ghost key = keys.name_key();
    let ghost f = |s: Seq<char>|
        if s.len() == 0 {
            Seq::empty()
        } else {
            stored_segment(key, s)
        };
    let segments = text::split(path, '/');
    let ghost plain = text::split_on(path@, '/');
    let mut out: Vec<String> = Vec::new();
    let mut i: usize = 0;
    proof {
        text::lemma_utf8_pieces(path@, '/');
    }
    while i < segments.len()
        invariant
            key == keys.name_key(),
            f == (|s: Seq<char>|
                if s.len() == 0 {
                    Seq::empty()
                } else {
                    stored_segment(key, s)
                }),
            plain == text::split_on(path@, '/'),
            text::views(segments@) == plain,
            crypto::name_fits(path@),
            forall|j: int|
                0 <= j < plain.len() ==> encode_utf8(#[trigger] plain[j]).len() <= encode_utf8(
                    path@,
                ).len(),
            i <= segments@.len(),
            text::views(out@) == plain.map_values(f).take(i as int),
            forall|j: int|
                0 <= j < i ==> (#[trigger] out@[j])@.len() == 0 || manifest::is_hash(out@[j]@),
            forall|j: int| 0 <= j < i && plain[j].len() > 0 ==> manifest::is_hash((#[trigger] out@[j])@),
        decreases segments@.len() - i,
    {
        let segment = segments[i].as_str();
        assert(segment@ == plain[i as int]);
        let stored = if segment.is_empty() {
            String::new()
        } else {
            on_disk_segment(keys, segment).unwrap()
        };
        let ghost before = text::views(out@);
        assert(stored@ =~= f(plain[i as int]));
        out.push(stored);
        assert(text::views(out@) =~= before.push(f(plain[i as int])));
        assert(plain.map_values(f).take(i as int + 1) =~= before.push(f(plain[i as int])));
        i += 1;
    }
    assert(plain.map_values(f).take(i as int) =~= plain.map_values(f));
    proof {
        let parts = text::views(out@);
        text::lemma_split_nonempty(path@, '/');
        assert forall|j: int| 0 <= j < parts.len() implies !(#[trigger] parts[j]).contains('/') by {
            assert(parts[j] == out@[j]@);
        }
        text::lemma_split_of_join(parts, '/');
        assert forall|j: int| 0 <= j < plain.len() implies if plain[j].len() == 0 {
            (#[trigger] parts[j]).len() == 0
        } else {
            parts[j] == stored_segment(key, plain[j]) && manifest::is_hash(parts[j])
        } by {
            assert(parts[j] == out@[j]@);
            assert(parts[j] == f(plain[j]));
        }
    }
    Ok(text::join(&out, '/'))
}

/// The prefix of the directory that a key lies in: up to and with the last `/`,
/// slashes at the end of the key aside.
pub open spec fn parent_of(key: Seq<char>) -> Seq<char> {
    let trimmed = text::trim_end_char(key, '/');
    trimmed.take(text::last_at(trimmed, '/') + 1)
}

/// The last segment of a key, slashes at its end aside.
pub open spec fn leaf(key: Seq<char>) -> Seq<char> {
    let trimmed = text::trim_end_char(key, '/');
    trimmed.skip(text::last_at(trimmed, '/') + 1)
}

/// The prefix of the directory that a key lies in, `""` for one at the root.
pub fn parent_prefix(key: &str) -> (r: String)
    ensures
        r@ == parent_of(key@),
{
    let trimmed = text::trim_end(key, '/');
    let chars = text::chars_of(trimmed.as_str());
    assert(chars@.take(chars@.len() as int) =~= chars@);
    match text::rfind(&chars, chars.len(), '/') {
        Some(at) => {
            let r = text::string_of(&chars, 0, at + 1);
            assert(r@ =~= parent_of(key@));
            r
        },
        None => {
            assert(parent_of(key@) =~= Seq::empty());
            String::new()
        },
    }
}

/// The last segment of a key.
pub fn leaf_of(key: &str) -> (r: String)
    ensures
        r@ == leaf(key@),
{
    let trimmed = text::trim_end(key, '/');
    let chars = text::chars_of(trimmed.as_str());
    assert(chars@.take(chars@.len() as int) =~= chars@);
    let start: usize = match text::rfind(&chars, chars.len(), '/') {
        Some(at) => at + 1,
        None => 0,
    };
    let r = text::string_of(&chars, start, chars.len());
    assert(r@ =~= leaf(key@));
    r
}

/// Whether text can be a directory's prefix: empty, or closed by a slash.
pub open spec fn is_prefix(dir: Seq<char>) -> bool {
    dir.len() == 0 || dir.last() == '/'
}

/// The directory and the last segment of a key are found again in a key made of
/// them, with or without a folder's trailing slash.
pub proof fn law_parent_of_child(dir: Seq<char>, name: Seq<char>)
    requires
        is_prefix(dir),
        name.len() > 0,
        !name.contains('/'),
    ensures
        parent_of(dir + name) == dir,
        parent_of((dir + name).push('/')) == dir,
        leaf(dir + name) == name,
        leaf((dir + name).push('/')) == name,
{
    let key = dir + name;
    let folder = key.push('/');
    assert(name.last() != '/') by {
        assert(name.contains(name.last()));
    }
    assert(key.last() == name.last());
    assert(text::trim_end_char(key, '/') == key);
    assert(folder.drop_last() =~= key);
    assert(text::trim_end_where(folder, text::is_char('/')) == text::trim_end_where(
        key,
        text::is_char('/'),
    ));
    assert forall|i: int| dir.len() - 1 < i < key.len() implies key[i] != '/' by {
        assert(key[i] == name[i - dir.len()]);
        assert(name.contains(name[i - dir.len()]));
    }
    text::lemma_last_at_unique(key, '/', dir.len() - 1);
    assert(key.take(dir.len() as int) =~= dir);
    assert(key.skip(dir.len() as int) =~= name);
}

/// Whether a name has the shape of a stored name.
pub fn looks_like_hash(name: &str) -> (r: bool)
    ensures
        r == manifest::is_hash(name@),
{
    let chars = text::chars_of(name);
    if chars.len() != 64 {
        return false;
    }
    let mut i: usize = 0;
    while i < chars.len()
        invariant
            chars@ == name@,
            chars@.len() == 64,
            i <= chars@.len(),
            forall|j: int| 0 <= j < i ==> manifest::is_hex(#[trigger] chars@[j]),
        decreases chars@.len() - i,
    {
        let c = chars[i];
        if !(('0' <= c && c <= '9') || ('A' <= c && c <= 'F')) {
            assert(!manifest::is_hex(name@[i as int]));
            return false;
        }
        i += 1;
    }
    true
}

/// How a listed object stands to the manifest.
#[derive(Clone, Copy, Debug, PartialEq, Eq, Structural)]
pub enum EntryKind {
    /// Recorded: a normal encrypted item.
    Known,
    /// Named like a stored entry, but not recorded: left by an interrupted
    /// upload. It is shown, never hidden.
    Orphan,
    /// Not named like a stored entry: written by another tool.
    Foreign,
}

/// The listing of a directory.
pub struct DirListing {
    pub entries: Vec<RemoteEntry>,
    /// How many of the entries are orphans.
    pub orphan_count: usize,
}

/// How an object with the given last segment stands to the manifest.
pub open spec fn kind_of(leaf: Seq<char>, m: ManifestView) -> EntryKind {
    if m.name_of(leaf) is Some {
        EntryKind::Known
    } else if manifest::is_hash(leaf) {
        EntryKind::Orphan
    } else {
        EntryKind::Foreign
    }
}

/// Whether a listed object is shown.
pub open spec fn is_listed(o: RawView) -> bool {
    !manifest::is_manifest_name(leaf(o.key))
}

/// The entry that is shown for a listed object.
pub open spec fn shown_entry(o: RawView, m: ManifestView) -> RemoteView {
    let leaf = leaf(o.key);
    let kind = kind_of(leaf, m);
    RemoteView {
        key: o.key,
        name: match kind {
            EntryKind::Known => m.name_of(leaf)->0,
            EntryKind::Orphan => "[unrecovered] "@ + leaf.take(16),
            EntryKind::Foreign => leaf,
        },
        is_dir: o.is_prefix,
        size: if kind == EntryKind::Known {
            if o.is_prefix {
                if m.folders.contains_key(leaf) && m.folders[leaf].size is Some {
                    m.folders[leaf].size->0
                } else {
                    0
                }
            } else if m.files.contains_key(leaf) {
                m.files[leaf].size
            } else {
                o.size
            }
        } else {
            o.size
        },
        modified: o.modified,
        encrypted: Some(kind == EntryKind::Known),
    }
}

/// The entries that are shown for the objects of a directory, in the order of
/// the objects.
pub open spec fn shown_entries(raw: Seq<RawView>, m: ManifestView) -> Seq<RemoteView>
    decreases raw.len(),
{
    if raw.len() == 0 {
        Seq::empty()
    } else {
        let front = shown_entries(raw.drop_last(), m);
        if is_listed(raw.last()) {
            front.push(shown_entry(raw.last(), m))
        } else {
            front
        }
    }
}

/// How many of the objects of a directory are orphans.
pub open spec fn orphans(raw: Seq<RawView>, m: ManifestView) -> nat
    decreases raw.len(),
{
    if raw.len() == 0 {
        0
    } else {
        let o = raw.last();
        orphans(raw.drop_last(), m) + if is_listed(o) && kind_of(leaf(o.key), m)
            == EntryKind::Orphan {
            1nat
        } else {
            0nat
        }
    }
}

/// Every object but the manifest is shown, under its own key, and nothing else
/// is.
pub proof fn law_listing_is_complete(raw: Seq<RawView>, m: ManifestView)
    ensures
        forall|i: int|
            0 <= i < raw.len() && is_listed(#[trigger] raw[i]) ==> shown_entries(raw, m).contains(
                shown_entry(raw[i], m),
            ),
        forall|e: RemoteView| #[trigger]
            shown_entries(raw, m).contains(e) ==> exists|i: int|
                0 <= i < raw.len() && is_listed(#[trigger] raw[i]) && e == shown_entry(raw[i], m),
        shown_entries(raw, m).len() <= raw.len(),
        orphans(raw, m) <= shown_entries(raw, m).len(),
    decreases raw.len(),
{
    if raw.len() > 0 {
        let front = raw.drop_last();
        let shown = shown_entries(front, m);
        law_listing_is_complete(front, m);
        assert forall|i: int| 0 <= i < raw.len() && is_listed(#[trigger] raw[i]) implies shown_entries(
            raw,
            m,
        ).contains(shown_entry(raw[i], m)) by {
            if i < front.len() {
                assert(front[i] == raw[i]);
                let k = choose|k: int|
                    0 <= k < shown.len() && shown[k] == shown_entry(raw[i], m);
                assert(shown_entries(raw, m)[k] == shown[k]);
            } else {
                assert(shown_entries(raw, m).last() == shown_entry(raw[i], m));
            }
        }
        assert forall|e: RemoteView| #[trigger] shown_entries(raw, m).contains(e) implies exists|i: int|
            0 <= i < raw.len() && is_listed(#[trigger] raw[i]) && e == shown_entry(raw[i], m) by {
            let k = choose|k: int|
                0 <= k < shown_entries(raw, m).len() && shown_entries(raw, m)[k] == e;
            if k < shown.len() {
                assert(shown.contains(shown[k]));
                let i = choose|i: int|
                    0 <= i < front.len() && is_listed(#[trigger] front[i]) && e == shown_entry(
                        front[i],
                        m,
                    );
                assert(raw[i] == front[i]);
            } else {
                assert(is_listed(raw[raw.len() - 1]));
            }
        }
    }
}

/// The objects of a directory but its manifest.
pub open spec fn but_manifest(raw: Seq<RawView>) -> Seq<RawView> {
    raw.filter(|o: RawView| leaf(o.key) != ".rse"@)
}

/// The last segment of a key ends in no slash.
pub proof fn lemma_leaf_end(key: Seq<char>)
    ensures
        text::trim_end_char(leaf(key), '/') == leaf(key),
{
    let trimmed = text::trim_end_char(key, '/');
    let l = leaf(key);
    text::lemma_trim_end(key, text::is_char('/'));
    text::lemma_last_at(trimmed, '/');
    if l.len() > 0 {
        assert(l.last() == trimmed.last());
    }
}

/// What a directory is shown as: one entry for each object but the manifest, in the
/// order of the objects, by which the object is fetched, moved and deleted. An
/// object that is recorded has its recorded name, and a file its recorded size, a
/// folder its computed size or none; one that is not recorded keeps its size, and is
/// shown by its stored name, shortened where that is a hash.
pub proof fn law_entries_stand_for_objects(raw: Seq<RawView>, m: ManifestView)
    ensures
        shown_entries(raw, m).len() == but_manifest(raw).len(),
        forall|i: int|
            0 <= i < but_manifest(raw).len() ==> {
                let o = but_manifest(raw)[i];
                let l = leaf(o.key);
                let e = #[trigger] shown_entries(raw, m)[i];
                &&& e.key == o.key
                &&& e.is_dir == o.is_prefix
                &&& e.modified == o.modified
                &&& e.encrypted == Some(m.files.contains_key(l) || m.folders.contains_key(l))
                &&& m.files.contains_key(l) ==> e.name == m.files[l].name && (!o.is_prefix
                    ==> e.size == m.files[l].size)
                &&& !m.files.contains_key(l) && m.folders.contains_key(l) ==> e.name
                    == m.folders[l].name && (!o.is_prefix ==> e.size == o.size)
                &&& m.folders.contains_key(l) && o.is_prefix ==> e.size == (
                match m.folders[l].size {
                    Some(n) => n,
                    None => 0,
                })
                &&& m.files.contains_key(l) && !m.folders.contains_key(l) && o.is_prefix ==> e.size
                    == 0
                &&& !m.files.contains_key(l) && !m.folders.contains_key(l) ==> {
                    &&& e.size == o.size
                    &&& e.name == if l.len() == 64 && (forall|k: int|
                        0 <= k < 64 ==> ('0' <= #[trigger] l[k] && l[k] <= '9') || ('A' <= l[k]
                            && l[k] <= 'F')) {
                        "[unrecovered] "@ + l.take(16)
                    } else {
                        l
                    }
                }
            },
    decreases raw.len(),
{
    reveal(Seq::filter);
    if raw.len() > 0 {
        let front = raw.drop_last();
        let o = raw.last();
        let l = leaf(o.key);
        law_entries_stand_for_objects(front, m);
        lemma_leaf_end(o.key);
        assert(is_listed(o) == (l != ".rse"@));
        assert(manifest::is_hash(l) == (l.len() == 64 && (forall|k: int|
            0 <= k < 64 ==> ('0' <= #[trigger] l[k] && l[k] <= '9') || ('A' <= l[k] && l[k]
                <= 'F')))) by {
            if l.len() == 64 {
                assert(forall|k: int|
                    0 <= k < 64 ==> manifest::is_hex(#[trigger] l[k]) == (('0' <= l[k] && l[k]
                        <= '9') || ('A' <= l[k] && l[k] <= 'F')));
            }
        }
        if is_listed(o) {
            assert(shown_entries(raw, m) == shown_entries(front, m).push(shown_entry(o, m)));
            assert(but_manifest(raw) == but_manifest(front).push(o));
        } else {
            assert(but_manifest(raw) == but_manifest(front));
        }
    }
}

/// The orphans of a directory are its objects that are named like stored entries
/// and not recorded.
pub proof fn law_orphans_are_counted(raw: Seq<RawView>, m: ManifestView)
    ensures
        orphans(raw, m) == raw.filter(
            |o: RawView|
                manifest::is_hash(leaf(o.key)) && !m.files.contains_key(leaf(o.key))
                    && !m.folders.contains_key(leaf(o.key)),
        ).len(),
    decreases raw.len(),
{
    reveal(Seq::filter);
    if raw.len() > 0 {
        let l = leaf(raw.last().key);
        law_orphans_are_counted(raw.drop_last(), m);
        if manifest::is_hash(l) {
            manifest::law_hash_is_no_manifest_name(l);
        }
    }
}

/// How an object stands to the manifest.
pub fn classify(leaf: &str, manifest: &Manifest) -> (r: EntryKind)
    ensures
        r == kind_of(leaf@, manifest@),
{
    if manifest.name_for(leaf).is_some() {
        EntryKind::Known
    } else if looks_like_hash(leaf) {
        EntryKind::Orphan
    } else {
        EntryKind::Foreign
    }
}

/// The entry that is shown for an object.
fn resolve(o: &RawObject, leaf: &str, kind: EntryKind, manifest: &Manifest) -> (r: RemoteEntry)
    requires
        leaf@ == self::leaf(o.key@),
        kind == kind_of(leaf@, manifest@),
    ensures
        r@ == shown_entry(o@, manifest@),
{
    let name = match kind {
        EntryKind::Known => manifest.name_for(leaf).unwrap().to_owned(),
        EntryKind::Orphan => {
            let chars = text::chars_of(leaf);
            let short = text::string_of(&chars, 0, 16);
            assert(short@ =~= leaf@.take(16));
            text::concat("[unrecovered] ", short.as_str())
        },
        EntryKind::Foreign => leaf.to_owned(),
    };
    let size: u64 = match kind {
        EntryKind::Known => if o.is_prefix {
            match manifest.folders.get(leaf) {
                Some(d) => match d.size {
                    Some(size) => size,
                    None => 0,
                },
                None => 0,
            }
        } else {
            match manifest.files.get(leaf) {
                Some(f) => f.size,
                None => o.size,
            }
        },
        _ => o.size,
    };
    RemoteEntry {
        key: o.key.clone(),
        name,
        is_dir: o.is_prefix,
        size,
        modified: o.modified,
        encrypted: Some(kind == EntryKind::Known),
    }
}

/// Builds the listing of one encrypted directory from its objects and its
/// manifest. The manifest object is left out. Files show their plaintext size,
/// folders their cached size or zero.
pub fn build_listing(raw: &Vec<RawObject>, manifest: &Manifest) -> (r: DirListing)
    ensures
        entries::is_shown(
            entries::entry_views(r.entries@),
            shown_entries(entries::raw_views(raw@), manifest@),
        ),
        r.orphan_count == orphans(entries::raw_views(raw@), manifest@),
{
    let ghost views = entries::raw_views(raw@);
    let mut list: Vec<RemoteEntry> = Vec::new();
    let mut orphan_count: usize = 0;
    let mut i: usize = 0;
    assert(entries::entry_views(list@) =~= Seq::empty());
    assert(views.take(0) =~= Seq::empty());
    while i < raw.len()
        invariant
            views == entries::raw_views(raw@),
            i <= raw@.len(),
            entries::entry_views(list@) == shown_entries(views.take(i as int), manifest@),
            orphan_count == orphans(views.take(i as int), manifest@),
            orphan_count <= i,
        decreases raw@.len() - i,
    {
        let o = &raw[i];
        let leaf = leaf_of(o.key.as_str());
        let ghost before = entries::entry_views(list@);
        assert(views.take(i as int + 1).drop_last() =~= views.take(i as int));
        assert(views.take(i as int + 1).last() == o@);
        if !manifest::is_manifest_key(leaf.as_str()) {
            let kind = classify(leaf.as_str(), manifest);
            if kind == EntryKind::Orphan {
                orphan_count += 1;
            }
            let entry = resolve(o, leaf.as_str(), kind, manifest);
            let ghost e = entry@;
            list.push(entry);
            assert(entries::entry_views(list@) =~= before.push(e));
        }
        i += 1;
    }
    assert(views.take(i as int) =~= views);
    DirListing { entries: entries::sort_entries(&list), orphan_count }
}

/// A path is stored segment by segment: what stands between two slashes is the stored
/// name of what stood there, the hash of its encrypted form, and nothing where there
/// was nothing.
pub proof fn law_path_is_stored_by_segment(key: Seq<u8>, parts: Seq<Seq<char>>)
    requires
        parts.len() > 0,
        forall|i: int| 0 <= i < parts.len() ==> !(#[trigger] parts[i]).contains('/'),
    ensures
        stored_path(key, text::join_with(parts, '/')) == text::join_with(
            Seq::new(
                parts.len(),
                |i: int|
                    if parts[i].len() == 0 {
                        parts[i]
                    } else {
                        manifest::entry_hash(crypto::name_cipher(key, parts[i]))
                    },
            ),
            '/',
        ),
{
    text::lemma_split_of_join(parts, '/');
    let stored = Seq::new(
        parts.len(),
        |i: int|
            if parts[i].len() == 0 {
                parts[i]
            } else {
                manifest::entry_hash(crypto::name_cipher(key, parts[i]))
            },
    );
    let all = text::split_on(text::join_with(parts, '/'), '/').map_values(
        |s: Seq<char>|
            if s.len() == 0 {
                Seq::empty()
            } else {
                stored_segment(key, s)
            },
    );
    assert forall|i: int| 0 <= i < parts.len() implies #[trigger] stored[i] == all[i] by {
        if parts[i].len() == 0 {
            assert(parts[i] =~= Seq::empty());
        }
    }
    assert(all =~= stored);
}

/// A key is its directory, its last segment, and slashes at its end if it has any.
pub proof fn law_key_is_parent_and_leaf(key: Seq<char>)
    ensures
        !leaf(key).contains('/'),
        is_prefix(parent_of(key)),
        (parent_of(key) + leaf(key)).is_prefix_of(key),
        forall|i: int|
            (parent_of(key) + leaf(key)).len() <= i < key.len() ==> #[trigger] key[i] == '/',
        key.len() > 0 && key.last() != '/' ==> parent_of(key) + leaf(key) == key,
{
    let t = text::trim_end_char(key, '/');
    let at = text::last_at(t, '/');
    text::law_trim_end_takes_the_run(key, text::is_char('/'));
    text::lemma_last_at(t, '/');
    assert(parent_of(key) + leaf(key) =~= t);
    if leaf(key).contains('/') {
        let i = choose|i: int| 0 <= i < leaf(key).len() && leaf(key)[i] == '/';
        assert(t[at + 1 + i] == '/');
    }
}

} // verus!
