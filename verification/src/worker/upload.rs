//! Uploads: where a file goes, how it is cut into parts, and what is recorded of
//! it afterwards.

use crate::crypto;
use crate::crypto::{CryptoError, VaultKeys};
use crate::dir_view;
use crate::manifest;
use crate::manifest::{FileView, ManifestView};
use crate::manifest_store::Edit;
use crate::storage::entries::RawView;
use crate::text;
use crate::worker::sizes;
use vstd::prelude::*;
use vstd::string::*;
use vstd::utf8::*;

verus! {

/// The key that a file is uploaded to.
pub open spec fn target_key(name_key: Option<Seq<u8>>, dest: Seq<char>, rel: Seq<char>) -> Seq<
    char,
> {
    match name_key {
        Some(key) => dest + dir_view::stored_path(key, rel),
        None => dest + rel,
    }
}

/// The name key of a session, if it is an encrypted one.
pub open spec fn name_key_of(keys: Option<&VaultKeys>) -> Option<Seq<u8>> {
    match keys {
        Some(k) => Some(k.name_key()),
        None => None,
    }
}

/// The key that a file is uploaded to: under the destination, in an encrypted
/// session by stored names.
pub fn upload_key(keys: Option<&VaultKeys>, dest_prefix: &str, rel: &str) -> (r: Result<
    String,
    CryptoError,
>)
    requires
        keys is Some ==> crypto::name_fits(rel@),
    ensures
        r is Ok,
        r->Ok_0@ == target_key(name_key_of(keys), dest_prefix@, rel@),
{
    match keys {
        Some(k) => match dir_view::on_disk_path(k, rel) {
            Ok(path) => Ok(text::concat(dest_prefix, path.as_str())),
            Err(e) => Err(e),
        },
        None => Ok(text::concat(dest_prefix, rel)),
    }
}

/// The relative key of a local path, given by its components.
pub fn path_to_key(components: &Vec<String>) -> (r: String)
    ensures
        r@ == text::join_with(text::views(components@), '/'),
{
    text::join(components, '/')
}

/// Whether a file of this size is uploaded in parts.
pub fn goes_in_parts(plain_len: u64, threshold: u64) -> (r: bool)
    ensures
        r == (plain_len > threshold),
{
    plain_len > threshold
}

/// The bytes that the upload of a file is counted by: those on the wire for an
/// encrypted file in parts, else those of the file.
pub fn meter(encrypted: bool, plain: u64, threshold: u64) -> (r: u64)
    requires
        encrypted && plain > threshold ==> crypto::sealed_len(plain as nat) <= u64::MAX,
    ensures
        r == if encrypted && plain > threshold {
            crypto::sealed_len(plain as nat)
        } else {
            plain as nat
        },
{
    if encrypted && goes_in_parts(plain, threshold) {
        sizes::wire_len(plain)
    } else {
        plain
    }
}

/// The segments of a list that are not empty.
pub open spec fn nonempty(list: Seq<Seq<char>>) -> Seq<Seq<char>>
    decreases list.len(),
{
    if list.len() == 0 {
        list
    } else if list.last().len() == 0 {
        nonempty(list.drop_last())
    } else {
        nonempty(list.drop_last()).push(list.last())
    }
}

/// The stored prefix of the directory that segment `i` of a path lies in.
pub open spec fn dir_before(
    key: Seq<u8>,
    dest: Seq<char>,
    segments: Seq<Seq<char>>,
    i: nat,
) -> Seq<char>
    decreases i,
{
    if i == 0 {
        dest
    } else {
        (dir_before(key, dest, segments, (i - 1) as nat) + dir_view::stored_segment(
            key,
            segments[i - 1],
        )).push('/')
    }
}

/// A change to the manifest of a directory.
pub struct RecordStep {
    pub dir: String,
    pub edit: Edit,
}

/// Whether a step records segment `i` of a path: the last one as a file of the
/// given size, the others as folders.
pub open spec fn records(
    step: RecordStep,
    key: Seq<u8>,
    dest: Seq<char>,
    segments: Seq<Seq<char>>,
    i: int,
    size: u64,
) -> bool {
    &&& step.dir@ == dir_before(key, dest, segments, i as nat)
    &&& if i + 1 == segments.len() {
        step.edit matches Edit::UpsertFile { encrypted, name, size: s } && encrypted@
            == crypto::name_cipher(key, segments[i]) && name@ == segments[i] && s == size
    } else {
        step.edit matches Edit::UpsertFolder { encrypted, name } && encrypted@
            == crypto::name_cipher(key, segments[i]) && name@ == segments[i]
    }
}

/// The segments of a path that are not empty.
fn real_segments(rel: &str) -> (r: Vec<String>)
    requires
        crypto::name_fits(rel@),
    ensures
        text::views(r@) == nonempty(text::split_on(rel@, '/')),
        forall|i: int| 0 <= i < r@.len() ==> crypto::name_fits((#[trigger] r@[i])@),
{
    let all = text::split(rel, '/');
    let ghost plain = text::split_on(rel@, '/');
    proof {
        text::lemma_utf8_pieces(rel@, '/');
    }
    let mut out: Vec<String> = Vec::new();
    let mut i: usize = 0;
    assert(text::views(out@) =~= nonempty(plain.take(0)));
    while i < all.len()
        invariant
            i <= all.len(),
            plain == text::split_on(rel@, '/'),
            text::views(all@) == plain,
            crypto::name_fits(rel@),
            forall|j: int|
                0 <= j < plain.len() ==> encode_utf8(#[trigger] plain[j]).len() <= encode_utf8(
                    rel@,
                ).len(),
            text::views(out@) == nonempty(plain.take(i as int)),
            forall|j: int| 0 <= j < out@.len() ==> crypto::name_fits((#[trigger] out@[j])@),
        decreases all.len() - i,
    {
        let ghost before = text::views(out@);
        assert(all@[i as int]@ == plain[i as int]);
        assert(plain.take(i as int + 1).drop_last() =~= plain.take(i as int));
        if !all[i].as_str().is_empty() {
            out.push(all[i].clone());
            assert(text::views(out@) =~= before.push(plain[i as int]));
        }
        i += 1;
    }
    assert(plain.take(i as int) =~= plain);
    out
}

/// What to record of a file that was uploaded: the file in its directory, and
/// each folder on the way to it in the folder's own parent.
pub fn record_upload(keys: &VaultKeys, dest_prefix: &str, rel: &str, plaintext_size: u64) -> (r:
    Vec<RecordStep>)
    requires
        crypto::name_fits(rel@),
    ensures
        ({
            let segments = nonempty(text::split_on(rel@, '/'));
            &&& r@.len() == segments.len()
            &&& forall|i: int|
                0 <= i < segments.len() ==> records(
                    #[trigger] r@[i],
                    keys.name_key(),
                    dest_prefix@,
                    segments,
                    i,
                    plaintext_size,
                )
        }),
{
    let segments = real_segments(rel);
    let ghost views = text::views(segments@);
    let ghost key = keys.name_key();
    let mut out: Vec<RecordStep> = Vec::new();
    let mut prefix = dest_prefix.to_string();
    let mut i: usize = 0;
    while i < segments.len()
        invariant
            i <= segments.len(),
            views == text::views(segments@),
            key == keys.name_key(),
            forall|j: int| 0 <= j < segments@.len() ==> crypto::name_fits((#[trigger] segments@[j])@),
            out@.len() == i,
            prefix@ == dir_before(key, dest_prefix@, views, i as nat),
            forall|j: int|
                0 <= j < i ==> records(
                    #[trigger] out@[j],
                    key,
                    dest_prefix@,
                    views,
                    j,
                    plaintext_size,
                ),
        decreases segments.len() - i,
    {
        let segment = &segments[i];
        assert(segment@ == views[i as int]);
        let encrypted = crypto::encrypt_name(keys, segment.as_str()).unwrap();
        let hash = manifest::hash_entry(encrypted.as_str());
        let dir = prefix.clone();
        let name = segment.clone();
        let edit = if i + 1 == segments.len() {
            Edit::UpsertFile { encrypted, name, size: plaintext_size }
        } else {
            Edit::UpsertFolder { encrypted, name }
        };
        out.push(RecordStep { dir, edit });
        prefix.append(hash.as_str());
        prefix.push('/');
        assert(prefix@ =~= dir_before(key, dest_prefix@, views, (i + 1) as nat));
        i += 1;
    }
    out
}

/// Segments none of which is empty are all kept.
proof fn lemma_all_nonempty(list: Seq<Seq<char>>)
    requires
        forall|i: int| 0 <= i < list.len() ==> (#[trigger] list[i]).len() > 0,
    ensures
        nonempty(list) == list,
    decreases list.len(),
{
    if list.len() > 0 {
        let front = list.drop_last();
        assert forall|i: int| 0 <= i < front.len() implies (#[trigger] front[i]).len() > 0 by {
            assert(front[i] == list[i]);
        }
        assert(list[list.len() - 1].len() > 0);
        lemma_all_nonempty(front);
        assert(front.push(list.last()) =~= list);
    }
}

/// The first `k` stored segments, each with its slash, lead to segment `k`.
proof fn lemma_dir_before(key: Seq<u8>, dest: Seq<char>, segments: Seq<Seq<char>>, k: nat)
    requires
        k < segments.len(),
    ensures
        dir_before(key, dest, segments, k) + dir_view::stored_segment(key, segments[k as int])
            == dest + text::join_with(
            segments.take(k as int + 1).map_values(
                |s: Seq<char>| dir_view::stored_segment(key, s),
            ),
            '/',
        ),
    decreases k,
{
    let f = |s: Seq<char>| dir_view::stored_segment(key, s);
    let parts = segments.take(k as int + 1).map_values(f);
    if k == 0 {
        assert(parts.len() == 1 && parts[0] == f(segments[0]));
    } else {
        lemma_dir_before(key, dest, segments, (k - 1) as nat);
        assert(parts.drop_last() =~= segments.take(k as int).map_values(f));
        let front = text::join_with(parts.drop_last(), '/');
        assert(dir_before(key, dest, segments, k) =~= (dest + front).push('/'));
        assert((dest + front).push('/') + parts.last() =~= dest + (front.push('/') + parts.last()));
    }
}

/// What is recorded is recorded where the file lies: the directory of the last
/// step, and the stored name in it, make up the key that the file was uploaded
/// to, for every path without empty segments.
pub proof fn law_record_follows_key(key: Seq<u8>, dest: Seq<char>, rel: Seq<char>)
    requires
        forall|i: int|
            0 <= i < text::split_on(rel, '/').len() ==> (#[trigger] text::split_on(
                rel,
                '/',
            )[i]).len() > 0,
    ensures
        ({
            let segments = nonempty(text::split_on(rel, '/'));
            let n = segments.len();
            &&& n > 0
            &&& dir_before(key, dest, segments, (n - 1) as nat) + dir_view::stored_segment(
                key,
                segments.last(),
            ) == target_key(Some(key), dest, rel)
        }),
{
    let all = text::split_on(rel, '/');
    text::lemma_split_nonempty(rel, '/');
    lemma_all_nonempty(all);
    let n = all.len();
    lemma_dir_before(key, dest, all, (n - 1) as nat);
    let f = |s: Seq<char>| dir_view::stored_segment(key, s);
    let g = |s: Seq<char>|
        if s.len() == 0 {
            Seq::empty()
        } else {
            dir_view::stored_segment(key, s)
        };
    assert(all.take(n as int) =~= all);
    assert(all.map_values(f) =~= all.map_values(g)) by {
        assert forall|i: int| 0 <= i < n implies #[trigger] f(all[i]) == g(all[i]) by {
            assert(all[i].len() > 0);
        }
    }
}

/// A file that was uploaded and recorded is listed under its own name and size.
pub proof fn law_recorded_is_listed(
    m: ManifestView,
    key: Seq<u8>,
    dir: Seq<char>,
    name: Seq<char>,
    size: u64,
    stored: RawView,
)
    requires
        dir_view::is_prefix(dir),
        manifest::is_hash(dir_view::stored_segment(key, name)),
        stored.key == dir + dir_view::stored_segment(key, name),
        !stored.is_prefix,
    ensures
        ({
            let after = m.with_file(
                dir_view::stored_segment(key, name),
                FileView { name, size, extra: Map::empty() },
            );
            let shown = dir_view::shown_entry(stored, after);
            &&& dir_view::is_listed(stored)
            &&& shown.name == name
            &&& shown.size == size
            &&& shown.encrypted == Some(true)
        }),
{
    let hash = dir_view::stored_segment(key, name);
    assert(!hash.contains('/')) by {
        if hash.contains('/') {
            let i = choose|i: int| 0 <= i < hash.len() && hash[i] == '/';
            assert(manifest::is_hex(hash[i]));
        }
    }
    dir_view::law_parent_of_child(dir, hash);
    manifest::law_hash_is_no_manifest_name(hash);
}

/// The segments that are kept of a path are those that are not empty.
pub proof fn law_nonempty_segments(list: Seq<Seq<char>>)
    ensures
        nonempty(list) == list.filter(|s: Seq<char>| s.len() > 0),
    decreases list.len(),
{
    reveal(Seq::filter);
    if list.len() > 0 {
        law_nonempty_segments(list.drop_last());
    } else {
        assert(list =~= Seq::empty());
    }
}

/// A file is uploaded to its path below the destination: as it is in a plain
/// session, and in an encrypted one by the stored name of every segment, empty ones
/// where they were.
pub proof fn law_upload_goes_below_destination(
    name_key: Option<Seq<u8>>,
    dest: Seq<char>,
    rel: Seq<char>,
)
    ensures
        dest.is_prefix_of(target_key(name_key, dest, rel)),
        name_key is None ==> target_key(name_key, dest, rel) == dest + rel,
        name_key matches Some(key) ==> target_key(name_key, dest, rel).skip(dest.len() as int)
            == text::join_with(
            Seq::new(
                text::split_on(rel, '/').len(),
                |i: int|
                    if text::split_on(rel, '/')[i].len() == 0 {
                        Seq::<char>::empty()
                    } else {
                        manifest::entry_hash(
                            crypto::name_cipher(key, text::split_on(rel, '/')[i]),
                        )
                    },
            ),
            '/',
        ),
{
    let target = target_key(name_key, dest, rel);
    assert(dest =~= target.take(dest.len() as int));
    if let Some(key) = name_key {
        let plain = text::split_on(rel, '/');
        let stored = Seq::new(
            plain.len(),
            |i: int|
                if plain[i].len() == 0 {
                    Seq::<char>::empty()
                } else {
                    manifest::entry_hash(crypto::name_cipher(key, plain[i]))
                },
        );
        assert(plain.map_values(
            |s: Seq<char>|
                if s.len() == 0 {
                    Seq::empty()
                } else {
                    dir_view::stored_segment(key, s)
                },
        ) =~= stored);
        assert(target.skip(dest.len() as int) =~= dir_view::stored_path(key, rel));
    }
}

/// What is recorded of an upload: each step is made in the directory that the stored
/// names before it lead to, and names what lies there under its stored name; the
/// last one is the file, with its size, the others are folders.
pub proof fn law_records_name_the_path(
    step: RecordStep,
    key: Seq<u8>,
    dest: Seq<char>,
    segments: Seq<Seq<char>>,
    i: int,
    size: u64,
    m: ManifestView,
)
    requires
        0 <= i < segments.len(),
        records(step, key, dest, segments, i, size),
    ensures
        ({
            let stored = dir_view::stored_segment(key, segments[i]);
            let after = crate::manifest_store::edited(m, step.edit);
            &&& step.dir@ + stored == dest + text::join_with(
                segments.take(i + 1).map_values(
                    |s: Seq<char>| dir_view::stored_segment(key, s),
                ),
                '/',
            )
            &&& i + 1 == segments.len() ==> {
                &&& after.files.contains_key(stored)
                &&& after.files[stored].name == segments[i]
                &&& after.files[stored].size == size
                &&& after.folders == m.folders
            }
            &&& i + 1 < segments.len() ==> {
                &&& after.folders.contains_key(stored)
                &&& after.folders[stored].name == segments[i]
                &&& after.files == m.files
            }
        }),
{
    lemma_dir_before(key, dest, segments, i as nat);
}

} // verus!
