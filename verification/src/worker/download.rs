//! Downloads: which objects of a selection are fetched, where they are written,
//! and how a broken download goes on.

use crate::crypto;
use crate::crypto::{CryptoError, Decryptor, VaultKeys};
use crate::dir_view;
use crate::manifest;
use crate::storage::entries;
use crate::storage::entries::{RawObject, RawView, RemoteEntry, RemoteView};
use crate::text;
use crate::worker::sizes;
use crate::worker::upload;
use vstd::prelude::*;
use vstd::string::*;
use vstd::utf8::*;

verus! {

/// Whether a text is short enough for its segments to be decoded.
pub open spec fn decodable(s: Seq<char>) -> bool {
    encode_utf8(s).len() <= usize::MAX / 8
}

/// The path to show for a stored one: decrypted where it can be.
pub open spec fn shown_rel(name_key: Option<Seq<u8>>, raw: Seq<char>) -> Seq<char> {
    match name_key {
        Some(key) => match crypto::path_plain(key, raw) {
            Ok(plain) => plain,
            Err(_) => raw,
        },
        None => raw,
    }
}

/// The path to show for a stored one.
pub fn display_rel(keys: Option<&VaultKeys>, raw_rel: &str) -> (r: String)
    requires
        decodable(raw_rel@),
    ensures
        r@ == shown_rel(upload::name_key_of(keys), raw_rel@),
{
    match keys {
        Some(k) => match crypto::decrypt_path(k, raw_rel) {
            Ok(plain) => plain,
            Err(_) => raw_rel.to_string(),
        },
        None => raw_rel.to_string(),
    }
}

/// A file to fetch.
#[derive(Clone, Debug)]
pub struct Target {
    pub key: String,
    /// The path to write it to, from the chosen directory.
    pub rel: String,
    /// The plaintext size.
    pub size: u64,
}

/// A file to fetch.
pub struct TargetView {
    pub key: Seq<char>,
    pub rel: Seq<char>,
    pub size: u64,
}

impl View for Target {
    type V = TargetView;

    open spec fn view(&self) -> TargetView {
        TargetView { key: self.key@, rel: self.rel@, size: self.size }
    }
}

/// The files of a list.
pub open spec fn target_views(list: Seq<Target>) -> Seq<TargetView> {
    list.map_values(|t: Target| t@)
}

/// Whether an object of a directory is a file of the user: no folder marker and
/// no manifest.
pub open spec fn is_user_file(o: RawView) -> bool {
    !(o.key.len() > 0 && o.key.last() == '/') && !manifest::is_manifest_name(dir_view::leaf(o.key))
}

/// The rest of a text after a prefix, or all of it where it does not start so.
pub open spec fn after_prefix(s: Seq<char>, prefix: Seq<char>) -> Seq<char> {
    if prefix.is_prefix_of(s) {
        s.skip(prefix.len() as int)
    } else {
        s
    }
}

/// The file to fetch for an object below a chosen directory: its path starts at
/// the directory's own name.
pub open spec fn target_of(name_key: Option<Seq<u8>>, dir: Seq<char>, o: RawView) -> TargetView {
    TargetView {
        key: o.key,
        rel: shown_rel(name_key, after_prefix(o.key, dir_view::parent_of(dir))),
        size: match name_key {
            Some(_) => sizes::unsealed_len(o.size as nat) as u64,
            None => o.size,
        },
    }
}

/// The files to fetch for the objects below a chosen directory.
pub open spec fn targets_of(
    name_key: Option<Seq<u8>>,
    dir: Seq<char>,
    objects: Seq<RawView>,
) -> Seq<TargetView>
    decreases objects.len(),
{
    if objects.len() == 0 {
        Seq::empty()
    } else {
        let front = targets_of(name_key, dir, objects.drop_last());
        if is_user_file(objects.last()) {
            front.push(target_of(name_key, dir, objects.last()))
        } else {
            front
        }
    }
}

/// The files to fetch for the objects that were listed below a chosen directory.
pub fn directory_targets(keys: Option<&VaultKeys>, dir: &str, objects: &Vec<RawObject>) -> (r: Vec<
    Target,
>)
    requires
        forall|i: int| 0 <= i < objects@.len() ==> decodable((#[trigger] objects@[i]).key@),
    ensures
        target_views(r@) == targets_of(
            upload::name_key_of(keys),
            dir@,
            entries::raw_views(objects@),
        ),
{
    let ghost name_key = upload::name_key_of(keys);
    let ghost raw = entries::raw_views(objects@);
    let parent = dir_view::parent_prefix(dir);
    let mut out: Vec<Target> = Vec::new();
    let mut i: usize = 0;
    assert(target_views(out@) =~= targets_of(name_key, dir@, raw.take(0)));
    while i < objects.len()
        invariant
            i <= objects.len(),
            name_key == upload::name_key_of(keys),
            raw == entries::raw_views(objects@),
            parent@ == dir_view::parent_of(dir@),
            forall|j: int| 0 <= j < objects@.len() ==> decodable((#[trigger] objects@[j]).key@),
            target_views(out@) == targets_of(name_key, dir@, raw.take(i as int)),
        decreases objects.len() - i,
    {
        let o = &objects[i];
        let ghost before = target_views(out@);
        assert(raw.take(i as int + 1).drop_last() =~= raw.take(i as int));
        assert(raw[i as int] == o@);
        if !text::ends_with(o.key.as_str(), '/') {
            let leaf = dir_view::leaf_of(o.key.as_str());
            if !manifest::is_manifest_key(leaf.as_str()) {
                let raw_rel = match text::strip_prefix(o.key.as_str(), parent.as_str()) {
                    Some(rest) => {
                        proof {
                            text::lemma_utf8_concat(parent@, rest@);
                            assert(parent@ + rest@ =~= o.key@);
                        }
                        rest
                    },
                    None => o.key.clone(),
                };
                let rel = display_rel(keys, raw_rel.as_str());
                let size: u64 = match keys {
                    Some(_) => sizes::plaintext_of_ciphertext(o.size),
                    None => o.size,
                };
                let target = Target { key: o.key.clone(), rel, size };
                assert(target@ == target_of(name_key, dir@, o@));
                out.push(target);
                assert(target_views(out@) =~= before.push(target_of(name_key, dir@, o@)));
            }
        }
        i += 1;
    }
    assert(raw.take(i as int) =~= raw);
    out
}

/// What was listed below each item of a selection, where a listing was made and
/// did not fail.
pub open spec fn listing_views(list: Seq<Option<Vec<RawObject>>>) -> Seq<Option<Seq<RawView>>> {
    list.map_values(
        |l: Option<Vec<RawObject>>|
            match l {
                Some(objects) => Some(entries::raw_views(objects@)),
                None => None,
            },
    )
}

/// The files to fetch for one item of a selection: a file as it is, a directory by
/// what was listed below it.
pub open spec fn item_targets(
    name_key: Option<Seq<u8>>,
    item: RemoteView,
    listing: Option<Seq<RawView>>,
) -> Seq<TargetView> {
    if !item.is_dir {
        seq![TargetView { key: item.key, rel: item.name, size: item.size }]
    } else {
        match listing {
            Some(objects) => targets_of(name_key, item.key, objects),
            None => Seq::empty(),
        }
    }
}

/// The files to fetch for the items of a selection, in their order.
pub open spec fn selected(
    name_key: Option<Seq<u8>>,
    items: Seq<RemoteView>,
    listings: Seq<Option<Seq<RawView>>>,
) -> Seq<TargetView>
    decreases items.len(),
{
    if items.len() == 0 {
        Seq::empty()
    } else {
        selected(name_key, items.drop_last(), listings) + item_targets(
            name_key,
            items.last(),
            listings[items.len() - 1],
        )
    }
}

/// The files to fetch for a selection. For each of its directories there is what
/// was listed below it, unless the listing failed.
pub fn selection_targets(
    keys: Option<&VaultKeys>,
    items: &Vec<RemoteEntry>,
    listings: &Vec<Option<Vec<RawObject>>>,
) -> (r: Vec<Target>)
    requires
        listings@.len() == items@.len(),
        forall|i: int, j: int|
            0 <= i < listings@.len() && listings@[i] is Some && 0 <= j < listings@[i]->0@.len()
                ==> decodable((#[trigger] listings@[i]->0@[j]).key@),
    ensures
        target_views(r@) == selected(
            upload::name_key_of(keys),
            entries::entry_views(items@),
            listing_views(listings@),
        ),
{
    let ghost name_key = upload::name_key_of(keys);
    let ghost iv = entries::entry_views(items@);
    let ghost lv = listing_views(listings@);
    let mut out: Vec<Target> = Vec::new();
    let mut i: usize = 0;
    assert(target_views(out@) =~= selected(name_key, iv.take(0), lv));
    while i < items.len()
        invariant
            i <= items.len(),
            listings@.len() == items@.len(),
            name_key == upload::name_key_of(keys),
            iv == entries::entry_views(items@),
            lv == listing_views(listings@),
            forall|i: int, j: int|
                0 <= i < listings@.len() && listings@[i] is Some && 0 <= j < listings@[i]->0@.len()
                    ==> decodable((#[trigger] listings@[i]->0@[j]).key@),
            target_views(out@) == selected(name_key, iv.take(i as int), lv),
        decreases items.len() - i,
    {
        let item = &items[i];
        let ghost before = target_views(out@);
        assert(iv.take(i as int + 1).drop_last() =~= iv.take(i as int));
        assert(iv[i as int] == item@);
        assert(lv[i as int] == match listings@[i as int] {
            Some(objects) => Some(entries::raw_views(objects@)),
            None => None,
        });
        if !item.is_dir {
            let target = Target {
                key: item.key.clone(),
                rel: item.name.clone(),
                size: item.size,
            };
            let ghost t = target@;
            out.push(target);
            assert(target_views(out@) =~= before + seq![t]);
        } else {
            match &listings[i] {
                Some(objects) => {
                    let mut found = directory_targets(keys, item.key.as_str(), objects);
                    let ghost more = target_views(found@);
                    out.append(&mut found);
                    assert(target_views(out@) =~= before + more);
                },
                None => {
                    assert(before =~= before + Seq::<TargetView>::empty());
                },
            }
        }
        i += 1;
    }
    assert(iv.take(i as int) =~= iv);
    out
}

/// A selection is fetched whole: each of its files, and each file that was listed
/// below one of its directories.
pub proof fn law_selection_is_complete(
    name_key: Option<Seq<u8>>,
    items: Seq<RemoteView>,
    listings: Seq<Option<Seq<RawView>>>,
    i: int,
    t: TargetView,
)
    requires
        0 <= i < items.len(),
        item_targets(name_key, items[i], listings[i]).contains(t),
    ensures
        selected(name_key, items, listings).contains(t),
    decreases items.len(),
{
    let front = selected(name_key, items.drop_last(), listings);
    let last = item_targets(name_key, items.last(), listings[items.len() - 1]);
    if i == items.len() - 1 {
        let k = choose|k: int| 0 <= k < last.len() && last[k] == t;
        assert((front + last)[front.len() + k] == t);
    } else {
        law_selection_is_complete(name_key, items.drop_last(), listings, i, t);
        let k = choose|k: int| 0 <= k < front.len() && front[k] == t;
        assert((front + last)[k] == t);
    }
}

/// Whether a path segment names something below the directory it stands in.
pub open spec fn is_safe(segment: Seq<char>) -> bool {
    segment.len() > 0 && segment != "."@ && segment != ".."@
}

/// The segments of a list that are safe.
pub open spec fn safe_ones(list: Seq<Seq<char>>) -> Seq<Seq<char>>
    decreases list.len(),
{
    if list.len() == 0 {
        list
    } else if is_safe(list.last()) {
        safe_ones(list.drop_last()).push(list.last())
    } else {
        safe_ones(list.drop_last())
    }
}

/// The local path for a remote one, as a list of segments: what would lead out
/// of the chosen directory is left out.
pub fn sanitize_rel(rel: &str) -> (r: Vec<String>)
    ensures
        text::views(r@) == safe_ones(text::split_on(rel@, '/')),
{
    let all = text::split(rel, '/');
    let ghost plain = text::split_on(rel@, '/');
    let mut out: Vec<String> = Vec::new();
    let mut i: usize = 0;
    assert(text::views(out@) =~= safe_ones(plain.take(0)));
    while i < all.len()
        invariant
            i <= all.len(),
            text::views(all@) == plain,
            text::views(out@) == safe_ones(plain.take(i as int)),
        decreases all.len() - i,
    {
        let segment = all[i].as_str();
        let ghost before = text::views(out@);
        assert(segment@ == plain[i as int]);
        assert(plain.take(i as int + 1).drop_last() =~= plain.take(i as int));
        if !segment.is_empty() && !text::same(segment, ".") && !text::same(segment, "..") {
            out.push(segment.to_string());
            assert(text::views(out@) =~= before.push(plain[i as int]));
        }
        i += 1;
    }
    assert(plain.take(i as int) =~= plain);
    out
}

/// No remote path leads out of the chosen directory: every segment of its local
/// path is the plain name of something below it.
pub proof fn law_no_way_out(rel: Seq<char>)
    ensures
        forall|i: int|
            0 <= i < safe_ones(text::split_on(rel, '/')).len() ==> is_safe(
                #[trigger] safe_ones(text::split_on(rel, '/'))[i],
            ) && !safe_ones(text::split_on(rel, '/'))[i].contains('/'),
{
    text::lemma_split_pieces(rel, '/');
    lemma_safe_ones(text::split_on(rel, '/'));
}

proof fn lemma_safe_ones(list: Seq<Seq<char>>)
    requires
        forall|i: int, j: int|
            0 <= i < list.len() && 0 <= j < list[i].len() ==> #[trigger] list[i][j] != '/',
    ensures
        forall|i: int|
            0 <= i < safe_ones(list).len() ==> is_safe(#[trigger] safe_ones(list)[i])
                && !safe_ones(list)[i].contains('/'),
    decreases list.len(),
{
    if list.len() > 0 {
        let front = list.drop_last();
        assert forall|i: int, j: int| 0 <= i < front.len() && 0 <= j < front[i].len() implies
            #[trigger] front[i][j] != '/' by {
            assert(list[i][j] != '/');
        }
        lemma_safe_ones(front);
        let last = list.last();
        if last.contains('/') {
            let j = choose|j: int| 0 <= j < last.len() && last[j] == '/';
            assert(list[list.len() - 1][j] != '/');
        }
        let kept = safe_ones(front);
        assert forall|i: int| 0 <= i < safe_ones(list).len() implies is_safe(
            #[trigger] safe_ones(list)[i],
        ) && !safe_ones(list)[i].contains('/') by {
            if i < kept.len() {
                assert(safe_ones(list)[i] == kept[i]);
            }
        }
    }
}

/// A path of plain names is written as it is.
pub proof fn law_plain_path_is_kept(rel: Seq<char>)
    requires
        forall|i: int|
            0 <= i < text::split_on(rel, '/').len() ==> is_safe(
                #[trigger] text::split_on(rel, '/')[i],
            ),
    ensures
        safe_ones(text::split_on(rel, '/')) == text::split_on(rel, '/'),
{
    lemma_all_safe(text::split_on(rel, '/'));
}

proof fn lemma_all_safe(list: Seq<Seq<char>>)
    requires
        forall|i: int| 0 <= i < list.len() ==> is_safe(#[trigger] list[i]),
    ensures
        safe_ones(list) == list,
    decreases list.len(),
{
    if list.len() > 0 {
        let front = list.drop_last();
        assert forall|i: int| 0 <= i < front.len() implies is_safe(#[trigger] front[i]) by {
            assert(front[i] == list[i]);
        }
        assert(is_safe(list[list.len() - 1]));
        lemma_all_safe(front);
        assert(front.push(list.last()) =~= list);
    }
}

/// The name of the file that a download is gathered in, beside the file it
/// becomes.
pub fn part_name(file_name: Option<&str>) -> (r: String)
    ensures
        r@ == match file_name {
            Some(name) => name@,
            None => "download"@,
        } + ".rse-part"@,
{
    let name = match file_name {
        Some(name) => name,
        None => "download",
    };
    text::concat(name, ".rse-part")
}

/// How a download goes on from what is on disk.
#[derive(Clone, Copy, Debug, PartialEq, Eq, Structural)]
pub enum Resume {
    /// Everything is there: cut it to the given length if one is given, and give
    /// it its name.
    Finalize { cut_to: Option<u64> },
    /// Keep the first bytes, and fetch the object from an offset on.
    Fetch { keep: u64, cut: bool, offset: u64, completed: u64 },
}

/// How much of what is on disk is kept: of an encrypted file whole chunks only.
pub open spec fn kept(encrypted: bool, on_disk: u64) -> u64 {
    if encrypted {
        (on_disk - on_disk % 0x10_0000) as u64
    } else {
        on_disk
    }
}

/// How a download goes on.
pub open spec fn resumed(encrypted: bool, on_disk: u64, total: u64) -> Resume {
    let keep = kept(encrypted, on_disk);
    if keep > 0 && keep >= total {
        Resume::Finalize {
            cut_to: if on_disk > total {
                Some(total)
            } else {
                None
            },
        }
    } else {
        Resume::Fetch {
            keep,
            cut: keep != on_disk,
            offset: if keep == 0 {
                0
            } else if encrypted {
                (12 + keep / 0x10_0000 * 0x10_0010) as u64
            } else {
                keep
            },
            completed: if encrypted {
                keep / 0x10_0000
            } else {
                0
            },
        }
    }
}

/// How the download of a file of `total` bytes goes on when `on_disk` bytes are
/// on disk.
pub fn plan_resume(encrypted: bool, on_disk: u64, total: u64) -> (r: Resume)
    requires
        encrypted ==> crypto::sealed_len(total as nat) <= u64::MAX,
    ensures
        r == resumed(encrypted, on_disk, total),
{
    let keep: u64 = if encrypted {
        on_disk - on_disk % 0x10_0000
    } else {
        on_disk
    };
    if keep > 0 && keep >= total {
        let cut_to = if on_disk > total {
            Some(total)
        } else {
            None
        };
        Resume::Finalize { cut_to }
    } else {
        let completed: u64 = if encrypted {
            keep / 0x10_0000
        } else {
            0
        };
        assert(encrypted && keep > 0 ==> 12 + completed * 0x10_0010 <= u64::MAX) by {
            assert(completed * 0x10_0000 == keep || !encrypted);
            assert(encrypted && keep > 0 ==> completed <= crypto::chunks_of(total as nat));
        }
        let offset: u64 = if keep == 0 {
            0
        } else if encrypted {
            12 + completed * 0x10_0010
        } else {
            keep
        };
        Resume::Fetch { keep, cut: keep != on_disk, offset, completed }
    }
}

/// A broken download of a plain file ends with the whole file: what stays on disk,
/// followed by the object from where it is fetched, is the file. Nothing that is on
/// disk is fetched again.
pub proof fn law_plain_resume_completes(data: Seq<u8>, on_disk: u64)
    requires
        data.len() <= u64::MAX,
        on_disk < data.len(),
    ensures
        resumed(false, on_disk, data.len() as u64) matches Resume::Fetch {
            keep,
            cut,
            offset,
            completed,
        } && {
            &&& keep == on_disk
            &&& !cut
            &&& completed == 0
            &&& data.take(keep as int) + data.skip(offset as int) == data
            &&& data.skip(offset as int).len() == data.len() - on_disk
        },
{
    assert(data.take(on_disk as int) + data.skip(on_disk as int) =~= data);
}

/// What is on disk is accounted for. A file is complete exactly where as many bytes
/// are there as it has, whole chunks of an encrypted one; what is over is cut off.
/// Otherwise what is kept is a beginning of what is there, of an encrypted file all
/// whole chunks; it is cut where something is over, and where nothing is kept the
/// object is fetched from its start.
pub proof fn law_resume_accounts(encrypted: bool, on_disk: u64, total: u64)
    requires
        encrypted ==> crypto::sealed_len(total as nat) <= u64::MAX,
    ensures
        match resumed(encrypted, on_disk, total) {
            Resume::Finalize { cut_to } => {
                &&& 0 < on_disk
                &&& total <= on_disk
                &&& match cut_to {
                    Some(n) => n == total && n < on_disk,
                    None => on_disk == total,
                }
            },
            Resume::Fetch { keep, cut, offset, completed } => {
                &&& keep <= on_disk
                &&& cut <==> keep < on_disk
                &&& keep == 0 || keep < total
                &&& keep == 0 ==> offset == 0
                &&& completed == if encrypted {
                    keep / 0x10_0000
                } else {
                    0
                }
                &&& encrypted ==> keep % 0x10_0000 == 0 && on_disk - keep < 0x10_0000
                &&& !encrypted ==> keep == on_disk && offset == keep
                &&& encrypted && keep > 0 ==> offset == 12 + completed * 0x10_0010
            },
        },
        resumed(encrypted, on_disk, total) is Finalize <==> {
            &&& on_disk > 0
            &&& total <= on_disk
            &&& encrypted ==> on_disk / 0x10_0000 > 0 && total <= on_disk / 0x10_0000 * 0x10_0000
        },
{
}

/// Why a file could not be opened.
#[derive(Clone, Copy, Debug, PartialEq, Eq, Structural)]
pub enum DownloadError {
    /// The object is shorter than a header.
    NoHeader,
    Crypto(CryptoError),
}

impl DownloadError {
    /// What the user is told.
    pub open spec fn text(self) -> Seq<char> {
        match self {
            DownloadError::NoHeader => "encrypted file too short to contain a header"@,
            DownloadError::Crypto(e) => e.text(),
        }
    }

    /// What the user is told.
    pub fn message(&self) -> (r: String)
        ensures
            r@ == self.text(),
    {
        match self {
            DownloadError::NoHeader => "encrypted file too short to contain a header".to_owned(),
            DownloadError::Crypto(e) => e.message(),
        }
    }
}

/// An encrypted file on its way in, chunk by chunk.
pub struct ChunkStream {
    decryptor: Decryptor,
    next: u32,
    chunks: u32,
    last_len: usize,
}

/// Why a file of this length with this header cannot be read, if it cannot.
pub open spec fn opening_error(cipher_len: nat, header: Seq<u8>) -> Option<DownloadError> {
    match crypto::layout_of(cipher_len) {
        Err(e) => Some(DownloadError::Crypto(e)),
        Ok(_) => if header.len() < 12 {
            Some(DownloadError::NoHeader)
        } else if !crypto::has_header(header) {
            Some(DownloadError::Crypto(CryptoError::BadHeader))
        } else {
            None
        },
    }
}

impl ChunkStream {
    /// The key that chunks are opened under.
    pub closed spec fn key(&self) -> Seq<u8> {
        self.decryptor.key()
    }

    /// The file nonce.
    pub closed spec fn prefix(&self) -> Seq<u8> {
        self.decryptor.prefix()
    }

    /// The number of the next chunk.
    pub closed spec fn next(&self) -> nat {
        self.next as nat
    }

    /// How many chunks the file has.
    pub closed spec fn chunks(&self) -> nat {
        self.chunks as nat
    }

    /// The length of the last chunk.
    pub closed spec fn last_len(&self) -> nat {
        self.last_len as nat
    }

    /// Whether the decryptor stands at the next chunk.
    pub closed spec fn well_formed(&self) -> bool {
        &&& self.decryptor.counter() == self.next
        &&& self.last_len <= crypto::CIPHER_CHUNK
    }

    /// Starts to read a file of the given length after its first chunks.
    pub fn open(keys: &VaultKeys, header: &[u8], cipher_len: u64, completed: u32) -> (r: Result<
        Self,
        DownloadError,
    >)
        requires
            crypto::layout_of(cipher_len as nat) matches Ok(layout) ==> layout.0 <= u32::MAX,
        ensures
            match opening_error(cipher_len as nat, header@) {
                Some(e) => r == Err::<Self, DownloadError>(e),
                None => {
                    let layout = crypto::layout_of(cipher_len as nat)->Ok_0;
                    &&& r is Ok
                    &&& r->Ok_0.well_formed()
                    &&& r->Ok_0.key() == keys.content_key()
                    &&& r->Ok_0.prefix() == header@.subrange(4, 12)
                    &&& r->Ok_0.next() == completed
                    &&& r->Ok_0.chunks() == layout.0
                    &&& r->Ok_0.last_len() == layout.1
                },
            },
    {
        let (chunks, last_len) = match crypto::chunk_layout(cipher_len) {
            Ok(layout) => layout,
            Err(e) => return Err(DownloadError::Crypto(e)),
        };
        if header.len() < crypto::HEADER_LEN {
            return Err(DownloadError::NoHeader);
        }
        let mut decryptor = match Decryptor::new(keys, header) {
            Ok(d) => d,
            Err(e) => return Err(DownloadError::Crypto(e)),
        };
        decryptor.seek_to(completed);
        Ok(ChunkStream { decryptor, next: completed, chunks: chunks as u32, last_len })
    }

    /// The length of the next chunk, if one is left.
    pub fn want(&self) -> (r: Option<usize>)
        requires
            self.well_formed(),
        ensures
            r == if self.next() >= self.chunks() {
                None::<usize>
            } else if self.next() + 1 == self.chunks() {
                Some(self.last_len() as usize)
            } else {
                Some(crypto::CIPHER_CHUNK)
            },
    {
        if self.next >= self.chunks {
            None
        } else if self.next == self.chunks - 1 {
            Some(self.last_len)
        } else {
            Some(crypto::CIPHER_CHUNK)
        }
    }

    /// Opens the next chunk.
    pub fn take(&mut self, sealed: &[u8]) -> (r: Result<Vec<u8>, CryptoError>)
        requires
            old(self).well_formed(),
            old(self).next() < old(self).chunks(),
            sealed@.len() <= crypto::CIPHER_CHUNK,
        ensures
            final(self).well_formed(),
            final(self).key() == old(self).key(),
            final(self).prefix() == old(self).prefix(),
            final(self).chunks() == old(self).chunks(),
            final(self).last_len() == old(self).last_len(),
            final(self).next() == old(self).next() + 1,
            match crypto::opens_to(
                old(self).key(),
                crypto::nonce_of(
                    old(self).prefix(),
                    old(self).next() as u32,
                    old(self).next() + 1 == old(self).chunks(),
                ),
                sealed@,
            ) {
                Some(plain) => r is Ok && r->Ok_0@ == plain,
                None => r == Err::<Vec<u8>, CryptoError>(CryptoError::DecryptionFailed),
            },
    {
        let last = self.next == self.chunks - 1;
        self.next = self.next + 1;
        self.decryptor.open_chunk(sealed, last)
    }

    /// Overwrites the key with zeroes.
    pub fn wipe(&mut self)
        ensures
            final(self).key() == crypto::zeroes(32),
            final(self).prefix() == old(self).prefix(),
            final(self).next() == old(self).next(),
            final(self).chunks() == old(self).chunks(),
            final(self).last_len() == old(self).last_len(),
            old(self).well_formed() ==> final(self).well_formed(),
    {
        self.decryptor.wipe();
    }
}

/// What chunks `k` up to `m` of a file with `n` chunks open to.
pub open spec fn opened_from(key: Seq<u8>, blob: Seq<u8>, n: nat, k: nat, m: nat) -> Option<Seq<u8>>
    decreases m,
{
    if m <= k {
        Some(Seq::empty())
    } else {
        match opened_from(key, blob, n, k, (m - 1) as nat) {
            None => None,
            Some(front) => match crypto::opens_to(
                key,
                crypto::nonce_of(blob.subrange(4, 12), (m - 1) as u32, m == n),
                crypto::cipher_chunk(blob, n, m - 1),
            ) {
                None => None,
                Some(plain) => Some(front + plain),
            },
        }
    }
}

proof fn lemma_opened_from(key: Seq<u8>, blob: Seq<u8>, n: nat, k: nat, m: nat)
    requires
        k <= m,
        crypto::opened_chunks(key, blob, n, m) is Some,
    ensures
        crypto::opened_chunks(key, blob, n, k) is Some,
        opened_from(key, blob, n, k, m) is Some,
        crypto::opened_chunks(key, blob, n, k)->0 + opened_from(key, blob, n, k, m)->0
            == crypto::opened_chunks(key, blob, n, m)->0,
    decreases m,
{
    if k < m {
        lemma_opened_from(key, blob, n, k, (m - 1) as nat);
        let a = crypto::opened_chunks(key, blob, n, k)->0;
        let b = opened_from(key, blob, n, k, (m - 1) as nat)->0;
        let c = opened_from(key, blob, n, k, m)->0;
        assert(a + c =~= crypto::opened_chunks(key, blob, n, m)->0);
    } else {
        assert(crypto::opened_chunks(key, blob, n, k)->0 + Seq::<u8>::empty()
            =~= crypto::opened_chunks(key, blob, n, m)->0);
    }
}

/// A broken download of an encrypted file ends with the whole file: what was
/// kept are the first chunks of the plaintext, the object is fetched from where
/// the next chunk starts, and the chunks from there on open to the rest.
pub proof fn law_resume_completes(key: Seq<u8>, blob: Seq<u8>, data: Seq<u8>, on_disk: u64)
    requires
        crypto::decrypted(key, blob) == Ok::<Seq<u8>, CryptoError>(data),
        data.len() <= u64::MAX,
        crypto::sealed_len(data.len()) <= u64::MAX,
        0 < kept(true, on_disk) < data.len(),
    ensures
        ({
            let n = crypto::layout_of(blob.len())->Ok_0.0;
            let keep = kept(true, on_disk);
            let completed = keep as nat / 0x10_0000;
            let plan = resumed(true, on_disk, data.len() as u64);
            &&& plan matches Resume::Fetch { keep: k, offset, completed: c, .. } && {
                &&& k == keep
                &&& c == completed
                &&& offset == 12 + completed * 0x10_0010
            }
            &&& completed < n
            &&& opened_from(key, blob, n, completed, n) is Some
            &&& data.take(keep as int) + opened_from(key, blob, n, completed, n)->0 == data
        }),
{
    let layout = crypto::layout_of(blob.len())->Ok_0;
    let n = layout.0;
    let keep = kept(true, on_disk);
    let completed = keep as nat / 0x10_0000;
    crypto::law_opened_len(key, blob, data);
    assert(completed * 0x10_0000 == keep);
    let body = blob.len() - 12;
    assert(body == data.len() + n * 16);
    assert(body <= n * 0x10_0010);
    assert(completed < n);
    crypto::law_chunks_open_in_place(key, blob, data, n, completed);
    lemma_opened_from(key, blob, n, completed, n);
    assert(completed as int * 0x10_0000 == keep);
}

/// Milliseconds to wait before the next try of a download.
pub open spec fn backoff(attempt: u32) -> u64 {
    if attempt == 0 {
        400
    } else if attempt == 1 {
        800
    } else if attempt == 2 {
        1600
    } else if attempt == 3 {
        3200
    } else {
        6400
    }
}

/// Milliseconds to wait before the next try of a download: twice as long each
/// time, up to the fourth.
pub fn backoff_ms(attempt: u32) -> (r: u64)
    ensures
        r == backoff(attempt),
{
    let shift: u32 = if attempt < 4 {
        attempt
    } else {
        4
    };
    let mut wait: u64 = 400;
    let mut i: u32 = 0;
    while i < shift
        invariant
            i <= shift <= 4,
            wait == backoff(i),
        decreases shift - i,
    {
        wait = wait * 2;
        i += 1;
    }
    wait
}

/// The tries of one file.
#[derive(Clone, Copy, Debug, PartialEq, Eq, Structural)]
pub struct Tries {
    pub attempt: u32,
    pub retries: u32,
}

impl Tries {
    /// The first try of a file that may be tried again so many times.
    pub fn new(retries: u32) -> (r: Self)
        ensures
            r == (Tries { attempt: 0, retries }),
    {
        Tries { attempt: 0, retries }
    }

    /// A try failed: whether there is another.
    pub fn again(&mut self, cancelled: bool) -> (r: bool)
        ensures
            r == (old(self).attempt < old(self).retries && !cancelled),
            *final(self) == if r {
                Tries { attempt: (old(self).attempt + 1) as u32, ..*old(self) }
            } else {
                *old(self)
            },
    {
        if self.attempt < self.retries && !cancelled {
            self.attempt = self.attempt + 1;
            true
        } else {
            false
        }
    }
}

/// A directory is fetched whole: each object below it that is no folder marker and no
/// manifest, in the order of the listing, by its own key. Its path starts at the
/// directory's own name, in real names where they can be told, and its size is that
/// of the plaintext.
pub proof fn law_directory_is_fetched_whole(
    name_key: Option<Seq<u8>>,
    dir: Seq<char>,
    objects: Seq<RawView>,
)
    ensures
        ({
            let files = objects.filter(
                |o: RawView|
                    !(o.key.len() > 0 && o.key.last() == '/') && dir_view::leaf(o.key) != ".rse"@,
            );
            let targets = targets_of(name_key, dir, objects);
            &&& targets.len() == files.len()
            &&& forall|i: int|
                0 <= i < files.len() ==> {
                    let o = files[i];
                    let t = #[trigger] targets[i];
                    let up = dir_view::parent_of(dir);
                    let raw = if up.is_prefix_of(o.key) {
                        o.key.skip(up.len() as int)
                    } else {
                        o.key
                    };
                    &&& t.key == o.key
                    &&& name_key is None ==> t.size == o.size && t.rel == raw
                    &&& name_key matches Some(nk) ==> {
                        &&& t.size == sizes::unsealed_len(o.size as nat)
                        &&& t.rel == match crypto::path_plain(nk, raw) {
                            Ok(plain) => plain,
                            Err(_) => raw,
                        }
                    }
                }
        }),
    decreases objects.len(),
{
    reveal(Seq::filter);
    if objects.len() > 0 {
        let o = objects.last();
        law_directory_is_fetched_whole(name_key, dir, objects.drop_last());
        dir_view::lemma_leaf_end(o.key);
        assert(sizes::unsealed_len(o.size as nat) <= u64::MAX);
    }
}

/// A selection is fetched as it was chosen: each file of it by its own key, name and
/// size, and nothing that was not chosen or listed below a chosen directory.
pub proof fn law_selection_is_what_was_chosen(
    name_key: Option<Seq<u8>>,
    items: Seq<RemoteView>,
    listings: Seq<Option<Seq<RawView>>>,
)
    ensures
        forall|i: int|
            0 <= i < items.len() && !(#[trigger] items[i]).is_dir ==> selected(
                name_key,
                items,
                listings,
            ).contains(
                TargetView { key: items[i].key, rel: items[i].name, size: items[i].size },
            ),
        forall|t: TargetView| #[trigger]
            selected(name_key, items, listings).contains(t) ==> exists|i: int|
                0 <= i < items.len() && {
                    ||| !(#[trigger] items[i]).is_dir && t == (TargetView {
                        key: items[i].key,
                        rel: items[i].name,
                        size: items[i].size,
                    })
                    ||| items[i].is_dir && listings[i] is Some && targets_of(
                        name_key,
                        items[i].key,
                        listings[i]->0,
                    ).contains(t)
                },
        forall|i: int, t: TargetView|
            0 <= i < items.len() && (#[trigger] items[i]).is_dir && listings[i] is Some
                && #[trigger] targets_of(name_key, items[i].key, listings[i]->0).contains(t)
                ==> selected(name_key, items, listings).contains(t),
    decreases items.len(),
{
    let all = selected(name_key, items, listings);
    assert forall|i: int| 0 <= i < items.len() && !(#[trigger] items[i]).is_dir implies all.contains(
        TargetView { key: items[i].key, rel: items[i].name, size: items[i].size },
    ) by {
        let t = TargetView { key: items[i].key, rel: items[i].name, size: items[i].size };
        assert(item_targets(name_key, items[i], listings[i])[0] == t);
        law_selection_is_complete(name_key, items, listings, i, t);
    }
    assert forall|i: int, t: TargetView|
        0 <= i < items.len() && (#[trigger] items[i]).is_dir && listings[i] is Some
            && #[trigger] targets_of(
            name_key,
            items[i].key,
            listings[i]->0,
        ).contains(t) implies all.contains(t) by {
        law_selection_is_complete(name_key, items, listings, i, t);
    }
    if items.len() > 0 {
        let front = items.drop_last();
        let some = selected(name_key, front, listings);
        law_selection_is_what_was_chosen(name_key, front, listings);
        assert forall|t: TargetView| #[trigger] all.contains(t) implies exists|i: int|
            0 <= i < items.len() && {
                ||| !(#[trigger] items[i]).is_dir && t == (TargetView {
                    key: items[i].key,
                    rel: items[i].name,
                    size: items[i].size,
                })
                ||| items[i].is_dir && listings[i] is Some && targets_of(
                    name_key,
                    items[i].key,
                    listings[i]->0,
                ).contains(t)
            } by {
            let p = choose|p: int| 0 <= p < all.len() && all[p] == t;
            if p < some.len() {
                assert(some[p] == t);
                assert(some.contains(t));
                let i = choose|i: int|
                    0 <= i < front.len() && {
                        ||| !(#[trigger] front[i]).is_dir && t == (TargetView {
                            key: front[i].key,
                            rel: front[i].name,
                            size: front[i].size,
                        })
                        ||| front[i].is_dir && listings[i] is Some && targets_of(
                            name_key,
                            front[i].key,
                            listings[i]->0,
                        ).contains(t)
                    };
                assert(items[i] == front[i]);
            } else {
                let last = item_targets(name_key, items.last(), listings[items.len() - 1]);
                assert(last[p - some.len()] == t);
                assert(items[items.len() - 1] == items.last());
            }
        }
    }
}

/// The local path of a remote one is made of its segments but the empty ones and
/// those that lead nowhere or up.
pub proof fn law_local_path_keeps_names(list: Seq<Seq<char>>)
    ensures
        safe_ones(list) == list.filter(
            |s: Seq<char>| s.len() > 0 && s != seq!['.'] && s != seq!['.', '.'],
        ),
    decreases list.len(),
{
    reveal(Seq::filter);
    reveal_strlit(".");
    reveal_strlit("..");
    assert("."@ =~= seq!['.']);
    assert(".."@ =~= seq!['.', '.']);
    if list.len() > 0 {
        law_local_path_keeps_names(list.drop_last());
    } else {
        assert(list =~= Seq::empty());
    }
}

/// The wait before another try starts at four tenths of a second and doubles with
/// each try, four times at most.
pub proof fn law_backoff_doubles(attempt: u32)
    ensures
        backoff(0) == 400,
        attempt < 4 ==> backoff((attempt + 1) as u32) == 2 * backoff(attempt),
        attempt >= 4 ==> backoff(attempt) == 6400,
{
}

/// What of an encrypted download is kept is a whole number of chunks, and as many as
/// there are; of a plain one all is kept.
pub proof fn law_whole_chunks_are_kept(on_disk: u64)
    ensures
        kept(false, on_disk) == on_disk,
        kept(true, on_disk) <= on_disk,
        kept(true, on_disk) % 0x10_0000 == 0,
        on_disk - kept(true, on_disk) < 0x10_0000,
{
}

/// A relative path is shown as it is in a plain session, and in real names in an
/// encrypted one where they can be told.
pub proof fn law_path_is_shown_in_real_names(key: Seq<u8>, raw: Seq<char>)
    ensures
        shown_rel(None, raw) == raw,
        crypto::path_plain(key, raw) matches Ok(plain) ==> shown_rel(Some(key), raw) == plain,
        crypto::path_plain(key, raw) is Err ==> shown_rel(Some(key), raw) == raw,
{
}

/// An encrypted file can be read where it is long enough, its chunks fit its length,
/// and it starts with a header.
pub proof fn law_opening_needs_a_header(cipher_len: nat, header: Seq<u8>)
    ensures
        opening_error(cipher_len, header) is None <==> crypto::layout_of(cipher_len) is Ok
            && header.len() >= 12 && crypto::has_header(header),
        cipher_len < 28 ==> opening_error(cipher_len, header) is Some,
{
}

} // verus!
